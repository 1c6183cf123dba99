//! The records of a run's report, in the order in which they are written:
//! for each cluster its points, each with the cluster's label, and then its
//! centroid with a label of its own.

use vstd::prelude::*;
use crate::cluster::Cluster;

verus! {

/// The number of labels that clusters share among them.
pub const PALETTE_SIZE: usize = 6;

/// The label that marks a centroid. No cluster has it.
pub const CENTROID_LABEL: char = 'k';

/// What one line of the report shows.
#[derive(Clone, Copy, Debug, PartialEq, Eq, Structural)]
pub enum Record {
    /// The point at this index of the dataset, with the label of its cluster.
    Member { point: usize, label: char },
    /// The centroid of the cluster at this index, with the centroid label.
    Center { cluster: usize, label: char },
}

/// The label of the cluster at index `cluster`. Labels repeat after
/// `PALETTE_SIZE` clusters.
pub open spec fn label_of(cluster: int) -> char {
    let turn = cluster % (PALETTE_SIZE as int);
    if turn == 0 {
        'r'
    } else if turn == 1 {
        'g'
    } else if turn == 2 {
        'b'
    } else if turn == 3 {
        'c'
    } else if turn == 4 {
        'm'
    } else {
        'y'
    }
}

/// The records of the points listed in `members`, as points of the cluster
/// at index `cluster`.
pub open spec fn member_records(members: Seq<usize>, cluster: int) -> Seq<Record> {
    members.map_values(|i: usize| Record::Member { point: i, label: label_of(cluster) })
}

/// The records of the first `k` clusters.
pub open spec fn records_upto(clusters: Seq<Cluster>, k: int) -> Seq<Record>
    decreases k,
{
    if k <= 0 {
        Seq::empty()
    } else {
        (records_upto(clusters, k - 1) + member_records(clusters[k - 1].members@, k - 1)).push(
            Record::Center { cluster: (k - 1) as usize, label: CENTROID_LABEL },
        )
    }
}

/// The label of the cluster at index `cluster`.
pub fn cluster_label(cluster: usize) -> (label: char)
    ensures
        label == label_of(cluster as int),
{
    let turn: usize = cluster % PALETTE_SIZE;
    if turn == 0 {
        'r'
    } else if turn == 1 {
        'g'
    } else if turn == 2 {
        'b'
    } else if turn == 3 {
        'c'
    } else if turn == 4 {
        'm'
    } else {
        'y'
    }
}

/// The records of a cluster set: cluster by cluster, the points of each in
/// the order of its member list, and after them its centroid.
pub fn report(clusters: &Vec<Cluster>) -> (records: Vec<Record>)
    ensures
        records@ == records_upto(clusters@, clusters@.len() as int),
{
    let mut records: Vec<Record> = Vec::new();
    let mut c: usize = 0;
    while c < clusters.len()
        invariant
            c <= clusters@.len(),
            records@ == records_upto(clusters@, c as int),
        decreases clusters@.len() - c,
    {
        let label: char = cluster_label(c);
        let members = &clusters[c].members;
        let ghost before = records@;
        let mut j: usize = 0;
        while j < members.len()
            invariant
                j <= members@.len(),
                label == label_of(c as int),
                records@ == before + member_records(members@.take(j as int), c as int),
            decreases members@.len() - j,
        {
            records.push(Record::Member { point: members[j], label });
            proof {
                assert(member_records(members@.take(j + 1), c as int) =~= member_records(
                    members@.take(j as int),
                    c as int,
                ).push(Record::Member { point: members@[j as int], label }));
            }
            j = j + 1;
        }
        proof {
            assert(members@.take(members@.len() as int) == members@);
        }
        records.push(Record::Center { cluster: c, label: CENTROID_LABEL });
        c = c + 1;
    }
    records
}

} // verus!
