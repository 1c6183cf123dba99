//! Nearest-centroid selection and the assignment pass.

use vstd::prelude::*;
use crate::cluster::{dataset_ok, Cluster, MAX_POINTS};
use crate::geometry::{dist2, Centroid, Point};
use crate::ratio::Ratio;

verus! {

/// The centroids of a cluster set, in order.
pub open spec fn centroids_of(clusters: Seq<Cluster>) -> Seq<Centroid> {
    Seq::new(clusters.len(), |k: int| clusters[k].centroid)
}

/// Every centroid of the sequence is well formed.
pub open spec fn all_wf(cs: Seq<Centroid>) -> bool {
    forall|k: int| 0 <= k < cs.len() ==> (#[trigger] cs[k]).wf()
}

/// `r` is the index of the centroid nearest to `p`: none is nearer, and
/// every centroid before it is strictly farther, so among equally near
/// centroids the first wins.
pub open spec fn is_nearest(p: Point, cs: Seq<Centroid>, r: int) -> bool {
    &&& 0 <= r < cs.len()
    &&& forall|j: int| 0 <= j < cs.len() ==> dist2(p, cs[r]) <= dist2(p, #[trigger] cs[j])
    &&& forall|j: int| 0 <= j < r ==> dist2(p, cs[r]) < dist2(p, #[trigger] cs[j])
}

/// The index of the centroid nearest to `p`.
pub open spec fn nearest(p: Point, cs: Seq<Centroid>) -> int {
    choose|r: int| is_nearest(p, cs, r)
}

/// The label of every point: the index of its nearest centroid.
pub open spec fn labels(points: Seq<Point>, cs: Seq<Centroid>) -> Seq<int> {
    Seq::new(points.len(), |i: int| nearest(points[i], cs))
}

/// The indices below `n` that carry the label `k`, in increasing order.
pub open spec fn members_upto(labels: Seq<int>, k: int, n: int) -> Seq<usize>
    decreases n,
{
    if n <= 0 {
        Seq::empty()
    } else if labels[n - 1] == k {
        members_upto(labels, k, n - 1).push((n - 1) as usize)
    } else {
        members_upto(labels, k, n - 1)
    }
}

/// All indices that carry the label `k`, in increasing order.
pub open spec fn members_of(labels: Seq<int>, k: int) -> Seq<usize> {
    members_upto(labels, k, labels.len() as int)
}

/// Some member list holds the index `i`.
pub open spec fn is_listed(clusters: Seq<Cluster>, i: int) -> bool {
    exists|k: int, j: int|
        0 <= k < clusters.len() && 0 <= j < clusters[k].members@.len() && (
        #[trigger] clusters[k].members@[j]) == i
}

/// The member lists split the indices `0..n`: every member is such an index,
/// every such index is a member, and no index is listed twice, neither in
/// one list nor in two.
pub open spec fn is_partition(n: nat, clusters: Seq<Cluster>) -> bool {
    &&& forall|k: int, j: int|
        0 <= k < clusters.len() && 0 <= j < clusters[k].members@.len() ==> (
        #[trigger] clusters[k].members@[j]) < n
    &&& forall|i: int| 0 <= i < n ==> #[trigger] is_listed(clusters, i)
    &&& forall|k1: int, j1: int, k2: int, j2: int|
        0 <= k1 < clusters.len() && 0 <= j1 < clusters[k1].members@.len() && 0 <= k2
            < clusters.len() && 0 <= j2 < clusters[k2].members@.len() && (
        #[trigger] clusters[k1].members@[j1]) == (#[trigger] clusters[k2].members@[j2]) ==> k1 == k2
            && j1 == j2
}

/// At most one index is the nearest.
pub proof fn lemma_nearest_unique(p: Point, cs: Seq<Centroid>, a: int, b: int)
    requires
        is_nearest(p, cs, a),
        is_nearest(p, cs, b),
    ensures
        a == b,
{
    if a < b {
        assert(dist2(p, cs[b]) < dist2(p, cs[a]));
        assert(dist2(p, cs[a]) <= dist2(p, cs[b]));
    } else if b < a {
        assert(dist2(p, cs[a]) < dist2(p, cs[b]));
        assert(dist2(p, cs[b]) <= dist2(p, cs[a]));
    }
}

/// Among the first `n` centroids one is the nearest.
proof fn lemma_prefix_has_nearest(p: Point, cs: Seq<Centroid>, n: int) -> (r: int)
    requires
        1 <= n <= cs.len(),
    ensures
        is_nearest(p, cs.take(n), r),
    decreases n,
{
    if n == 1 {
        0
    } else {
        let b = lemma_prefix_has_nearest(p, cs, n - 1);
        let before = cs.take(n - 1);
        let now = cs.take(n);
        assert forall|j: int| 0 <= j < n - 1 implies #[trigger] now[j] == before[j] by {}
        if dist2(p, cs[n - 1]) < dist2(p, cs[b]) {
            assert forall|j: int| 0 <= j < n implies dist2(p, now[n - 1]) <= dist2(
                p,
                #[trigger] now[j],
            ) by {
                if j < n - 1 {
                    assert(dist2(p, before[b]) <= dist2(p, before[j]));
                }
            }
            assert forall|j: int| 0 <= j < n - 1 implies dist2(p, now[n - 1]) < dist2(
                p,
                #[trigger] now[j],
            ) by {
                assert(dist2(p, before[b]) <= dist2(p, before[j]));
            }
            n - 1
        } else {
            assert forall|j: int| 0 <= j < n implies dist2(p, now[b]) <= dist2(
                p,
                #[trigger] now[j],
            ) by {
                if j < n - 1 {
                    assert(dist2(p, before[b]) <= dist2(p, before[j]));
                }
            }
            assert forall|j: int| 0 <= j < b implies dist2(p, now[b]) < dist2(
                p,
                #[trigger] now[j],
            ) by {
                assert(dist2(p, before[b]) < dist2(p, before[j]));
            }
            b
        }
    }
}

/// Where there is a centroid at all, `nearest` names the nearest one.
pub proof fn lemma_nearest_exists(p: Point, cs: Seq<Centroid>)
    requires
        cs.len() >= 1,
    ensures
        is_nearest(p, cs, nearest(p, cs)),
{
    let r = lemma_prefix_has_nearest(p, cs, cs.len() as int);
    assert(cs.take(cs.len() as int) == cs);
}

/// What `members_upto` holds: indices below `n` with label `k`, each once,
/// in increasing order, and all of them.
pub proof fn lemma_members_upto(labels: Seq<int>, k: int, n: int)
    requires
        0 <= n <= labels.len() <= MAX_POINTS,
    ensures
        members_upto(labels, k, n).len() <= n,
        forall|j: int|
            0 <= j < members_upto(labels, k, n).len() ==> (#[trigger] members_upto(labels, k, n)[j])
                < n && labels[members_upto(labels, k, n)[j] as int] == k,
        forall|j1: int, j2: int|
            0 <= j1 < j2 < members_upto(labels, k, n).len() ==> (#[trigger] members_upto(
                labels,
                k,
                n,
            )[j1]) < (#[trigger] members_upto(labels, k, n)[j2]),
        forall|i: int|
            0 <= i < n && #[trigger] labels[i] == k ==> exists|j: int|
                0 <= j < members_upto(labels, k, n).len() && (#[trigger] members_upto(
                    labels,
                    k,
                    n,
                )[j]) == i,
    decreases n,
{
    if n > 0 {
        lemma_members_upto(labels, k, n - 1);
        let before = members_upto(labels, k, n - 1);
        let now = members_upto(labels, k, n);
        assert forall|i: int| 0 <= i < n && #[trigger] labels[i] == k implies exists|j: int|
            0 <= j < now.len() && (#[trigger] now[j]) == i by {
            if i < n - 1 {
                let j = choose|j: int| 0 <= j < before.len() && (#[trigger] before[j]) == i;
                assert(now[j] == i);
            } else {
                assert(now[now.len() - 1] == i);
            }
        }
    }
}

/// Member lists that hold, for each cluster, the indices with its label
/// split the dataset.
pub proof fn lemma_labelled_lists_partition(labels: Seq<int>, clusters: Seq<Cluster>)
    requires
        labels.len() <= MAX_POINTS,
        forall|i: int| 0 <= i < labels.len() ==> 0 <= #[trigger] labels[i] < clusters.len(),
        forall|k: int|
            0 <= k < clusters.len() ==> (#[trigger] clusters[k]).members@ == members_of(labels, k),
    ensures
        is_partition(labels.len(), clusters),
{
    let n = labels.len() as int;
    assert forall|k: int, j: int|
        0 <= k < clusters.len() && 0 <= j < clusters[k].members@.len() implies (
    #[trigger] clusters[k].members@[j]) < n by {
        lemma_members_upto(labels, k, n);
    }
    assert forall|i: int| 0 <= i < n implies #[trigger] is_listed(clusters, i) by {
        let k = labels[i];
        lemma_members_upto(labels, k, n);
        let j = choose|j: int|
            0 <= j < members_upto(labels, k, n).len() && (#[trigger] members_upto(labels, k, n)[j])
                == i;
        assert(clusters[k].members@[j] == i);
    }
    assert forall|k1: int, j1: int, k2: int, j2: int|
        0 <= k1 < clusters.len() && 0 <= j1 < clusters[k1].members@.len() && 0 <= k2
            < clusters.len() && 0 <= j2 < clusters[k2].members@.len() && (
        #[trigger] clusters[k1].members@[j1]) == (
        #[trigger] clusters[k2].members@[j2]) implies k1 == k2 && j1 == j2 by {
        lemma_members_upto(labels, k1, n);
        lemma_members_upto(labels, k2, n);
        let m1 = members_upto(labels, k1, n);
        let m2 = members_upto(labels, k2, n);
        assert(labels[m1[j1] as int] == k1);
        assert(labels[m2[j2] as int] == k2);
        if j1 < j2 {
            assert(m1[j1] < m1[j2]);
        } else if j2 < j1 {
            assert(m1[j2] < m1[j1]);
        }
    }
}

/// The index of the cluster whose centroid is nearest to `point`. Where
/// several are equally near, the first of them is chosen.
pub fn closest_cluster(point: &Point, clusters: &Vec<Cluster>) -> (r: usize)
    requires
        clusters@.len() >= 1,
        point.in_range(),
        all_wf(centroids_of(clusters@)),
    ensures
        is_nearest(*point, centroids_of(clusters@), r as int),
        r == nearest(*point, centroids_of(clusters@)),
{
    let ghost cs = centroids_of(clusters@);
    let mut min_index: usize = 0;
    proof {
        assert(cs[0].wf());
    }
    let mut least: Ratio = clusters[0].centroid.dist2_to(point);
    let mut cur_index: usize = 1;
    while cur_index < clusters.len()
        invariant
            1 <= cur_index <= clusters@.len(),
            cs == centroids_of(clusters@),
            all_wf(cs),
            point.in_range(),
            min_index < cur_index,
            least.wf(),
            least.den == cs[min_index as int].scale * cs[min_index as int].scale,
            least.value() == dist2(*point, cs[min_index as int]),
            forall|j: int| 0 <= j < cur_index ==> least.value() <= dist2(*point, #[trigger] cs[j]),
            forall|j: int| 0 <= j < min_index ==> least.value() < dist2(*point, #[trigger] cs[j]),
        decreases clusters@.len() - cur_index,
    {
        proof {
            assert(cs[cur_index as int].wf());
            assert(cs[min_index as int].wf());
            let s = cs[cur_index as int].scale as int;
            let t = cs[min_index as int].scale as int;
            assert(s * s <= 0x100_0000_0000 && t * t <= 0x100_0000_0000) by (nonlinear_arith)
                requires
                    1 <= s <= 0x10_0000,
                    1 <= t <= 0x10_0000,
            ;
            assert((s * s) * (t * t) <= 0x100_0000_0000 * 0x100_0000_0000) by (nonlinear_arith)
                requires
                    0 <= s * s <= 0x100_0000_0000,
                    0 <= t * t <= 0x100_0000_0000,
            ;
        }
        let d: Ratio = clusters[cur_index].centroid.dist2_to(point);
        if d.less_than(&least) {
            min_index = cur_index;
            least = d;
        }
        cur_index = cur_index + 1;
    }
    proof {
        lemma_nearest_exists(*point, cs);
        lemma_nearest_unique(*point, cs, min_index as int, nearest(*point, cs));
    }
    min_index
}

/// The assignment pass: empties every member list, then gives each point,
/// in dataset order, to the cluster with the nearest centroid. Centroids
/// are left as they are.
pub fn assign_points(points: &Vec<Point>, clusters: &mut Vec<Cluster>)
    requires
        old(clusters)@.len() >= 1,
        dataset_ok(points@),
        all_wf(centroids_of(old(clusters)@)),
    ensures
        final(clusters)@.len() == old(clusters)@.len(),
        centroids_of(final(clusters)@) == centroids_of(old(clusters)@),
        forall|k: int|
            0 <= k < final(clusters)@.len() ==> (#[trigger] final(clusters)@[k]).members@
                == members_of(labels(points@, centroids_of(old(clusters)@)), k),
        is_partition(points@.len(), final(clusters)@),
{
    let ghost cs = centroids_of(clusters@);
    let ghost ls = labels(points@, cs);
    let count: usize = clusters.len();
    let mut c: usize = 0;
    while c < count
        invariant
            c <= count,
            count == clusters@.len(),
            centroids_of(clusters@) == cs,
            forall|k: int| 0 <= k < c ==> (#[trigger] clusters@[k]).members@.len() == 0,
        decreases count - c,
    {
        let ghost before = clusters@;
        clusters[c].members.clear();
        proof {
            assert(centroids_of(clusters@) =~= centroids_of(before)) by {
                assert forall|k: int| 0 <= k < count implies (#[trigger] clusters@[k]).centroid
                    == before[k].centroid by {
                    assert(centroids_of(before)[k] == before[k].centroid);
                }
            }
        }
        c = c + 1;
    }
    let n: usize = points.len();
    let mut i: usize = 0;
    while i < n
        invariant
            i <= n,
            n == points@.len(),
            dataset_ok(points@),
            count == clusters@.len(),
            count >= 1,
            cs.len() == count,
            all_wf(cs),
            centroids_of(clusters@) == cs,
            ls == labels(points@, cs),
            forall|k: int|
                0 <= k < count ==> (#[trigger] clusters@[k]).members@ == members_upto(
                    ls,
                    k,
                    i as int,
                ),
        decreases n - i,
    {
        let point: Point = points[i];
        proof {
            assert(points@[i as int].in_range());
        }
        let min_index: usize = closest_cluster(&point, clusters);
        let ghost before = clusters@;
        proof {
            assert(ls[i as int] == min_index);
        }
        clusters[min_index].members.push(i);
        proof {
            assert(centroids_of(clusters@) =~= cs) by {
                assert forall|k: int| 0 <= k < count implies (#[trigger] clusters@[k]).centroid
                    == cs[k] by {
                    assert(centroids_of(before)[k] == before[k].centroid);
                }
            }
            assert forall|k: int| 0 <= k < count implies (#[trigger] clusters@[k]).members@
                == members_upto(ls, k, i + 1) by {
                assert(before[k].members@ == members_upto(ls, k, i as int));
            }
        }
        i = i + 1;
    }
    proof {
        assert forall|idx: int| 0 <= idx < ls.len() implies 0 <= #[trigger] ls[idx]
            < clusters@.len() by {
            lemma_nearest_exists(points@[idx], cs);
        }
        lemma_labelled_lists_partition(ls, clusters@);
    }
}

} // verus!
