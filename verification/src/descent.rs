//! A pass never raises the total squared error.

use vstd::prelude::*;
use crate::assign::{
    centroids_of, labels, lemma_members_upto, lemma_nearest_exists, members_of, members_upto,
    nearest,
};
use crate::cluster::{dataset_ok, sse_of, Cluster, MAX_POINTS};
use crate::engine::{next_centroid, produced, step, trajectory, Config, Fit};
use crate::geometry::{dist2, Centroid, Point};
use crate::spread::lemma_mean_minimizes;

verus! {

/// Sum over the first `k` clusters of the squared error of each, where
/// cluster `c` holds the indices below `n` labelled `c` and stands at `cs[c]`.
pub open spec fn grouped_sse_at(
    points: Seq<Point>,
    ls: Seq<int>,
    cs: Seq<Centroid>,
    k: int,
    n: int,
) -> real
    decreases k,
{
    if k <= 0 {
        0 as real
    } else {
        grouped_sse_at(points, ls, cs, k - 1, n) + sse_of(
            points,
            members_upto(ls, k - 1, n),
            cs[k - 1],
        )
    }
}

/// Total squared error of the clustering that gives point `i` to cluster
/// `ls[i]`, with the centroids `cs`.
pub open spec fn grouped_sse(points: Seq<Point>, ls: Seq<int>, cs: Seq<Centroid>) -> real {
    grouped_sse_at(points, ls, cs, cs.len() as int, ls.len() as int)
}

/// Sum over the first `k` clusters of the squared error of each.
pub open spec fn total_sse_upto(points: Seq<Point>, clusters: Seq<Cluster>, k: int) -> real
    decreases k,
{
    if k <= 0 {
        0 as real
    } else {
        total_sse_upto(points, clusters, k - 1) + sse_of(
            points,
            clusters[k - 1].members@,
            clusters[k - 1].centroid,
        )
    }
}

/// Total squared error of a cluster set: the sum of what `Cluster::sse`
/// gives for each cluster.
pub open spec fn total_sse(points: Seq<Point>, clusters: Seq<Cluster>) -> real {
    total_sse_upto(points, clusters, clusters.len() as int)
}

/// Total squared error after pass `n`, counted from one, of the run from
/// `start`.
pub open spec fn sse_after(points: Seq<Point>, start: Seq<Centroid>, n: nat) -> real {
    grouped_sse(
        points,
        labels(points, trajectory(points, start, (n - 1) as nat)),
        trajectory(points, start, n),
    )
}

/// Every label names one of `k` clusters.
pub open spec fn labels_within(ls: Seq<int>, k: nat) -> bool {
    forall|i: int| 0 <= i < ls.len() ==> 0 <= #[trigger] ls[i] < k
}

/// Sum over the first `n` points of the squared distance from each to the
/// centroid that its label names.
spec fn point_cost_upto(points: Seq<Point>, ls: Seq<int>, cs: Seq<Centroid>, n: int) -> real
    decreases n,
{
    if n <= 0 {
        0 as real
    } else {
        point_cost_upto(points, ls, cs, n - 1) + dist2(points[n - 1], cs[ls[n - 1]])
    }
}

/// Taking one more point into account adds its squared distance to the
/// error of the cluster that its label names, and nothing to the others.
proof fn lemma_grouped_next_point(
    points: Seq<Point>,
    ls: Seq<int>,
    cs: Seq<Centroid>,
    k: int,
    n: int,
)
    requires
        0 <= k <= cs.len(),
        0 <= n < ls.len(),
        ls.len() <= MAX_POINTS,
    ensures
        grouped_sse_at(points, ls, cs, k, n + 1) == grouped_sse_at(points, ls, cs, k, n) + (if 0
            <= ls[n] < k {
            dist2(points[n], cs[ls[n]])
        } else {
            0 as real
        }),
    decreases k,
{
    if k > 0 {
        lemma_grouped_next_point(points, ls, cs, k - 1, n);
        let before = members_upto(ls, k - 1, n);
        let now = members_upto(ls, k - 1, n + 1);
        if ls[n] == k - 1 {
            assert(now == before.push(n as usize));
            assert(now.drop_last() == before);
            assert(now.last() == n);
        }
    }
}

/// Summing by cluster and summing by point give the same total.
proof fn lemma_regroup(points: Seq<Point>, ls: Seq<int>, cs: Seq<Centroid>, n: int)
    requires
        0 <= n <= ls.len(),
        ls.len() <= MAX_POINTS,
        labels_within(ls, cs.len()),
    ensures
        grouped_sse_at(points, ls, cs, cs.len() as int, n) == point_cost_upto(points, ls, cs, n),
    decreases n,
{
    if n == 0 {
        lemma_grouped_nothing(points, ls, cs, cs.len() as int);
    } else {
        lemma_regroup(points, ls, cs, n - 1);
        lemma_grouped_next_point(points, ls, cs, cs.len() as int, n - 1);
        assert(0 <= ls[n - 1] < cs.len());
    }
}

/// With no point taken into account the total is zero.
proof fn lemma_grouped_nothing(points: Seq<Point>, ls: Seq<int>, cs: Seq<Centroid>, k: int)
    ensures
        grouped_sse_at(points, ls, cs, k, 0) == 0 as real,
    decreases k,
{
    if k > 0 {
        lemma_grouped_nothing(points, ls, cs, k - 1);
        assert(members_upto(ls, k - 1, 0).len() == 0);
    }
}

/// Labelling every point with its nearest centroid costs no more than any
/// other labelling.
proof fn lemma_nearest_costs_least(
    points: Seq<Point>,
    other: Seq<int>,
    cs: Seq<Centroid>,
    n: int,
)
    requires
        0 <= n <= points.len(),
        other.len() == points.len(),
        labels_within(other, cs.len()),
        cs.len() >= 1,
    ensures
        point_cost_upto(points, labels(points, cs), cs, n) <= point_cost_upto(
            points,
            other,
            cs,
            n,
        ),
    decreases n,
{
    if n > 0 {
        lemma_nearest_costs_least(points, other, cs, n - 1);
        lemma_nearest_exists(points[n - 1], cs);
        assert(0 <= other[n - 1] < cs.len());
        assert(labels(points, cs)[n - 1] == nearest(points[n - 1], cs));
    }
}

/// Moving every centroid to the mean of its points, and leaving those
/// without points, raises the error of no cluster.
proof fn lemma_update_lowers_each(points: Seq<Point>, ls: Seq<int>, cs: Seq<Centroid>, k: int)
    requires
        dataset_ok(points),
        ls == labels(points, cs),
        0 <= k <= cs.len(),
    ensures
        grouped_sse_at(points, ls, step(points, cs), k, ls.len() as int) <= grouped_sse_at(
            points,
            ls,
            cs,
            k,
            ls.len() as int,
        ),
    decreases k,
{
    if k > 0 {
        lemma_update_lowers_each(points, ls, cs, k - 1);
        let m = members_of(ls, k - 1);
        lemma_members_upto(ls, k - 1, ls.len() as int);
        if m.len() > 0 {
            lemma_mean_minimizes(points, m, cs[k - 1]);
        }
        assert(step(points, cs)[k - 1] == next_centroid(points, m, cs[k - 1]));
    }
}

/// Every label that `labels` gives names a centroid.
pub proof fn lemma_labels_within(points: Seq<Point>, cs: Seq<Centroid>)
    requires
        cs.len() >= 1,
    ensures
        labels_within(labels(points, cs), cs.len()),
        labels(points, cs).len() == points.len(),
{
    assert forall|i: int| 0 <= i < points.len() implies 0 <= #[trigger] labels(points, cs)[i]
        < cs.len() by {
        lemma_nearest_exists(points[i], cs);
    }
}

/// One pass never raises the total squared error. Whatever labelling
/// `prior` the centroids `cs` come with, giving every point to its nearest
/// centroid and then moving every centroid to the mean of its points leaves
/// a total that is no larger.
pub proof fn lemma_pass_never_raises_sse(points: Seq<Point>, prior: Seq<int>, cs: Seq<Centroid>)
    requires
        dataset_ok(points),
        cs.len() >= 1,
        prior.len() == points.len(),
        labels_within(prior, cs.len()),
    ensures
        grouped_sse(points, labels(points, cs), step(points, cs)) <= grouped_sse(
            points,
            prior,
            cs,
        ),
{
    let ls = labels(points, cs);
    let n = points.len() as int;
    lemma_labels_within(points, cs);
    lemma_update_lowers_each(points, ls, cs, cs.len() as int);
    lemma_regroup(points, ls, cs, n);
    lemma_nearest_costs_least(points, prior, cs, n);
    lemma_regroup(points, prior, cs, n);
}

/// In a run, the total squared error after a pass is never larger than
/// after the pass before it.
pub proof fn lemma_sse_never_rises(points: Seq<Point>, start: Seq<Centroid>, n: nat)
    requires
        dataset_ok(points),
        start.len() >= 1,
        n >= 1,
    ensures
        sse_after(points, start, n + 1) <= sse_after(points, start, n),
{
    let earlier = trajectory(points, start, (n - 1) as nat);
    let cs = trajectory(points, start, n);
    lemma_trajectory_len(points, start, (n - 1) as nat);
    lemma_trajectory_len(points, start, n);
    lemma_labels_within(points, earlier);
    lemma_pass_never_raises_sse(points, labels(points, earlier), cs);
}

/// A run keeps the number of centroids.
pub proof fn lemma_trajectory_len(points: Seq<Point>, start: Seq<Centroid>, n: nat)
    ensures
        trajectory(points, start, n).len() == start.len(),
    decreases n,
{
    if n > 0 {
        lemma_trajectory_len(points, start, (n - 1) as nat);
    }
}

/// The total squared error of the clusters that a run returns is the total
/// after its last pass.
pub proof fn lemma_fit_sse(points: Seq<Point>, config: Config, fit: Fit)
    requires
        produced(points, config, fit),
    ensures
        total_sse(points, fit.clusters@) == sse_after(
            points,
            config.initial_centroids@,
            fit.iterations as nat,
        ),
{
    let start = config.initial_centroids@;
    let n = fit.iterations as nat;
    let ls = labels(points, trajectory(points, start, (n - 1) as nat));
    lemma_total_is_grouped(points, ls, fit.clusters@, fit.clusters@.len() as int);
}

/// For clusters that hold the points of their label, the sum of their
/// squared errors is the grouped total.
proof fn lemma_total_is_grouped(points: Seq<Point>, ls: Seq<int>, clusters: Seq<Cluster>, k: int)
    requires
        0 <= k <= clusters.len(),
        forall|c: int| 0 <= c < clusters.len() ==> (#[trigger] clusters[c]).members@ == members_of(ls, c),
    ensures
        total_sse_upto(points, clusters, k) == grouped_sse_at(
            points,
            ls,
            centroids_of(clusters),
            k,
            ls.len() as int,
        ),
    decreases k,
{
    if k > 0 {
        lemma_total_is_grouped(points, ls, clusters, k - 1);
        assert(clusters[k - 1].members@ == members_of(ls, k - 1));
    }
}

} // verus!
