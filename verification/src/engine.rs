//! The clustering loop: assignment, centroid update and the test for rest,
//! repeated until every centroid stays within the threshold or the
//! iteration limit is reached.

use vstd::prelude::*;
use crate::assign::{
    all_wf, assign_points, centroids_of, is_partition, labels, lemma_members_upto, members_of,
};
use crate::cluster::{dataset_ok, mean_of, Cluster, MAX_POINTS};
use crate::geometry::{moved2, square, Centroid, Point, Threshold};

verus! {

/// What a run is given besides the dataset.
#[derive(Debug)]
pub struct Config {
    /// The number of clusters.
    pub k: usize,
    /// The centroids to start from, one for each cluster, in order.
    pub initial_centroids: Vec<Centroid>,
    /// Iteration stops once no centroid moves as far as this in one pass.
    pub threshold: Threshold,
    /// The largest number of passes.
    pub max_iterations: usize,
}

/// The outcome of a run.
#[derive(Debug)]
pub struct Fit {
    /// The clusters after the last pass, in the order of the initial centroids.
    pub clusters: Vec<Cluster>,
    /// The number of passes made.
    pub iterations: usize,
    /// Whether every centroid moved less than the threshold in the last pass.
    pub converged: bool,
}

/// Why a run was refused before its first pass.
#[derive(Clone, Copy, Debug, PartialEq, Eq, Structural)]
pub enum KMeansError {
    /// The number of clusters is zero.
    NoClusters,
    /// The number of initial centroids differs from the number of clusters.
    CentroidCountMismatch,
    /// The dataset holds no point.
    EmptyDataset,
    /// The dataset holds more than `MAX_POINTS` points.
    TooManyPoints,
    /// The point at this index, the first such, is out of range.
    PointOutOfRange(usize),
    /// The initial centroid at this index, the first such, is not well formed.
    InvalidCentroid(usize),
    /// The threshold's denominator is zero or above `MAX_SCALE`.
    InvalidThreshold,
    /// The iteration limit is zero.
    NoIterationsAllowed,
}

/// Where a cluster's centroid goes in the update: to the mean of its
/// points, or nowhere if it has none.
pub open spec fn next_centroid(points: Seq<Point>, members: Seq<usize>, current: Centroid) -> Centroid {
    if members.len() == 0 {
        current
    } else {
        mean_of(points, members)
    }
}

/// The centroids after one pass from `cs`: each point goes to its nearest
/// centroid, then each centroid moves to the mean of its points.
pub open spec fn step(points: Seq<Point>, cs: Seq<Centroid>) -> Seq<Centroid> {
    Seq::new(
        cs.len(),
        |k: int| next_centroid(points, members_of(labels(points, cs), k), cs[k]),
    )
}

/// Every centroid moved less than `limit` from `before` to `after`.
pub open spec fn settled(before: Seq<Centroid>, after: Seq<Centroid>, limit: Threshold) -> bool {
    forall|k: int|
        0 <= k < before.len() ==> moved2(#[trigger] before[k], after[k]) < square(limit.value())
}

/// The centroids after `n` passes from `start`.
pub open spec fn trajectory(points: Seq<Point>, start: Seq<Centroid>, n: nat) -> Seq<Centroid>
    decreases n,
{
    if n == 0 {
        start
    } else {
        step(points, trajectory(points, start, (n - 1) as nat))
    }
}

/// The pass number `m`, counted from one, left every centroid within `limit`.
pub open spec fn rests_at(
    points: Seq<Point>,
    start: Seq<Centroid>,
    limit: Threshold,
    m: nat,
) -> bool {
    m >= 1 && settled(
        trajectory(points, start, (m - 1) as nat),
        trajectory(points, start, m),
        limit,
    )
}

/// The index `i` is the first at which a point is out of range.
pub open spec fn first_point_out_of_range(points: Seq<Point>, i: int) -> bool {
    &&& 0 <= i < points.len()
    &&& !points[i].in_range()
    &&& forall|j: int| 0 <= j < i ==> (#[trigger] points[j]).in_range()
}

/// The index `i` is the first at which a centroid is not well formed.
pub open spec fn first_invalid_centroid(cs: Seq<Centroid>, i: int) -> bool {
    &&& 0 <= i < cs.len()
    &&& !cs[i].wf()
    &&& forall|j: int| 0 <= j < i ==> (#[trigger] cs[j]).wf()
}

/// The dataset and the configuration can be run.
pub open spec fn acceptable(points: Seq<Point>, config: Config) -> bool {
    &&& config.k >= 1
    &&& config.initial_centroids@.len() == config.k
    &&& points.len() >= 1
    &&& dataset_ok(points)
    &&& all_wf(config.initial_centroids@)
    &&& config.threshold.wf()
    &&& config.max_iterations >= 1
}

/// The error `e` is the one owed: its own condition holds, and none of the
/// conditions listed before it in `KMeansError`.
pub open spec fn owed(points: Seq<Point>, config: Config, e: KMeansError) -> bool {
    let counts_fit = config.k >= 1 && config.initial_centroids@.len() == config.k;
    let size_fits = counts_fit && 1 <= points.len() <= MAX_POINTS;
    let data_fits = size_fits && dataset_ok(points);
    let centroids_fit = data_fits && all_wf(config.initial_centroids@);
    match e {
        KMeansError::NoClusters => config.k == 0,
        KMeansError::CentroidCountMismatch => config.k >= 1 && config.initial_centroids@.len()
            != config.k,
        KMeansError::EmptyDataset => counts_fit && points.len() == 0,
        KMeansError::TooManyPoints => counts_fit && points.len() > MAX_POINTS,
        KMeansError::PointOutOfRange(i) => size_fits && first_point_out_of_range(points, i as int),
        KMeansError::InvalidCentroid(i) => data_fits && first_invalid_centroid(
            config.initial_centroids@,
            i as int,
        ),
        KMeansError::InvalidThreshold => centroids_fit && !config.threshold.wf(),
        KMeansError::NoIterationsAllowed => centroids_fit && config.threshold.wf()
            && config.max_iterations == 0,
    }
}

/// `fit` is what a run on `points` under `config` yields: the state after
/// the first pass that left every centroid within the threshold, or after
/// the last pass allowed if there was none.
pub open spec fn produced(points: Seq<Point>, config: Config, fit: Fit) -> bool {
    let start = config.initial_centroids@;
    let n = fit.iterations as nat;
    &&& 1 <= fit.iterations <= config.max_iterations
    &&& fit.clusters@.len() == config.k
    &&& centroids_of(fit.clusters@) == trajectory(points, start, n)
    &&& forall|k: int|
        0 <= k < fit.clusters@.len() ==> (#[trigger] fit.clusters@[k]).members@ == members_of(
            labels(points, trajectory(points, start, (n - 1) as nat)),
            k,
        )
    &&& is_partition(points.len(), fit.clusters@)
    &&& fit.converged == rests_at(points, start, config.threshold, n)
    &&& forall|m: nat| 1 <= m < n ==> !#[trigger] rests_at(points, start, config.threshold, m)
    &&& !fit.converged ==> fit.iterations == config.max_iterations
}

/// The update pass: moves every centroid to the mean of its points, leaves
/// the centroid of a cluster without points where it is, and tells whether
/// every centroid moved less than `limit`. Member lists are left as they are.
pub fn update_centroids(points: &Vec<Point>, clusters: &mut Vec<Cluster>, limit: &Threshold) -> (at_rest:
    bool)
    requires
        dataset_ok(points@),
        limit.wf(),
        forall|k: int| 0 <= k < old(clusters)@.len() ==> (#[trigger] old(clusters)@[k]).wf(points@),
    ensures
        final(clusters)@.len() == old(clusters)@.len(),
        forall|k: int|
            0 <= k < final(clusters)@.len() ==> {
                &&& (#[trigger] final(clusters)@[k]).members@ == old(clusters)@[k].members@
                &&& final(clusters)@[k].centroid == next_centroid(
                    points@,
                    old(clusters)@[k].members@,
                    old(clusters)@[k].centroid,
                )
                &&& final(clusters)@[k].wf(points@)
            },
        at_rest == settled(centroids_of(old(clusters)@), centroids_of(final(clusters)@), *limit),
{
    let ghost start = clusters@;
    let count: usize = clusters.len();
    let mut at_rest: bool = true;
    let mut c: usize = 0;
    while c < count
        invariant
            c <= count,
            count == clusters@.len(),
            count == start.len(),
            dataset_ok(points@),
            limit.wf(),
            forall|k: int| 0 <= k < count ==> (#[trigger] start[k]).wf(points@),
            forall|k: int| c <= k < count ==> #[trigger] clusters@[k] == start[k],
            forall|k: int|
                0 <= k < c ==> {
                    &&& (#[trigger] clusters@[k]).members@ == start[k].members@
                    &&& clusters@[k].centroid == next_centroid(
                        points@,
                        start[k].members@,
                        start[k].centroid,
                    )
                    &&& clusters@[k].wf(points@)
                },
            at_rest == (forall|k: int|
                0 <= k < c ==> moved2((#[trigger] start[k]).centroid, clusters@[k].centroid)
                    < square(limit.value())),
        decreases count - c,
    {
        let ghost before = clusters@;
        let ghost was_at_rest = at_rest;
        proof {
            assert(start[c as int].wf(points@));
        }
        let prev_mean: Centroid = clusters[c].centroid;
        let new_mean: Centroid = match clusters[c].mean(points) {
            Some(m) => m,
            None => prev_mean,
        };
        if !prev_mean.moved_less_than(&new_mean, limit) {
            at_rest = false;
        }
        clusters[c].centroid = new_mean;
        proof {
            assert(clusters@[c as int].members@ == start[c as int].members@);
            assert forall|k: int| c < k < count implies #[trigger] clusters@[k] == start[k] by {
                assert(before[k] == start[k]);
            }
            assert forall|k: int| 0 <= k < c + 1 implies {
                &&& (#[trigger] clusters@[k]).members@ == start[k].members@
                &&& clusters@[k].centroid == next_centroid(
                    points@,
                    start[k].members@,
                    start[k].centroid,
                )
                &&& clusters@[k].wf(points@)
            } by {
                if k < c {
                    assert(clusters@[k] == before[k]);
                }
            }
            let now = clusters@;
            let here = moved2(start[c as int].centroid, now[c as int].centroid) < square(
                limit.value(),
            );
            assert(at_rest == (was_at_rest && here));
            assert((forall|k: int|
                0 <= k < c + 1 ==> moved2((#[trigger] start[k]).centroid, now[k].centroid) < square(
                    limit.value(),
                )) == (was_at_rest && here)) by {
                if was_at_rest && here {
                    assert forall|k: int| 0 <= k < c + 1 implies moved2(
                        (#[trigger] start[k]).centroid,
                        now[k].centroid,
                    ) < square(limit.value()) by {
                        if k < c {
                            assert(now[k] == before[k]);
                        }
                    }
                } else if !was_at_rest {
                    let k = choose|k: int|
                        0 <= k < c && !(moved2((#[trigger] start[k]).centroid, before[k].centroid)
                            < square(limit.value()));
                    assert(now[k] == before[k]);
                }
            }
        }
        c = c + 1;
    }
    proof {
        let a = centroids_of(start);
        let b = centroids_of(clusters@);
        if at_rest {
            assert forall|k: int| 0 <= k < a.len() implies moved2(#[trigger] a[k], b[k]) < square(
                limit.value(),
            ) by {
                assert(moved2(start[k].centroid, clusters@[k].centroid) < square(limit.value()));
            }
        } else {
            let k = choose|k: int|
                0 <= k < count && !(moved2((#[trigger] start[k]).centroid, clusters@[k].centroid)
                    < square(limit.value()));
            assert(!(moved2(a[k], b[k]) < square(limit.value())));
        }
    }
    at_rest
}

/// The index of the first point that is out of range, if there is one.
pub fn find_point_out_of_range(points: &Vec<Point>) -> (r: Option<usize>)
    ensures
        match r {
            Some(i) => first_point_out_of_range(points@, i as int),
            None => forall|j: int| 0 <= j < points@.len() ==> (#[trigger] points@[j]).in_range(),
        },
{
    let mut i: usize = 0;
    while i < points.len()
        invariant
            i <= points@.len(),
            forall|j: int| 0 <= j < i ==> (#[trigger] points@[j]).in_range(),
        decreases points@.len() - i,
    {
        if !points[i].is_in_range() {
            return Some(i);
        }
        i = i + 1;
    }
    None
}

/// The index of the first centroid that is not well formed, if there is one.
pub fn find_invalid_centroid(centroids: &Vec<Centroid>) -> (r: Option<usize>)
    ensures
        match r {
            Some(i) => first_invalid_centroid(centroids@, i as int),
            None => all_wf(centroids@),
        },
{
    let mut i: usize = 0;
    while i < centroids.len()
        invariant
            i <= centroids@.len(),
            forall|j: int| 0 <= j < i ==> (#[trigger] centroids@[j]).wf(),
        decreases centroids@.len() - i,
    {
        if !centroids[i].is_valid() {
            return Some(i);
        }
        i = i + 1;
    }
    None
}

/// Checks the dataset and the configuration, and names the first thing
/// that is wrong with them.
pub fn validate(points: &Vec<Point>, config: &Config) -> (r: Result<(), KMeansError>)
    ensures
        r.is_ok() <==> acceptable(points@, *config),
        r matches Err(e) ==> owed(points@, *config, e),
{
    if config.k == 0 {
        return Err(KMeansError::NoClusters);
    }
    if config.initial_centroids.len() != config.k {
        return Err(KMeansError::CentroidCountMismatch);
    }
    if points.len() == 0 {
        return Err(KMeansError::EmptyDataset);
    }
    if points.len() > MAX_POINTS {
        return Err(KMeansError::TooManyPoints);
    }
    if let Some(i) = find_point_out_of_range(points) {
        return Err(KMeansError::PointOutOfRange(i));
    }
    if let Some(i) = find_invalid_centroid(&config.initial_centroids) {
        return Err(KMeansError::InvalidCentroid(i));
    }
    if !config.threshold.is_valid() {
        return Err(KMeansError::InvalidThreshold);
    }
    if config.max_iterations == 0 {
        return Err(KMeansError::NoIterationsAllowed);
    }
    Ok(())
}

/// Lloyd's algorithm on `points`, from the centroids of `config`. Each
/// pass assigns every point to its nearest centroid and then moves every
/// centroid to the mean of its points. The run ends after the first pass in
/// which every centroid moved less than the threshold, or after
/// `max_iterations` passes. A dataset or configuration that cannot be run
/// is refused before the first pass.
pub fn k_means(points: &Vec<Point>, config: &Config) -> (r: Result<Fit, KMeansError>)
    ensures
        r.is_ok() <==> acceptable(points@, *config),
        match r {
            Ok(fit) => produced(points@, *config, fit),
            Err(e) => owed(points@, *config, e),
        },
{
    match validate(points, config) {
        Err(e) => {
            return Err(e);
        },
        Ok(()) => {},
    }
    let ghost start = config.initial_centroids@;
    let limit: Threshold = config.threshold;
    let mut clusters: Vec<Cluster> = Vec::new();
    let mut c: usize = 0;
    while c < config.k
        invariant
            c <= config.k,
            config.k == config.initial_centroids@.len(),
            clusters@.len() == c,
            forall|k: int|
                0 <= k < c ==> (#[trigger] clusters@[k]).centroid == config.initial_centroids@[k],
        decreases config.k - c,
    {
        clusters.push(Cluster::new(config.initial_centroids[c]));
        c = c + 1;
    }
    assert(centroids_of(clusters@) =~= start);
    let mut iterations: usize = 0;
    let mut converged: bool = false;
    while !converged && iterations < config.max_iterations
        invariant
            start == config.initial_centroids@,
            limit == config.threshold,
            limit.wf(),
            dataset_ok(points@),
            config.k >= 1,
            clusters@.len() == config.k,
            start.len() == config.k,
            iterations <= config.max_iterations,
            all_wf(centroids_of(clusters@)),
            centroids_of(clusters@) == trajectory(points@, start, iterations as nat),
            iterations == 0 ==> !converged,
            iterations >= 1 ==> {
                &&& forall|k: int|
                    0 <= k < clusters@.len() ==> (#[trigger] clusters@[k]).members@ == members_of(
                        labels(points@, trajectory(points@, start, (iterations - 1) as nat)),
                        k,
                    )
                &&& is_partition(points@.len(), clusters@)
                &&& converged == rests_at(points@, start, limit, iterations as nat)
            },
            forall|m: nat|
                1 <= m < iterations ==> !#[trigger] rests_at(points@, start, limit, m),
        decreases config.max_iterations - iterations,
    {
        let ghost cs = centroids_of(clusters@);
        let ghost ls = labels(points@, cs);
        assign_points(points, &mut clusters);
        let ghost assigned = clusters@;
        proof {
            assert forall|k: int| 0 <= k < assigned.len() implies (#[trigger] assigned[k]).wf(
                points@,
            ) by {
                lemma_members_upto(ls, k, ls.len() as int);
                assert(centroids_of(assigned)[k] == assigned[k].centroid);
                assert(cs[k].wf());
            }
        }
        converged = update_centroids(points, &mut clusters, &limit);
        proof {
            let after = centroids_of(clusters@);
            assert(after =~= step(points@, cs)) by {
                assert forall|k: int| 0 <= k < after.len() implies after[k] == step(
                    points@,
                    cs,
                )[k] by {
                    assert(clusters@[k].centroid == next_centroid(
                        points@,
                        assigned[k].members@,
                        assigned[k].centroid,
                    ));
                    assert(centroids_of(assigned)[k] == assigned[k].centroid);
                }
            }
            assert(all_wf(after)) by {
                assert forall|k: int| 0 <= k < after.len() implies (#[trigger] after[k]).wf() by {
                    assert(clusters@[k].wf(points@));
                }
            }
            assert(centroids_of(assigned) == cs);
            assert(is_partition(points@.len(), clusters@)) by {
                assert forall|k: int| 0 <= k < clusters@.len() implies (
                #[trigger] clusters@[k]).members@ == assigned[k].members@ by {}
                lemma_same_lists_partition(points@.len(), assigned, clusters@);
            }
        }
        iterations = iterations + 1;
    }
    Ok(Fit { clusters, iterations, converged })
}

/// Cluster sets with the same member lists split the same indices.
proof fn lemma_same_lists_partition(n: nat, a: Seq<Cluster>, b: Seq<Cluster>)
    requires
        is_partition(n, a),
        a.len() == b.len(),
        forall|k: int| 0 <= k < a.len() ==> (#[trigger] b[k]).members@ == a[k].members@,
    ensures
        is_partition(n, b),
{
    assert forall|k: int, j: int|
        0 <= k < b.len() && 0 <= j < b[k].members@.len() implies (#[trigger] b[k].members@[j])
        < n by {
        assert(a[k].members@[j] < n);
    }
    assert forall|i: int| 0 <= i < n implies #[trigger] crate::assign::is_listed(b, i) by {
        assert(crate::assign::is_listed(a, i));
        let (k, j) = choose|k: int, j: int|
            0 <= k < a.len() && 0 <= j < a[k].members@.len() && (#[trigger] a[k].members@[j]) == i;
        assert(b[k].members@[j] == i);
    }
    assert forall|k1: int, j1: int, k2: int, j2: int|
        0 <= k1 < b.len() && 0 <= j1 < b[k1].members@.len() && 0 <= k2 < b.len() && 0 <= j2
            < b[k2].members@.len() && (#[trigger] b[k1].members@[j1]) == (
        #[trigger] b[k2].members@[j2]) implies k1 == k2 && j1 == j2 by {
        assert(a[k1].members@[j1] == a[k2].members@[j2]);
    }
}

} // verus!
