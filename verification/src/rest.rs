//! Centroids that a pass leaves in place: such a state ends a run at once,
//! and one more pass from it changes nothing.

use vstd::prelude::*;
use crate::assign::{
    is_nearest, labels, lemma_nearest_exists, lemma_nearest_unique, members_of, nearest,
};
use crate::descent::lemma_trajectory_len;
use crate::engine::{
    acceptable, next_centroid, produced, rests_at, settled, step, trajectory, Config, Fit,
};
use crate::geometry::{dist2, moved2, square, Centroid, Point, Threshold};

verus! {

/// Every centroid is where a pass from `cs` would put it.
pub open spec fn at_rest(points: Seq<Point>, cs: Seq<Centroid>) -> bool {
    forall|k: int| 0 <= k < cs.len() ==> (#[trigger] step(points, cs)[k]).same_place(cs[k])
}

/// Centroids at the same places give every point the same label.
pub proof fn lemma_same_places_same_labels(points: Seq<Point>, a: Seq<Centroid>, b: Seq<Centroid>)
    requires
        a.len() == b.len(),
        a.len() >= 1,
        forall|k: int| 0 <= k < a.len() ==> (#[trigger] a[k]).same_place(b[k]),
    ensures
        labels(points, a) == labels(points, b),
{
    assert forall|i: int| 0 <= i < points.len() implies nearest(points[i], a) == nearest(
        points[i],
        b,
    ) by {
        let p = points[i];
        lemma_nearest_exists(p, a);
        lemma_nearest_exists(p, b);
        let r = nearest(p, a);
        assert forall|j: int| 0 <= j < b.len() implies dist2(p, #[trigger] b[j]) == dist2(
            p,
            a[j],
        ) by {
            assert(a[j].same_place(b[j]));
        }
        assert(is_nearest(p, b, r)) by {
            assert forall|j: int| 0 <= j < b.len() implies dist2(p, b[r]) <= dist2(
                p,
                #[trigger] b[j],
            ) by {
                assert(dist2(p, a[r]) <= dist2(p, a[j]));
            }
            assert forall|j: int| 0 <= j < r implies dist2(p, b[r]) < dist2(p, #[trigger] b[j]) by {
                assert(dist2(p, a[r]) < dist2(p, a[j]));
            }
        }
        lemma_nearest_unique(p, b, r, nearest(p, b));
    }
    assert(labels(points, a) =~= labels(points, b));
}

/// Where the next pass would give every point the same cluster as the last
/// one did, it moves no centroid.
pub proof fn lemma_same_labels_no_move(points: Seq<Point>, cs: Seq<Centroid>)
    requires
        labels(points, step(points, cs)) == labels(points, cs),
    ensures
        step(points, step(points, cs)) == step(points, cs),
        at_rest(points, step(points, cs)),
{
    let next = step(points, cs);
    let ls = labels(points, cs);
    assert forall|k: int| 0 <= k < next.len() implies step(points, next)[k] == next[k] by {
        let m = members_of(ls, k);
        assert(next[k] == next_centroid(points, m, cs[k]));
        assert(step(points, next)[k] == next_centroid(points, m, next[k]));
    }
    assert(step(points, next) =~= next);
}

/// Rest persists: where a pass leaves every centroid in place, so does
/// the pass after it.
pub proof fn lemma_rest_persists(points: Seq<Point>, cs: Seq<Centroid>)
    requires
        cs.len() >= 1,
        at_rest(points, cs),
    ensures
        at_rest(points, step(points, cs)),
{
    lemma_same_places_same_labels(points, step(points, cs), cs);
    lemma_same_labels_no_move(points, cs);
}

/// Centroids that did not move are within every positive threshold.
pub proof fn lemma_rest_is_settled(points: Seq<Point>, cs: Seq<Centroid>, limit: Threshold)
    requires
        at_rest(points, cs),
        limit.wf(),
        limit.num > 0,
    ensures
        settled(cs, step(points, cs), limit),
{
    let bound = square(limit.value());
    let v = limit.value();
    let nr = limit.num as real;
    let dr = limit.den as real;
    assert(v > 0 as real) by (nonlinear_arith)
        requires
            v == nr / dr,
            nr > 0 as real,
            dr > 0 as real,
    ;
    assert(bound > 0 as real) by (nonlinear_arith)
        requires
            bound == v * v,
            v > 0 as real,
    ;
    assert forall|k: int| 0 <= k < cs.len() implies moved2(#[trigger] cs[k], step(points, cs)[k])
        < bound by {
        let a = cs[k];
        let b = step(points, cs)[k];
        assert(b.same_place(a));
        let gx = b.px() - a.px();
        let gy = b.py() - a.py();
        assert(gx * gx + gy * gy == 0 as real) by (nonlinear_arith)
            requires
                gx == 0 as real,
                gy == 0 as real,
        ;
    }
}

/// A run that starts at rest ends after one pass. Where every initial
/// centroid is already the mean of the points nearest to it, or has no
/// nearest points, and the threshold is positive, the run makes exactly one
/// pass and reports convergence.
pub proof fn lemma_run_from_rest(points: Seq<Point>, config: Config, fit: Fit)
    requires
        acceptable(points, config),
        produced(points, config, fit),
        at_rest(points, config.initial_centroids@),
        config.threshold.num > 0,
    ensures
        fit.iterations == 1,
        fit.converged,
{
    let start = config.initial_centroids@;
    lemma_rest_is_settled(points, start, config.threshold);
    assert(trajectory(points, start, 0) == start);
    assert(trajectory(points, start, 1) == step(points, trajectory(points, start, 0)));
    assert(rests_at(points, start, config.threshold, 1));
}

/// One more pass after rest stays within the threshold. Where pass `n` of a
/// run starts from centroids at rest, that pass and the pass after it leave
/// every centroid within any positive threshold.
pub proof fn lemma_pass_after_rest(
    points: Seq<Point>,
    start: Seq<Centroid>,
    limit: Threshold,
    n: nat,
)
    requires
        start.len() >= 1,
        n >= 1,
        at_rest(points, trajectory(points, start, (n - 1) as nat)),
        limit.wf(),
        limit.num > 0,
    ensures
        rests_at(points, start, limit, n),
        rests_at(points, start, limit, n + 1),
{
    let before = trajectory(points, start, (n - 1) as nat);
    lemma_trajectory_len(points, start, (n - 1) as nat);
    lemma_rest_is_settled(points, before, limit);
    lemma_rest_persists(points, before);
    assert(trajectory(points, start, n) == step(points, before));
    assert(trajectory(points, start, n + 1) == step(points, trajectory(points, start, n)));
    lemma_rest_is_settled(points, step(points, before), limit);
}

/// One more pass after the assignment has stopped changing stays within
/// the threshold. Where pass `n + 1` of a run gives every point the same
/// cluster as pass `n` did, pass `n + 1` moves no centroid, and so leaves
/// every centroid within any positive threshold.
pub proof fn lemma_pass_after_same_labels(
    points: Seq<Point>,
    start: Seq<Centroid>,
    limit: Threshold,
    n: nat,
)
    requires
        n >= 1,
        labels(points, trajectory(points, start, n)) == labels(
            points,
            trajectory(points, start, (n - 1) as nat),
        ),
        limit.wf(),
        limit.num > 0,
    ensures
        trajectory(points, start, n + 1) == trajectory(points, start, n),
        rests_at(points, start, limit, n + 1),
{
    let before = trajectory(points, start, (n - 1) as nat);
    assert(trajectory(points, start, n) == step(points, before));
    assert(trajectory(points, start, n + 1) == step(points, trajectory(points, start, n)));
    lemma_same_labels_no_move(points, before);
    lemma_rest_is_settled(points, step(points, before), limit);
}

} // verus!
