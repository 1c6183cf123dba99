//! The squared error of a list of points about a place, written out in the
//! list's sums, and why the mean is the place where it is least.

use vstd::prelude::*;
use crate::cluster::{
    dataset_ok, lemma_mean_wf, mean_of, members_within, sse_of, sum_x, sum_y, MAX_POINTS,
};
use crate::geometry::{dist2, Centroid, Point};

verus! {

/// For `n` numbers that sum to `s`, the sum of their squared distances to
/// `c`, less the sum of their squares: `n * c * c - 2 * c * s`.
#[verifier::opaque]
spec fn pull(s: real, n: real, c: real) -> real {
    n * (c * c) - (2 as real) * (c * s)
}

/// The squared distance from `(x, y)` to `(cx, cy)`.
#[verifier::opaque]
spec fn gap2(x: real, y: real, cx: real, cy: real) -> real {
    (x - cx) * (x - cx) + (y - cy) * (y - cy)
}

/// The squared norm of `(x, y)`.
#[verifier::opaque]
spec fn norm2(x: real, y: real) -> real {
    x * x + y * y
}

/// Sum of the squared norms of the listed points.
spec fn sum_norm2(points: Seq<Point>, members: Seq<usize>) -> real
    decreases members.len(),
{
    if members.len() == 0 {
        0 as real
    } else {
        let p = points[members.last() as int];
        sum_norm2(points, members.drop_last()) + norm2(p.x as real, p.y as real)
    }
}

proof fn lemma_pull_of_nothing(c: real)
    ensures
        pull(0 as real, 0 as real, c) == 0 as real,
{
    reveal(pull);
    let z = 0 as real;
    let c2 = c * c;
    let cz = c * z;
    assert(z * c2 == z) by (nonlinear_arith)
        requires
            z == 0 as real,
    ;
    assert(cz == z) by (nonlinear_arith)
        requires
            cz == c * z,
            z == 0 as real,
    ;
}

/// One more number `x` adds `(x - c) * (x - c) - x * x`.
proof fn lemma_pull_grows(s: real, n: real, c: real, x: real)
    ensures
        pull(s + x, n + (1 as real), c) + x * x == pull(s, n, c) + (x - c) * (x - c),
{
    reveal(pull);
    let one = 1 as real;
    let c2 = c * c;
    assert((n + one) * c2 == n * c2 + c2) by (nonlinear_arith)
        requires
            one == 1 as real,
    ;
    assert(c * (s + x) == c * s + c * x) by (nonlinear_arith);
    assert((x - c) * (x - c) == x * x - (c * x + c * x) + c2) by (nonlinear_arith)
        requires
            c2 == c * c,
    ;
}

/// For numbers whose mean is `m`, no `c` pulls less than `m` does.
proof fn lemma_pull_least_at_mean(n: real, c: real, m: real)
    requires
        n > 0 as real,
    ensures
        pull(m * n, n, m) <= pull(m * n, n, c),
{
    reveal(pull);
    let s = m * n;
    let c2 = c * c;
    let m2 = m * m;
    let cm = c * m;
    let g = (c - m) * (c - m);
    assert(g == c2 - (cm + cm) + m2) by (nonlinear_arith)
        requires
            g == (c - m) * (c - m),
            c2 == c * c,
            m2 == m * m,
            cm == c * m,
    ;
    assert(g >= 0 as real) by (nonlinear_arith)
        requires
            g == (c - m) * (c - m),
    ;
    assert(n * g >= 0 as real) by (nonlinear_arith)
        requires
            n > 0 as real,
            g >= 0 as real,
    ;
    assert(n * g == n * c2 - (n * cm + n * cm) + n * m2) by (nonlinear_arith)
        requires
            g == c2 - (cm + cm) + m2,
    ;
    assert(c * s == n * cm) by (nonlinear_arith)
        requires
            s == m * n,
            cm == c * m,
    ;
    assert(m * s == n * m2) by (nonlinear_arith)
        requires
            s == m * n,
            m2 == m * m,
    ;
}

/// The squared error of a list about `c`, written out in the list's sums.
proof fn lemma_sse_by_sums(points: Seq<Point>, members: Seq<usize>, c: Centroid)
    ensures
        sse_of(points, members, c) == sum_norm2(points, members) + pull(
            sum_x(points, members) as real,
            members.len() as real,
            c.px(),
        ) + pull(sum_y(points, members) as real, members.len() as real, c.py()),
    decreases members.len(),
{
    if members.len() == 0 {
        lemma_pull_of_nothing(c.px());
        lemma_pull_of_nothing(c.py());
    } else {
        let rest = members.drop_last();
        let p = points[members.last() as int];
        let n = rest.len() as real;
        lemma_sse_by_sums(points, rest, c);
        lemma_pull_grows(sum_x(points, rest) as real, n, c.px(), p.x as real);
        lemma_pull_grows(sum_y(points, rest) as real, n, c.py(), p.y as real);
        assert(dist2(p, c) == gap2(p.x as real, p.y as real, c.px(), c.py())) by {
            reveal(gap2);
        }
        assert(norm2(p.x as real, p.y as real) == (p.x as real) * (p.x as real) + (p.y as real) * (
        p.y as real)) by {
            reveal(norm2);
        }
        assert(gap2(p.x as real, p.y as real, c.px(), c.py()) == (p.x as real - c.px()) * (
        p.x as real - c.px()) + (p.y as real - c.py()) * (p.y as real - c.py())) by {
            reveal(gap2);
        }
    }
}

/// No place gives a list of points a smaller squared error than their mean.
pub proof fn lemma_mean_minimizes(points: Seq<Point>, members: Seq<usize>, c: Centroid)
    requires
        dataset_ok(points),
        members_within(members, points.len()),
        0 < members.len() <= MAX_POINTS,
    ensures
        sse_of(points, members, mean_of(points, members)) <= sse_of(points, members, c),
{
    let m = mean_of(points, members);
    lemma_mean_wf(points, members);
    lemma_sse_by_sums(points, members, c);
    lemma_sse_by_sums(points, members, m);
    let n = members.len() as int;
    let nr = n as real;
    let sxr = sum_x(points, members) as real;
    let syr = sum_y(points, members) as real;
    let mx = m.px();
    let my = m.py();
    assert(mx == sxr / nr && my == syr / nr);
    assert(mx * nr == sxr) by (nonlinear_arith)
        requires
            mx == sxr / nr,
            nr > 0 as real,
    ;
    assert(my * nr == syr) by (nonlinear_arith)
        requires
            my == syr / nr,
            nr > 0 as real,
    ;
    lemma_pull_least_at_mean(nr, c.px(), mx);
    lemma_pull_least_at_mean(nr, c.py(), my);
}

} // verus!
