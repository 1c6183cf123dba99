//! Grid points, fractional centroids and the distances between them.
//!
//! Coordinates and denominators are limited to twenty bits each. With that
//! every sum and product taken while clustering fits in 128 bits, for any
//! dataset of up to `MAX_POINTS` points.

use vstd::prelude::*;
use crate::ratio::{lemma_quotient_sum, quotient, Ratio};

verus! {

/// Largest magnitude of a point's coordinate.
pub const MAX_COORD: i64 = 1_048_576;

/// Largest denominator of a centroid or of a threshold.
pub const MAX_SCALE: u64 = 1_048_576;

/// A point of the dataset, on the integer grid.
#[derive(Clone, Copy, Debug, PartialEq, Eq, Structural)]
pub struct Point {
    pub x: i64,
    pub y: i64,
}

/// The position `(x / scale, y / scale)`.
#[derive(Clone, Copy, Debug, PartialEq, Eq, Structural)]
pub struct Centroid {
    pub x: i64,
    pub y: i64,
    pub scale: u64,
}

/// The distance `num / den` under which a centroid counts as at rest.
#[derive(Clone, Copy, Debug, PartialEq, Eq, Structural)]
pub struct Threshold {
    pub num: u32,
    pub den: u32,
}

/// The square of a real number.
pub open spec fn square(v: real) -> real {
    v * v
}

/// Squared Euclidean distance from `p` to the position of `c`.
pub open spec fn dist2(p: Point, c: Centroid) -> real {
    square(p.x as real - c.px()) + square(p.y as real - c.py())
}

/// Squared Euclidean distance between the positions of two centroids.
pub open spec fn moved2(a: Centroid, b: Centroid) -> real {
    square(b.px() - a.px()) + square(b.py() - a.py())
}

/// The squared gap between a whole number and a fraction, as one fraction.
proof fn lemma_scaled_square(p: int, x: int, s: int)
    requires
        s > 0,
    ensures
        square(p as real - quotient(x, s)) == quotient((s * p - x) * (s * p - x), s * s),
{
    assert(square(p as real - quotient(x, s)) == quotient((s * p - x) * (s * p - x), s * s))
        by (nonlinear_arith)
        requires
            s > 0,
    ;
}

/// The squared gap between two fractions, as one fraction.
proof fn lemma_scaled_gap(a: int, s: int, b: int, t: int)
    requires
        s > 0,
        t > 0,
    ensures
        square(quotient(b, t) - quotient(a, s)) == quotient(
            (b * s - a * t) * (b * s - a * t),
            (s * t) * (s * t),
        ),
{
    let g = b * s - a * t;
    let st = s * t;
    assert(st > 0) by (nonlinear_arith)
        requires
            st == s * t,
            s > 0,
            t > 0,
    ;
    assert(quotient(b, t) - quotient(a, s) == quotient(g, st)) by (nonlinear_arith)
        requires
            g == b * s - a * t,
            st == s * t,
            s > 0,
            t > 0,
    ;
    assert(square(quotient(g, st)) == quotient(g * g, st * st)) by (nonlinear_arith)
        requires
            st > 0,
    ;
}

/// A number within `m` of zero has a square of at most `m * m`.
proof fn lemma_square_bound(v: int, m: int)
    requires
        -m <= v <= m,
    ensures
        0 <= v * v <= m * m,
{
    assert(0 <= v * v <= m * m) by (nonlinear_arith)
        requires
            -m <= v <= m,
    ;
}

/// A number within `m` of zero, times one from zero to `n`, is within
/// `m * n` of zero.
proof fn lemma_product_bound(a: int, b: int, m: int, n: int)
    requires
        -m <= a <= m,
        0 <= b <= n,
    ensures
        -(m * n) <= a * b <= m * n,
{
    assert(-(m * n) <= a * b <= m * n) by (nonlinear_arith)
        requires
            -m <= a <= m,
            0 <= b <= n,
    ;
}

impl Point {
    /// Both coordinates lie within `MAX_COORD` of zero.
    pub open spec fn in_range(self) -> bool {
        &&& -MAX_COORD <= self.x <= MAX_COORD
        &&& -MAX_COORD <= self.y <= MAX_COORD
    }

    /// The point `(x, y)`.
    pub fn new(x: i64, y: i64) -> (p: Point)
        ensures
            p.x == x,
            p.y == y,
    {
        Point { x, y }
    }

    /// Whether both coordinates lie within `MAX_COORD` of zero.
    pub fn is_in_range(&self) -> (b: bool)
        ensures
            b == self.in_range(),
    {
        -MAX_COORD <= self.x && self.x <= MAX_COORD && -MAX_COORD <= self.y && self.y <= MAX_COORD
    }
}

impl Threshold {
    /// The denominator is positive and at most `MAX_SCALE`.
    pub open spec fn wf(self) -> bool {
        1 <= self.den <= MAX_SCALE
    }

    /// The threshold as a real number.
    pub open spec fn value(self) -> real {
        quotient(self.num as int, self.den as int)
    }

    /// Whether the threshold is well formed.
    pub fn is_valid(&self) -> (b: bool)
        ensures
            b == self.wf(),
    {
        1 <= self.den && self.den as u64 <= MAX_SCALE
    }
}

impl Centroid {
    /// The denominator is positive and the position lies in the square that
    /// holds every point in range.
    pub open spec fn wf(self) -> bool {
        &&& 1 <= self.scale <= MAX_SCALE
        &&& -MAX_COORD * self.scale <= self.x <= MAX_COORD * self.scale
        &&& -MAX_COORD * self.scale <= self.y <= MAX_COORD * self.scale
    }

    /// Horizontal position.
    pub open spec fn px(self) -> real {
        quotient(self.x as int, self.scale as int)
    }

    /// Vertical position.
    pub open spec fn py(self) -> real {
        quotient(self.y as int, self.scale as int)
    }

    /// Two centroids stand at the same place, whatever their denominators.
    pub open spec fn same_place(self, other: Centroid) -> bool {
        self.px() == other.px() && self.py() == other.py()
    }

    /// Whether the centroid is well formed.
    pub fn is_valid(&self) -> (b: bool)
        ensures
            b == self.wf(),
    {
        if self.scale < 1 || self.scale > MAX_SCALE {
            return false;
        }
        let bound: i64 = MAX_COORD * (self.scale as i64);
        -bound <= self.x && self.x <= bound && -bound <= self.y && self.y <= bound
    }

    /// The centroid at `(x / scale, y / scale)`, where that is well formed.
    pub fn new(x: i64, y: i64, scale: u64) -> (c: Option<Centroid>)
        ensures
            c.is_some() == (Centroid { x, y, scale }).wf(),
            c.is_some() ==> c.unwrap() == (Centroid { x, y, scale }),
    {
        let c = Centroid { x, y, scale };
        if c.is_valid() {
            Some(c)
        } else {
            None
        }
    }

    /// Squared distance from this centroid to `p`, as a fraction over the
    /// square of the centroid's denominator.
    pub fn dist2_to(&self, p: &Point) -> (r: Ratio)
        requires
            self.wf(),
            p.in_range(),
        ensures
            r.wf(),
            r.den == self.scale * self.scale,
            r.num == (self.scale * p.x - self.x) * (self.scale * p.x - self.x) + (self.scale * p.y
                - self.y) * (self.scale * p.y - self.y),
            r.num <= 0x8_0000_0000_0000_0000_0000,
            r.value() == dist2(*p, *self),
    {
        let s: i128 = self.scale as i128;
        proof {
            let si = self.scale as int;
            assert(-0x100_0000_0000 <= si * p.x <= 0x100_0000_0000) by (nonlinear_arith)
                requires
                    1 <= si <= 0x10_0000,
                    -0x10_0000 <= p.x <= 0x10_0000,
            ;
            assert(-0x100_0000_0000 <= si * p.y <= 0x100_0000_0000) by (nonlinear_arith)
                requires
                    1 <= si <= 0x10_0000,
                    -0x10_0000 <= p.y <= 0x10_0000,
            ;
            assert(0x10_0000 * si <= 0x100_0000_0000) by (nonlinear_arith)
                requires
                    1 <= si <= 0x10_0000,
            ;
            assert(1 <= si * si <= 0x100_0000_0000) by (nonlinear_arith)
                requires
                    1 <= si <= 0x10_0000,
            ;
        }
        let dx: i128 = s * (p.x as i128) - (self.x as i128);
        let dy: i128 = s * (p.y as i128) - (self.y as i128);
        proof {
            lemma_square_bound(dx as int, 0x200_0000_0000);
            lemma_square_bound(dy as int, 0x200_0000_0000);
        }
        let num: u128 = (dx * dx + dy * dy) as u128;
        let den: u128 = (s * s) as u128;
        proof {
            let si = self.scale as int;
            lemma_scaled_square(p.x as int, self.x as int, si);
            lemma_scaled_square(p.y as int, self.y as int, si);
            lemma_quotient_sum(dx * dx, dy * dy, si * si);
        }
        Ratio { num, den }
    }

    /// Whether the move from `self` to `next` is shorter than `limit`.
    /// Both sides are compared as squares, which orders them as the
    /// distances themselves since neither is negative.
    pub fn moved_less_than(&self, next: &Centroid, limit: &Threshold) -> (b: bool)
        requires
            self.wf(),
            next.wf(),
            limit.wf(),
        ensures
            b == (moved2(*self, *next) < square(limit.value())),
    {
        let s: i128 = self.scale as i128;
        let t: i128 = next.scale as i128;
        proof {
            let si = self.scale as int;
            let ti = next.scale as int;
            assert(0x10_0000 * si <= 0x100_0000_0000 && 0x10_0000 * ti <= 0x100_0000_0000)
                by (nonlinear_arith)
                requires
                    1 <= si <= 0x10_0000,
                    1 <= ti <= 0x10_0000,
            ;
            lemma_product_bound(next.x as int, si, 0x100_0000_0000, 0x10_0000);
            lemma_product_bound(self.x as int, ti, 0x100_0000_0000, 0x10_0000);
            lemma_product_bound(next.y as int, si, 0x100_0000_0000, 0x10_0000);
            lemma_product_bound(self.y as int, ti, 0x100_0000_0000, 0x10_0000);
            assert(1 <= si * ti <= 0x100_0000_0000) by (nonlinear_arith)
                requires
                    1 <= si <= 0x10_0000,
                    1 <= ti <= 0x10_0000,
            ;
        }
        let gx: i128 = (next.x as i128) * s - (self.x as i128) * t;
        let gy: i128 = (next.y as i128) * s - (self.y as i128) * t;
        let st: i128 = s * t;
        proof {
            lemma_square_bound(gx as int, 0x2000_0000_0000_0000);
            lemma_square_bound(gy as int, 0x2000_0000_0000_0000);
            lemma_square_bound(st as int, 0x100_0000_0000);
            assert(st * st >= 1) by (nonlinear_arith)
                requires
                    st >= 1,
            ;
        }
        let moved = Ratio { num: (gx * gx + gy * gy) as u128, den: (st * st) as u128 };
        let n: u128 = limit.num as u128;
        let d: u128 = limit.den as u128;
        proof {
            lemma_square_bound(n as int, 0xffff_ffff);
            lemma_square_bound(d as int, 0x10_0000);
            assert(d * d >= 1) by (nonlinear_arith)
                requires
                    d >= 1,
            ;
        }
        let bound = Ratio { num: n * n, den: d * d };
        proof {
            let si = self.scale as int;
            let ti = next.scale as int;
            lemma_scaled_gap(self.x as int, si, next.x as int, ti);
            lemma_scaled_gap(self.y as int, si, next.y as int, ti);
            lemma_quotient_sum(gx * gx, gy * gy, (si * ti) * (si * ti));
            assert(moved.value() == moved2(*self, *next));
            assert(square(quotient(n as int, d as int)) == quotient(n * n, d * d))
                by (nonlinear_arith)
                requires
                    d >= 1,
            ;
            assert(bound.value() == square(limit.value()));
            assert(moved.den * bound.den <= u128::MAX) by (nonlinear_arith)
                requires
                    0 <= moved.den <= 0x100_0000_0000 * 0x100_0000_0000,
                    0 <= bound.den <= 0x10_0000 * 0x10_0000,
            ;
        }
        moved.less_than(&bound)
    }
}

} // verus!
