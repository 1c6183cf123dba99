//! Non-negative fractions and their exact comparison.

use vstd::prelude::*;

verus! {

/// The fraction `num / den`. It is well formed when `den` is positive.
#[derive(Clone, Copy, Debug, PartialEq, Eq, Structural)]
pub struct Ratio {
    pub num: u128,
    pub den: u128,
}

/// The real number `n / d`.
pub open spec fn quotient(n: int, d: int) -> real {
    n as real / d as real
}

/// Fractions over positive denominators compare as their cross products do.
pub proof fn lemma_quotient_lt(a: int, b: int, c: int, d: int)
    requires
        b > 0,
        d > 0,
    ensures
        quotient(a, b) < quotient(c, d) <==> a * d < c * b,
{
    assert(quotient(a, b) < quotient(c, d) <==> a * d < c * b) by (nonlinear_arith)
        requires
            b > 0,
            d > 0,
    ;
}

/// Fractions over one denominator add by their numerators.
pub proof fn lemma_quotient_sum(a: int, b: int, d: int)
    requires
        d > 0,
    ensures
        quotient(a, d) + quotient(b, d) == quotient(a + b, d),
{
    assert(quotient(a, d) + quotient(b, d) == quotient(a + b, d)) by (nonlinear_arith)
        requires
            d > 0,
    ;
}

/// Comparing `a / b` with `c / d` through whole parts `qa`, `qc` and
/// remainders `ra`, `rc`: the whole parts decide where they differ, and the
/// cross products of the remainders where they do not. Those cross products
/// stay below the product of the denominators.
proof fn lemma_compare_by_parts(a: int, b: int, c: int, d: int, qa: int, ra: int, qc: int, rc: int)
    requires
        b > 0,
        d > 0,
        a == qa * b + ra,
        0 <= ra < b,
        c == qc * d + rc,
        0 <= rc < d,
    ensures
        qa < qc ==> a * d < c * b,
        qa > qc ==> !(a * d < c * b),
        qa == qc ==> (a * d < c * b <==> ra * d < rc * b),
        0 <= ra * d < b * d,
        0 <= rc * b < b * d,
{
    assert(a * d == qa * (b * d) + ra * d) by (nonlinear_arith)
        requires
            a == qa * b + ra,
    ;
    assert(c * b == qc * (b * d) + rc * b) by (nonlinear_arith)
        requires
            c == qc * d + rc,
    ;
    assert(0 <= ra * d < b * d) by (nonlinear_arith)
        requires
            0 <= ra < b,
            d > 0,
    ;
    assert(0 <= rc * b < b * d) by (nonlinear_arith)
        requires
            0 <= rc < d,
            b > 0,
    ;
    if qa < qc {
        assert(qa * (b * d) + b * d <= qc * (b * d)) by (nonlinear_arith)
            requires
                qa < qc,
                b * d > 0,
        ;
    }
    if qa > qc {
        assert(qc * (b * d) + b * d <= qa * (b * d)) by (nonlinear_arith)
            requires
                qa > qc,
                b * d > 0,
        ;
    }
}

impl Ratio {
    /// The denominator is positive.
    pub open spec fn wf(self) -> bool {
        self.den > 0
    }

    /// The real number that the fraction stands for.
    pub open spec fn value(self) -> real {
        quotient(self.num as int, self.den as int)
    }

    /// Whether `self` is strictly smaller than `other`, decided without
    /// rounding. The product of the two denominators must fit in 128 bits;
    /// the numerators are free.
    pub fn less_than(&self, other: &Ratio) -> (r: bool)
        requires
            self.wf(),
            other.wf(),
            self.den * other.den <= u128::MAX,
        ensures
            r == (self.value() < other.value()),
    {
        let qa: u128 = self.num / self.den;
        let qc: u128 = other.num / other.den;
        let ra: u128 = self.num % self.den;
        let rc: u128 = other.num % other.den;
        proof {
            let a = self.num as int;
            let b = self.den as int;
            let c = other.num as int;
            let d = other.den as int;
            lemma_quotient_lt(a, b, c, d);
            vstd::arithmetic::div_mod::lemma_fundamental_div_mod(a, b);
            vstd::arithmetic::div_mod::lemma_fundamental_div_mod(c, d);
            assert(a == (a / b) * b + a % b) by (nonlinear_arith)
                requires
                    a == b * (a / b) + a % b,
            ;
            assert(c == (c / d) * d + c % d) by (nonlinear_arith)
                requires
                    c == d * (c / d) + c % d,
            ;
            lemma_compare_by_parts(a, b, c, d, qa as int, ra as int, qc as int, rc as int);
        }
        if qa != qc {
            qa < qc
        } else {
            ra * other.den < rc * self.den
        }
    }
}

} // verus!
