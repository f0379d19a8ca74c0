//! Exact non-negative rational scores.
//!
//! Scores are reported as integer numerator/denominator pairs so the
//! analyses stay exact; callers may divide them out when presenting.

use vstd::prelude::*;

verus! {

/// A non-negative rational score `num / den`; a meaningful score keeps
/// `den >= 1`, and zero is encoded as `0 / 1`.
#[derive(Clone, Copy, PartialEq, Eq, Structural, Debug)]
pub struct Ratio {
    pub num: usize,
    pub den: usize,
}

impl Ratio {
    /// A valid score never divides by zero.
    pub open spec fn wf(self) -> bool {
        self.den >= 1
    }

    /// The zero score.
    pub open spec fn zero_spec() -> Ratio {
        Ratio { num: 0, den: 1 }
    }

    /// The zero score, for isolated nodes and empty comparisons.
    pub fn zero() -> (r: Ratio)
        ensures
            r == Ratio::zero_spec(),
    {
        Ratio { num: 0, den: 1 }
    }
}

/// Whether `a` is strictly below `b`, by cross-multiplication.
pub open spec fn ratio_lt(a: Ratio, b: Ratio) -> bool {
    a.num * b.den < b.num * a.den
}

/// Exact strict comparison, in 128-bit arithmetic so no product can
/// overflow.
pub fn ratio_lt_exec(a: &Ratio, b: &Ratio) -> (r: bool)
    ensures
        r == ratio_lt(*a, *b),
{
    proof {
        assert((a.num as u128) * (b.den as u128) <= u128::MAX) by (nonlinear_arith)
            requires
                a.num <= u64::MAX,
                b.den <= u64::MAX,
        {}
        assert((b.num as u128) * (a.den as u128) <= u128::MAX) by (nonlinear_arith)
            requires
                b.num <= u64::MAX,
                a.den <= u64::MAX,
        {}
    }
    (a.num as u128) * (b.den as u128) < (b.num as u128) * (a.den as u128)
}

/// Comparison by cross-multiplication is transitive across a non-strict
/// and a strict step, for scores with positive denominators.
pub proof fn lemma_ratio_le_lt_trans(a: Ratio, b: Ratio, c: Ratio)
    requires
        a.wf(),
        b.wf(),
        c.wf(),
        !ratio_lt(b, a),
        ratio_lt(b, c),
    ensures
        ratio_lt(a, c),
{
    assert(a.num * c.den < c.num * a.den) by (nonlinear_arith)
        requires
            a.den >= 1,
            b.den >= 1,
            c.den >= 1,
            a.num * b.den <= b.num * a.den,
            b.num * c.den < c.num * b.den,
    {}
}

} // verus!
