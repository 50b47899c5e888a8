//! Exact fractions of unbounded natural numbers, and their order.

use crate::bignat::BigNat;
use vstd::prelude::*;

verus! {

/// The mathematical content of a fraction: a numerator over a denominator,
/// as they were formed and never reduced.
pub struct FractionView {
    pub num: nat,
    pub den: nat,
}

/// A fraction of unbounded natural numbers.
#[derive(Debug)]
pub struct Fraction {
    pub num: BigNat,
    pub den: BigNat,
}

impl DeepView for Fraction {
    type V = FractionView;

    open spec fn deep_view(&self) -> FractionView {
        FractionView { num: self.num@, den: self.den@ }
    }
}

/// The fraction of a whole number.
pub open spec fn whole(n: nat) -> FractionView {
    FractionView { num: n, den: 1 }
}

/// The sum of two fractions, over the product of their denominators.
pub open spec fn sum(a: FractionView, b: FractionView) -> FractionView {
    FractionView { num: a.num * b.den + b.num * a.den, den: a.den * b.den }
}

/// Whether a fraction is at least another. A fraction without a denominator
/// has no value; it counts as above every fraction that has one.
pub open spec fn at_least(a: FractionView, b: FractionView) -> bool {
    if a.den == 0 {
        true
    } else if b.den == 0 {
        false
    } else {
        a.num * b.den >= b.num * a.den
    }
}

/// Of two fractions, one is at least the other.
pub proof fn lemma_at_least_total(a: FractionView, b: FractionView)
    ensures
        at_least(a, b) || at_least(b, a),
{
}

/// The order of fractions is transitive.
pub proof fn lemma_at_least_transitive(a: FractionView, b: FractionView, c: FractionView)
    requires
        at_least(a, b),
        at_least(b, c),
    ensures
        at_least(a, c),
{
    if a.den != 0 {
        assert(b.den != 0);
        assert(c.den != 0);
        let (an, ad) = (a.num as int, a.den as int);
        let (bn, bd) = (b.num as int, b.den as int);
        let (cn, cd) = (c.num as int, c.den as int);
        assert((an * bd) * cd >= (bn * ad) * cd) by (nonlinear_arith)
            requires
                an * bd >= bn * ad,
                cd > 0,
        ;
        assert((bn * cd) * ad >= (cn * bd) * ad) by (nonlinear_arith)
            requires
                bn * cd >= cn * bd,
                ad > 0,
        ;
        assert((an * bd) * cd == (an * cd) * bd) by (nonlinear_arith);
        assert((bn * ad) * cd == (bn * cd) * ad) by (nonlinear_arith);
        assert((cn * bd) * ad == (cn * ad) * bd) by (nonlinear_arith);
        assert(an * cd >= cn * ad) by (nonlinear_arith)
            requires
                (an * cd) * bd >= (cn * ad) * bd,
                bd > 0,
        ;
    }
}

impl Fraction {
    /// The fraction of a whole number.
    pub fn from_u64(value: u64) -> (fraction: Fraction)
        ensures
            fraction.deep_view() == whole(value as nat),
    {
        Fraction { num: BigNat::from_u64(value), den: BigNat::from_u64(1) }
    }

    /// A copy of the fraction.
    pub fn duplicate(&self) -> (copy: Fraction)
        ensures
            copy.deep_view() == self.deep_view(),
    {
        Fraction { num: self.num.duplicate(), den: self.den.duplicate() }
    }

    /// The sum of two fractions.
    pub fn plus(&self, other: &Fraction) -> (total: Fraction)
        ensures
            total.deep_view() == sum(self.deep_view(), other.deep_view()),
    {
        let left = self.num.mul(&other.den);
        let right = other.num.mul(&self.den);
        Fraction { num: left.add(&right), den: self.den.mul(&other.den) }
    }

    /// Whether the fraction is at least another.
    pub fn at_least(&self, other: &Fraction) -> (above: bool)
        ensures
            above == at_least(self.deep_view(), other.deep_view()),
    {
        if self.den.is_zero() {
            true
        } else if other.den.is_zero() {
            false
        } else {
            let mine = self.num.mul(&other.den);
            let theirs = other.num.mul(&self.den);
            theirs.le(&mine)
        }
    }
}

} // verus!
