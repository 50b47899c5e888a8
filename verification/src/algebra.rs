//! Identities of integer arithmetic that the proofs about fractions use.

use vstd::prelude::*;

verus! {

/// A product of two products, regrouped.
pub proof fn lemma_regroup(p: int, q: int, r: int, t: int)
    ensures
        (p * q) * (r * t) == (p * r) * (q * t),
{
    assert((p * q) * (r * t) == (p * r) * (q * t)) by (nonlinear_arith);
}

/// A product of three factors, in another order.
pub proof fn lemma_rotate(p: int, q: int, r: int)
    ensures
        (p * q) * r == p * (q * r),
        (p * q) * r == (p * r) * q,
        p * (q * r) == (p * r) * q,
{
    assert((p * q) * r == p * (q * r)) by (nonlinear_arith);
    assert((p * q) * r == (p * r) * q) by (nonlinear_arith);
}

/// A sum times a factor.
pub proof fn lemma_distribute(x: int, y: int, z: int)
    ensures
        (x + y) * z == x * z + y * z,
        (x - y) * z == x * z - y * z,
{
    assert((x + y) * z == x * z + y * z) by (nonlinear_arith);
    assert((x - y) * z == x * z - y * z) by (nonlinear_arith);
}

} // verus!
