//! Natural numbers without an upper bound, for arithmetic that must not
//! round. A number is a list of limbs to the base 2^32, lowest first.

use vstd::prelude::*;

verus! {

/// The base of the limbs: 2^32.
pub const BASE: u64 = 4294967296;

/// The weight of the limb at a place: the base to the power of the place.
pub open spec fn place(i: nat) -> nat
    decreases i,
{
    if i == 0 {
        1
    } else {
        BASE as nat * place((i - 1) as nat)
    }
}

/// The number that limbs stand for.
pub open spec fn limbs_value(limbs: Seq<u32>) -> nat
    decreases limbs.len(),
{
    if limbs.len() == 0 {
        0
    } else {
        limbs_value(limbs.drop_last()) + limbs.last() as nat * place((limbs.len() - 1) as nat)
    }
}

/// The limb at a place; zero beyond the last limb.
pub open spec fn digit(limbs: Seq<u32>, i: int) -> nat {
    if 0 <= i < limbs.len() {
        limbs[i] as nat
    } else {
        0
    }
}

/// The number that the limbs below a place stand for.
pub open spec fn low_value(limbs: Seq<u32>, i: int) -> nat {
    if i <= 0 {
        0
    } else if i >= limbs.len() {
        limbs_value(limbs)
    } else {
        limbs_value(limbs.subrange(0, i))
    }
}

/// Every place has a weight.
pub proof fn lemma_place_positive(i: nat)
    ensures
        place(i) > 0,
    decreases i,
{
    if i > 0 {
        lemma_place_positive((i - 1) as nat);
        assert(BASE as nat * place((i - 1) as nat) > 0) by (nonlinear_arith)
            requires
                place((i - 1) as nat) > 0,
        ;
    }
}

/// The weight of a sum of places is the product of their weights.
pub proof fn lemma_place_adds(i: nat, j: nat)
    ensures
        place(i + j) == place(i) * place(j),
    decreases j,
{
    if j == 0 {
        assert(place(i) * 1 == place(i)) by (nonlinear_arith);
    } else {
        lemma_place_adds(i, (j - 1) as nat);
        let p = place(i);
        let q = place((j - 1) as nat);
        assert(place(i + j) == BASE as nat * place((i + j - 1) as nat));
        assert(BASE as nat * (p * q) == p * (BASE as nat * q)) by (nonlinear_arith);
    }
}

/// Limbs stand for a number below the weight of the place after the last.
pub proof fn lemma_value_bound(limbs: Seq<u32>)
    ensures
        limbs_value(limbs) < place(limbs.len()),
    decreases limbs.len(),
{
    if limbs.len() > 0 {
        let front = limbs.drop_last();
        lemma_value_bound(front);
        let p = place(front.len());
        let d = limbs.last() as nat;
        assert(limbs_value(front) + d * p < BASE as nat * p) by (nonlinear_arith)
            requires
                limbs_value(front) < p,
                d < BASE as nat,
        ;
    }
}

/// One place more adds the limb at that place, by its weight.
pub proof fn lemma_low_value_step(limbs: Seq<u32>, i: int)
    requires
        0 <= i,
    ensures
        low_value(limbs, i + 1) == low_value(limbs, i) + digit(limbs, i) * place(i as nat),
{
    if i < limbs.len() {
        let next = if i + 1 >= limbs.len() {
            limbs
        } else {
            limbs.subrange(0, i + 1)
        };
        assert(limbs.subrange(0, limbs.len() as int) =~= limbs);
        assert(next =~= limbs.subrange(0, i + 1));
        assert(next.drop_last() =~= limbs.subrange(0, i));
        assert(next.last() == limbs[i]);
        if i == 0 {
            assert(limbs_value(limbs.subrange(0, 0)) == 0);
        }
    } else {
        assert(0 * place(i as nat) == 0) by (nonlinear_arith);
    }
}

/// A natural number of any size.
#[derive(Debug)]
pub struct BigNat {
    pub limbs: Vec<u32>,
}

impl View for BigNat {
    type V = nat;

    open spec fn view(&self) -> nat {
        limbs_value(self.limbs@)
    }
}

impl DeepView for BigNat {
    type V = nat;

    open spec fn deep_view(&self) -> nat {
        limbs_value(self.limbs@)
    }
}

impl BigNat {
    /// Zero.
    pub fn zero() -> (number: BigNat)
        ensures
            number@ == 0,
    {
        BigNat { limbs: Vec::new() }
    }

    /// The number that a machine integer holds.
    pub fn from_u64(value: u64) -> (number: BigNat)
        ensures
            number@ == value,
    {
        let mut limbs: Vec<u32> = Vec::new();
        let low = (value % BASE) as u32;
        let high = (value / BASE) as u32;
        limbs.push(low);
        proof {
            assert(limbs@.drop_last() =~= Seq::<u32>::empty());
            assert(limbs_value(Seq::<u32>::empty()) == 0);
            assert(limbs@.last() == low);
            assert(place(0) == 1);
            assert(low as nat * 1 == low as nat) by (nonlinear_arith);
            assert(limbs_value(limbs@) == limbs_value(limbs@.drop_last()) + limbs@.last() as nat
                * place((limbs@.len() - 1) as nat));
            assert(limbs_value(limbs@) == low as nat);
        }
        let ghost first = limbs@;
        limbs.push(high);
        proof {
            assert(limbs@.drop_last() =~= first);
            assert(place(1) == BASE as nat) by {
                assert(BASE as nat * 1 == BASE as nat) by (nonlinear_arith);
            }
            assert(low as nat + high as nat * (BASE as nat) == value as nat) by (nonlinear_arith)
                requires
                    low as nat == value as nat % (BASE as nat),
                    high as nat == value as nat / (BASE as nat),
            ;
        }
        BigNat { limbs }
    }

    /// A copy of the number.
    pub fn duplicate(&self) -> (copy: BigNat)
        ensures
            copy@ == self@,
            copy.limbs@ == self.limbs@,
    {
        let mut limbs: Vec<u32> = Vec::new();
        let mut i: usize = 0;
        while i < self.limbs.len()
            invariant
                i <= self.limbs.len(),
                limbs@ == self.limbs@.subrange(0, i as int),
            decreases self.limbs.len() - i,
        {
            limbs.push(self.limbs[i]);
            assert(limbs@ =~= self.limbs@.subrange(0, i + 1));
            i += 1;
        }
        assert(limbs@ =~= self.limbs@);
        BigNat { limbs }
    }

    /// The sum of two numbers.
    pub fn add(&self, other: &BigNat) -> (sum: BigNat)
        ensures
            sum@ == self@ + other@,
    {
        let count = if self.limbs.len() > other.limbs.len() {
            self.limbs.len()
        } else {
            other.limbs.len()
        };
        let mut limbs: Vec<u32> = Vec::new();
        let mut carry: u64 = 0;
        let mut i: usize = 0;
        proof {
            assert(0 * place(0) == 0) by (nonlinear_arith);
        }
        while i < count
            invariant
                i <= count,
                count >= self.limbs.len(),
                count >= other.limbs.len(),
                limbs.len() == i,
                carry <= 1,
                limbs_value(limbs@) + carry * place(i as nat) == low_value(self.limbs@, i as int)
                    + low_value(other.limbs@, i as int),
            decreases count - i,
        {
            let mine: u64 = if i < self.limbs.len() {
                self.limbs[i] as u64
            } else {
                0
            };
            let theirs: u64 = if i < other.limbs.len() {
                other.limbs[i] as u64
            } else {
                0
            };
            let total: u64 = mine + theirs + carry;
            let low = (total % BASE) as u32;
            let ghost before = limbs@;
            let ghost old_carry = carry;
            limbs.push(low);
            carry = total / BASE;
            proof {
                assert(limbs@.drop_last() =~= before);
                lemma_low_value_step(self.limbs@, i as int);
                lemma_low_value_step(other.limbs@, i as int);
                let p = place(i as nat);
                assert(place((i + 1) as nat) == BASE as nat * p);
                assert(low as nat * p + carry as nat * (BASE as nat * p) == (mine as nat
                    + theirs as nat + old_carry as nat) * p) by (nonlinear_arith)
                    requires
                        low as nat + carry as nat * (BASE as nat) == mine as nat + theirs as nat
                            + old_carry as nat,
                ;
                assert((mine as nat + theirs as nat + old_carry as nat) * p == mine as nat * p
                    + theirs as nat * p + old_carry as nat * p) by (nonlinear_arith);
            }
            i += 1;
        }
        if carry > 0 {
            let ghost before = limbs@;
            limbs.push(carry as u32);
            assert(limbs@.drop_last() =~= before);
        } else {
            assert(0 * place(i as nat) == 0) by (nonlinear_arith);
        }
        BigNat { limbs }
    }

    /// The product of a number and a limb.
    pub fn mul_small(&self, factor: u32) -> (product: BigNat)
        ensures
            product@ == self@ * factor,
    {
        let mut limbs: Vec<u32> = Vec::new();
        let mut carry: u64 = 0;
        let mut i: usize = 0;
        proof {
            assert(0 * place(0) == 0) by (nonlinear_arith);
            assert(0 * (factor as nat) == 0) by (nonlinear_arith);
        }
        while i < self.limbs.len()
            invariant
                i <= self.limbs.len(),
                limbs.len() == i,
                carry < BASE,
                limbs_value(limbs@) + carry * place(i as nat) == low_value(self.limbs@, i as int)
                    * factor,
            decreases self.limbs.len() - i,
        {
            let mine: u64 = self.limbs[i] as u64;
            assert(mine * (factor as u64) + carry <= u64::MAX) by (nonlinear_arith)
                requires
                    mine < BASE,
                    factor < BASE,
                    carry < BASE,
            ;
            let total: u64 = mine * (factor as u64) + carry;
            let low = (total % BASE) as u32;
            let ghost before = limbs@;
            let ghost old_carry = carry;
            limbs.push(low);
            carry = total / BASE;
            proof {
                assert(limbs@.drop_last() =~= before);
                lemma_low_value_step(self.limbs@, i as int);
                let p = place(i as nat);
                let f = factor as nat;
                assert(place((i + 1) as nat) == BASE as nat * p);
                assert(carry < BASE) by (nonlinear_arith)
                    requires
                        mine < BASE,
                        factor < BASE,
                        old_carry < BASE,
                        total == mine * (factor as u64) + old_carry,
                        carry == total / BASE,
                ;
                assert(low as nat * p + carry as nat * (BASE as nat * p) == (mine as nat * f
                    + old_carry as nat) * p) by (nonlinear_arith)
                    requires
                        low as nat + carry as nat * (BASE as nat) == mine as nat * f
                            + old_carry as nat,
                ;
                assert((mine as nat * f + old_carry as nat) * p == (mine as nat * p) * f
                    + old_carry as nat * p) by (nonlinear_arith);
                assert((low_value(self.limbs@, i as int) + mine as nat * p) * f == low_value(
                    self.limbs@,
                    i as int,
                ) * f + (mine as nat * p) * f) by (nonlinear_arith);
            }
            i += 1;
        }
        if carry > 0 {
            let ghost before = limbs@;
            limbs.push(carry as u32);
            assert(limbs@.drop_last() =~= before);
        } else {
            assert(0 * place(i as nat) == 0) by (nonlinear_arith);
        }
        BigNat { limbs }
    }

    /// The number moved up by some places: its product with the weight of
    /// that place.
    pub fn shifted(&self, places: usize) -> (moved: BigNat)
        ensures
            moved@ == self@ * place(places as nat),
    {
        let mut limbs: Vec<u32> = Vec::new();
        let mut k: usize = 0;
        while k < places
            invariant
                k <= places,
                limbs.len() == k,
                limbs_value(limbs@) == 0,
            decreases places - k,
        {
            let ghost before = limbs@;
            limbs.push(0);
            proof {
                assert(limbs@.drop_last() =~= before);
                assert(0 * place(k as nat) == 0) by (nonlinear_arith);
            }
            k += 1;
        }
        let mut i: usize = 0;
        proof {
            assert(0 * place(places as nat) == 0) by (nonlinear_arith);
        }
        while i < self.limbs.len()
            invariant
                i <= self.limbs.len(),
                limbs.len() == places + i,
                limbs_value(limbs@) == low_value(self.limbs@, i as int) * place(places as nat),
            decreases self.limbs.len() - i,
        {
            let ghost before = limbs@;
            limbs.push(self.limbs[i]);
            proof {
                assert(limbs@.drop_last() =~= before);
                lemma_low_value_step(self.limbs@, i as int);
                lemma_place_adds(places as nat, i as nat);
                let d = self.limbs@[i as int] as nat;
                let p = place(places as nat);
                let q = place(i as nat);
                let low = low_value(self.limbs@, i as int);
                assert(d * (p * q) == (d * q) * p) by (nonlinear_arith);
                assert((low + d * q) * p == low * p + (d * q) * p) by (nonlinear_arith);
            }
            i += 1;
        }
        BigNat { limbs }
    }

    /// The product of two numbers.
    pub fn mul(&self, other: &BigNat) -> (product: BigNat)
        ensures
            product@ == self@ * other@,
    {
        let mut product = BigNat::zero();
        let mut i: usize = 0;
        proof {
            assert(self@ * 0 == 0) by (nonlinear_arith);
        }
        while i < other.limbs.len()
            invariant
                i <= other.limbs.len(),
                product@ == self@ * low_value(other.limbs@, i as int),
            decreases other.limbs.len() - i,
        {
            let term = self.mul_small(other.limbs[i]).shifted(i);
            proof {
                lemma_low_value_step(other.limbs@, i as int);
                let a = self@;
                let d = other.limbs@[i as int] as nat;
                let p = place(i as nat);
                let low = low_value(other.limbs@, i as int);
                assert(a * (low + d * p) == a * low + (a * d) * p) by (nonlinear_arith);
            }
            product = product.add(&term);
            i += 1;
        }
        product
    }

    /// Whether the number is at most another.
    pub fn le(&self, other: &BigNat) -> (at_most: bool)
        ensures
            at_most == (self@ <= other@),
    {
        let count = if self.limbs.len() > other.limbs.len() {
            self.limbs.len()
        } else {
            other.limbs.len()
        };
        let mut i: usize = count;
        while i > 0
            invariant
                i <= count,
                count >= self.limbs.len(),
                count >= other.limbs.len(),
                self@ - other@ == low_value(self.limbs@, i as int) - low_value(
                    other.limbs@,
                    i as int,
                ),
            decreases i,
        {
            i -= 1;
            let mine: u32 = if i < self.limbs.len() {
                self.limbs[i]
            } else {
                0
            };
            let theirs: u32 = if i < other.limbs.len() {
                other.limbs[i]
            } else {
                0
            };
            proof {
                lemma_low_value_step(self.limbs@, i as int);
                lemma_low_value_step(other.limbs@, i as int);
                lemma_low_bound(self.limbs@, i as int);
                lemma_low_bound(other.limbs@, i as int);
            }
            if mine != theirs {
                proof {
                    let p = place(i as nat);
                    let a = low_value(self.limbs@, i as int);
                    let b = low_value(other.limbs@, i as int);
                    if mine < theirs {
                        assert(a + mine as nat * p < b + theirs as nat * p) by (nonlinear_arith)
                            requires
                                a < p,
                                mine < theirs,
                        ;
                    } else {
                        assert(a + mine as nat * p > b + theirs as nat * p) by (nonlinear_arith)
                            requires
                                b < p,
                                mine > theirs,
                        ;
                    }
                }
                return mine < theirs;
            }
        }
        true
    }

    /// Whether the number is zero.
    pub fn is_zero(&self) -> (zero: bool)
        ensures
            zero == (self@ == 0),
    {
        self.le(&BigNat::zero())
    }
}

/// The limbs below a place stand for a number below the weight of the place.
pub proof fn lemma_low_bound(limbs: Seq<u32>, i: int)
    requires
        0 <= i,
    ensures
        low_value(limbs, i) < place(i as nat),
    decreases i,
{
    lemma_place_positive(i as nat);
    if i > 0 {
        if i >= limbs.len() {
            lemma_value_bound(limbs);
            lemma_place_grows(limbs.len(), i as nat);
        } else {
            lemma_value_bound(limbs.subrange(0, i));
        }
    }
}

/// A later place weighs at least as much as an earlier one.
pub proof fn lemma_place_grows(i: nat, j: nat)
    requires
        i <= j,
    ensures
        place(i) <= place(j),
    decreases j - i,
{
    if i < j {
        lemma_place_grows(i, (j - 1) as nat);
        lemma_place_positive((j - 1) as nat);
        let q = place((j - 1) as nat);
        assert(q <= BASE as nat * q) by (nonlinear_arith)
            requires
                q > 0,
        ;
    }
}

} // verus!
