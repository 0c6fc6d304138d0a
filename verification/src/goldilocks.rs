//! The field with `2^64 - 2^32 + 1` elements.
use vstd::arithmetic::div_mod::{
    lemma_add_mod_noop, lemma_mod_twice, lemma_mul_mod_noop_left, lemma_mul_mod_noop_right,
    lemma_small_mod,
};
use vstd::arithmetic::mul::{
    lemma_mul_is_associative, lemma_mul_is_commutative, lemma_mul_is_distributive_add,
};
use vstd::prelude::*;
use crate::field::{Field, TwoAdicRing};
use crate::prime::{
    GROUP_GENERATOR, ORDER, POWER_OF_TWO_ROOT, inverse_modulo, lemma_generator_power,
    lemma_inverse_exists, lemma_inverse_unique, lemma_product_fits, lemma_root_power, order,
};
use crate::ring::{Ring, pow};

verus! {

/// An element of the field, as a machine word that stands for its residue.
#[derive(Clone, Copy, Debug)]
pub struct GoldilocksField(pub u64);

impl GoldilocksField {
    /// The residue that the element stands for.
    pub open spec fn residue(self) -> int {
        self.0 as int % order()
    }

    /// The element with the residue of `n`, in canonical representation.
    pub open spec fn of(n: int) -> Self {
        GoldilocksField((n % order()) as u64)
    }

    /// Returns the residue, which is below the order of the field.
    pub fn to_canonical_u64(&self) -> (r: u64)
        ensures
            r == self.residue(),
    {
        if self.0 >= ORDER {
            proof {
                vstd::arithmetic::div_mod::lemma_mod_multiples_vanish(1, self.0 - ORDER, order());
                lemma_small_mod((self.0 - ORDER) as nat, order() as nat);
            }
            self.0 - ORDER
        } else {
            proof {
                lemma_small_mod(self.0 as nat, order() as nat);
            }
            self.0
        }
    }
}

impl Ring for GoldilocksField {
    open spec fn zero() -> Self {
        GoldilocksField(0)
    }

    open spec fn one() -> Self {
        GoldilocksField(1)
    }

    open spec fn plus(self, other: Self) -> Self {
        Self::of(self.0 + other.0)
    }

    open spec fn negated(self) -> Self {
        Self::of(-(self.0 as int))
    }

    open spec fn times(self, other: Self) -> Self {
        Self::of(self.0 * other.0)
    }

    proof fn law_constants() {
        lemma_small_mod(0, order() as nat);
        lemma_small_mod(1, order() as nat);
    }

    proof fn law_canonical(a: Self, b: Self) {
        lemma_mod_twice(a.0 + b.0, order());
        lemma_mod_twice(a.0 * b.0, order());
        lemma_mod_twice(-(a.0 as int), order());
    }

    proof fn law_commutes(a: Self, b: Self) {
        lemma_mul_is_commutative(a.0 as int, b.0 as int);
    }

    proof fn law_associates(a: Self, b: Self, c: Self) {
        let p = order();
        let (x, y, z) = (a.0 as int, b.0 as int, c.0 as int);
        lemma_add_mod_noop(x + y, z, p);
        lemma_add_mod_noop((x + y) % p, z, p);
        lemma_mod_twice(x + y, p);
        lemma_add_mod_noop(x, y + z, p);
        lemma_add_mod_noop(x, (y + z) % p, p);
        lemma_mod_twice(y + z, p);
        lemma_mul_mod_noop_left(x * y, z, p);
        lemma_mul_mod_noop_right(x, y * z, p);
        lemma_mul_is_associative(x, y, z);
    }

    proof fn law_distributes(a: Self, b: Self, c: Self) {
        let p = order();
        let (x, y, z) = (a.0 as int, b.0 as int, c.0 as int);
        lemma_mul_mod_noop_right(x, y + z, p);
        lemma_mul_is_distributive_add(x, y, z);
        lemma_add_mod_noop(x * y, x * z, p);
    }

    proof fn law_neutral(a: Self) {
        let p = order();
        let x = a.0 as int;
        lemma_add_mod_noop(x, -x, p);
        lemma_add_mod_noop(x, (-x) % p, p);
        lemma_mod_twice(-x, p);
        lemma_small_mod(0, p as nat);
    }

    fn zero_element() -> (r: Self) {
        GoldilocksField(0)
    }

    fn one_element() -> (r: Self) {
        GoldilocksField(1)
    }

    fn add(self, other: Self) -> (r: Self) {
        GoldilocksField(((self.0 as u128 + other.0 as u128) % ORDER as u128) as u64)
    }

    fn neg(self) -> (r: Self) {
        let r: u64 = self.to_canonical_u64();
        proof {
            let p = order();
            let x = self.0 as int;
            vstd::arithmetic::div_mod::lemma_fundamental_div_mod(x, p);
            let q = x / p;
            assert(-x == p * (-q - 1) + (p - r)) by (nonlinear_arith)
                requires
                    x == p * q + r,
            ;
            assert(-x == p * (-q) + (-(r as int))) by (nonlinear_arith)
                requires
                    x == p * q + r,
            ;
            vstd::arithmetic::div_mod::lemma_mod_multiples_vanish(-q - 1, p - r, p);
            vstd::arithmetic::div_mod::lemma_mod_multiples_vanish(-q, -(r as int), p);
            lemma_small_mod(0, p as nat);
            if r > 0 {
                lemma_small_mod((p - r) as nat, p as nat);
            }
        }
        if r == 0 {
            GoldilocksField(0)
        } else {
            GoldilocksField(ORDER - r)
        }
    }

    fn mul(self, other: Self) -> (r: Self) {
        proof {
            lemma_product_fits(self.0, other.0);
        }
        GoldilocksField(((self.0 as u128 * other.0 as u128) % ORDER as u128) as u64)
    }

    fn equals(self, other: Self) -> (r: bool) {
        self.to_canonical_u64() == other.to_canonical_u64()
    }
}

/// Powers in the field are powers of the residues.
proof fn lemma_pow_residue(x: GoldilocksField, n: nat)
    ensures
        pow(x, n) == GoldilocksField::of(vstd::arithmetic::power::pow(x.0 as int, n)),
    decreases n,
{
    let p = order();
    if n == 0 {
        vstd::arithmetic::power::lemma_pow0(x.0 as int);
        lemma_small_mod(1, p as nat);
    } else {
        let m = (n - 1) as nat;
        lemma_pow_residue(x, m);
        let y = vstd::arithmetic::power::pow(x.0 as int, m);
        vstd::arithmetic::power::lemma_pow1(x.0 as int);
        vstd::arithmetic::power::lemma_pow_adds(x.0 as int, m, 1);
        lemma_mul_mod_noop_left(y, x.0 as int, p);
    }
}

impl TwoAdicRing for GoldilocksField {
    open spec fn adicity() -> nat {
        32
    }

    open spec fn root() -> Self {
        GoldilocksField(POWER_OF_TWO_ROOT)
    }

    proof fn law_root() {
        lemma_small_mod(POWER_OF_TWO_ROOT as nat, order() as nat);
        vstd::arithmetic::power2::lemma2_to64();
        lemma_root_power();
        lemma_pow_residue(Self::root(), 0x8000_0000);
        assert((-1int) % order() == order() - 1);
    }

    fn two_adicity() -> (r: usize) {
        32
    }

    fn power_of_two_generator() -> (r: Self) {
        GoldilocksField(POWER_OF_TWO_ROOT)
    }
}

impl Field for GoldilocksField {
    open spec fn recip(self) -> Self {
        GoldilocksField(
            choose|w: u64| w < ORDER && #[trigger] (self.residue() * w) % order() == 1,
        )
    }

    open spec fn shift() -> Self {
        GoldilocksField(GROUP_GENERATOR)
    }

    proof fn law_recip(a: Self) {
        let p = order();
        let w = lemma_inverse_exists(a.residue());
        assert((a.residue() * (w as u64)) % p == 1);
        let v = a.recip().0;
        assert(v < ORDER && (a.residue() * v) % p == 1);
        lemma_mul_mod_noop_left(a.0 as int, v as int, p);
        lemma_small_mod(v as nat, p as nat);
    }

    proof fn law_two() {
        lemma_small_mod(2, order() as nat);
    }

    proof fn law_shift() {
        lemma_small_mod(GROUP_GENERATOR as nat, order() as nat);
        vstd::arithmetic::power2::lemma2_to64();
        lemma_generator_power();
        lemma_pow_residue(Self::shift(), 0x1_0000_0000);
    }

    fn try_inverse(self) -> (r: Option<Self>) {
        let a: u64 = self.to_canonical_u64();
        if a == 0 {
            return None;
        }
        let w: u64 = inverse_modulo(a);
        proof {
            assert((self.residue() * w) % order() == 1);
            let v = self.recip().0;
            assert(v < ORDER && (self.residue() * v) % order() == 1);
            lemma_inverse_unique(self.residue(), v as int, w as int);
        }
        Some(GoldilocksField(w))
    }

    fn coset_shift() -> (r: Self) {
        GoldilocksField(GROUP_GENERATOR)
    }
}

} // verus!
