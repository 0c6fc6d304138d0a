//! The quadratic extension of the base field, in which challenges after the commitments live.
use vstd::arithmetic::div_mod::{
    lemma_add_mod_noop, lemma_mul_mod_noop, lemma_mul_mod_noop_left, lemma_mul_mod_noop_right,
    lemma_small_mod,
};
use vstd::arithmetic::mul::lemma_mul_is_associative;
use vstd::prelude::*;
use crate::field::TwoAdicRing;
use crate::goldilocks::GoldilocksField;
use crate::prime::order;
use crate::ring::{Ring, lemma_pow_pow, pow};

verus! {

/// The element `a + b * X`, with `X^2 = 7`, of a pair `(a, b)`.
#[derive(Clone, Copy, Debug)]
pub struct QuadraticExtension(pub GoldilocksField, pub GoldilocksField);

/// The square of the adjoined element.
pub const NON_RESIDUE: u64 = 7;

/// The coefficient of the adjoined element in the root of unity of order `2^33`.
pub const EXTENSION_ROOT: u64 = 15659105665374529263;

/// Sums and products of residues are residues of sums and products.
proof fn lemma_of(m: int, n: int)
    ensures
        GoldilocksField::of(m).plus(GoldilocksField::of(n)) == GoldilocksField::of(m + n),
        GoldilocksField::of(m).times(GoldilocksField::of(n)) == GoldilocksField::of(m * n),
{
    lemma_add_mod_noop(m, n, order());
    lemma_mul_mod_noop(m, n, order());
}

/// A product with a representative is the product with its residue.
proof fn lemma_of_times(x: GoldilocksField, n: int)
    ensures
        x.times(GoldilocksField::of(n)) == GoldilocksField::of(x.0 * n),
        GoldilocksField::of(n).times(x) == GoldilocksField::of(n * x.0),
{
    lemma_mul_mod_noop_right(x.0 as int, n, order());
    lemma_mul_mod_noop_left(n, x.0 as int, order());
}

impl QuadraticExtension {
    /// The product by components, as integers before reduction.
    pub open spec fn product_of(a0: int, a1: int, b0: int, b1: int) -> Self {
        QuadraticExtension(
            GoldilocksField::of(a0 * b0 + NON_RESIDUE * (a1 * b1)),
            GoldilocksField::of(a0 * b1 + a1 * b0),
        )
    }
}

impl Ring for QuadraticExtension {
    open spec fn zero() -> Self {
        QuadraticExtension(GoldilocksField::zero(), GoldilocksField::zero())
    }

    open spec fn one() -> Self {
        QuadraticExtension(GoldilocksField::one(), GoldilocksField::zero())
    }

    open spec fn plus(self, other: Self) -> Self {
        QuadraticExtension(self.0.plus(other.0), self.1.plus(other.1))
    }

    open spec fn negated(self) -> Self {
        QuadraticExtension(self.0.negated(), self.1.negated())
    }

    open spec fn times(self, other: Self) -> Self {
        QuadraticExtension::product_of(
            self.0.0 as int,
            self.1.0 as int,
            other.0.0 as int,
            other.1.0 as int,
        )
    }

    proof fn law_constants() {
        GoldilocksField::law_constants();
    }

    proof fn law_canonical(a: Self, b: Self) {
        GoldilocksField::law_canonical(a.0, b.0);
        GoldilocksField::law_canonical(a.1, b.1);
        let p = a.times(b);
        lemma_of(a.0.0 * b.0.0 + NON_RESIDUE * (a.1.0 * b.1.0), 0);
        lemma_of(a.0.0 * b.1.0 + a.1.0 * b.0.0, 0);
        lemma_small_mod(0, order() as nat);
    }

    proof fn law_commutes(a: Self, b: Self) {
        GoldilocksField::law_commutes(a.0, b.0);
        GoldilocksField::law_commutes(a.1, b.1);
        let (a0, a1, b0, b1) = (a.0.0 as int, a.1.0 as int, b.0.0 as int, b.1.0 as int);
        assert(a0 * b0 == b0 * a0) by (nonlinear_arith);
        assert(a1 * b1 == b1 * a1) by (nonlinear_arith);
        assert(a0 * b1 + a1 * b0 == b0 * a1 + b1 * a0) by (nonlinear_arith);
    }

    proof fn law_associates(a: Self, b: Self, c: Self) {
        GoldilocksField::law_associates(a.0, b.0, c.0);
        GoldilocksField::law_associates(a.1, b.1, c.1);
        let (a0, a1) = (a.0.0 as int, a.1.0 as int);
        let (b0, b1) = (b.0.0 as int, b.1.0 as int);
        let (c0, c1) = (c.0.0 as int, c.1.0 as int);
        lemma_reduce(a0 * b0 + NON_RESIDUE * (a1 * b1), a0 * b1 + a1 * b0, c0, c1);
        lemma_reduce(b0 * c0 + NON_RESIDUE * (b1 * c1), b0 * c1 + b1 * c0, a0, a1);
        lemma_linear(a0 * b0, a1 * b1, 7, c0);
        lemma_linear(a0 * b0, a1 * b1, 7, c1);
        lemma_linear(a0 * b1, a1 * b0, 1, c1);
        lemma_linear(a0 * b1, a1 * b0, 1, c0);
        lemma_linear(b0 * c0, b1 * c1, 7, a0);
        lemma_linear(b0 * c0, b1 * c1, 7, a1);
        lemma_linear(b0 * c1, b1 * c0, 1, a1);
        lemma_linear(b0 * c1, b1 * c0, 1, a0);
        lemma_mul_is_associative(a0, b0, c0);
        lemma_mul_is_associative(a0, b0, c1);
        lemma_mul_is_associative(a0, b1, c0);
        lemma_mul_is_associative(a0, b1, c1);
        lemma_mul_is_associative(a1, b0, c0);
        lemma_mul_is_associative(a1, b0, c1);
        lemma_mul_is_associative(a1, b1, c0);
        lemma_mul_is_associative(a1, b1, c1);
    }

    proof fn law_distributes(a: Self, b: Self, c: Self) {
        let (a0, a1) = (a.0.0 as int, a.1.0 as int);
        let (b0, b1) = (b.0.0 as int, b.1.0 as int);
        let (c0, c1) = (c.0.0 as int, c.1.0 as int);
        lemma_reduce(b0 + c0, b1 + c1, a0, a1);
        lemma_of(a0 * b0 + 7 * (a1 * b1), a0 * c0 + 7 * (a1 * c1));
        lemma_of(a0 * b1 + a1 * b0, a0 * c1 + a1 * c0);
        assert(a0 * (b0 + c0) + 7 * (a1 * (b1 + c1)) == (a0 * b0 + 7 * (a1 * b1)) + (a0 * c0 + 7
            * (a1 * c1))) by (nonlinear_arith);
        assert(a0 * (b1 + c1) + a1 * (b0 + c0) == (a0 * b1 + a1 * b0) + (a0 * c1 + a1 * c0))
            by (nonlinear_arith);
    }

    proof fn law_neutral(a: Self) {
        GoldilocksField::law_neutral(a.0);
        GoldilocksField::law_neutral(a.1);
    }

    fn zero_element() -> (r: Self) {
        QuadraticExtension(GoldilocksField::zero_element(), GoldilocksField::zero_element())
    }

    fn one_element() -> (r: Self) {
        QuadraticExtension(GoldilocksField::one_element(), GoldilocksField::zero_element())
    }

    fn add(self, other: Self) -> (r: Self) {
        QuadraticExtension(self.0.add(other.0), self.1.add(other.1))
    }

    fn neg(self) -> (r: Self) {
        QuadraticExtension(self.0.neg(), self.1.neg())
    }

    fn mul(self, other: Self) -> (r: Self) {
        let w: GoldilocksField = GoldilocksField(NON_RESIDUE);
        let low: GoldilocksField = self.0.mul(other.0);
        let high: GoldilocksField = w.mul(self.1.mul(other.1));
        let left: GoldilocksField = self.0.mul(other.1);
        let right: GoldilocksField = self.1.mul(other.0);
        proof {
            lemma_of_times(w, self.1.0 * other.1.0);
            lemma_of(self.0.0 * other.0.0, NON_RESIDUE * (self.1.0 * other.1.0));
            lemma_of(self.0.0 * other.1.0, self.1.0 * other.0.0);
        }
        QuadraticExtension(low.add(high), left.add(right))
    }

    fn equals(self, other: Self) -> (r: bool) {
        self.0.equals(other.0) && self.1.equals(other.1)
    }
}

/// A combination multiplies through.
proof fn lemma_linear(x: int, y: int, k: int, c: int)
    ensures
        (x + k * y) * c == x * c + k * (y * c),
        c * (x + k * y) == c * x + k * (c * y),
{
    assert((x + k * y) * c == x * c + k * (y * c)) by (nonlinear_arith);
    assert(c * (x + k * y) == c * x + k * (c * y)) by (nonlinear_arith);
}

/// Reducing the components of one factor first does not change a product.
proof fn lemma_reduce(m: int, n: int, c0: int, c1: int)
    ensures
        QuadraticExtension::product_of(m % order(), n % order(), c0, c1)
            == QuadraticExtension::product_of(m, n, c0, c1),
        QuadraticExtension::product_of(c0, c1, m % order(), n % order())
            == QuadraticExtension::product_of(c0, c1, m, n),
{
    let p = order();
    lemma_reduce_combination(m, n, c0, 7 * c1);
    lemma_reduce_combination(m, n, c1, c0);
    let (r, s) = (m % p, n % p);
    assert(r * c0 + 7 * (s * c1) == r * c0 + s * (7 * c1)) by (nonlinear_arith);
    assert(m * c0 + 7 * (n * c1) == m * c0 + n * (7 * c1)) by (nonlinear_arith);
    assert(c0 * r + 7 * (c1 * s) == r * c0 + s * (7 * c1)) by (nonlinear_arith);
    assert(c0 * m + 7 * (c1 * n) == m * c0 + n * (7 * c1)) by (nonlinear_arith);
    assert(c0 * s + c1 * r == r * c1 + s * c0) by (nonlinear_arith);
    assert(c0 * n + c1 * m == m * c1 + n * c0) by (nonlinear_arith);
}

/// Reducing the coefficients of a combination does not change its residue.
proof fn lemma_reduce_combination(m: int, n: int, u: int, v: int)
    ensures
        ((m % order()) * u + (n % order()) * v) % order() == (m * u + n * v) % order(),
{
    let p = order();
    lemma_mul_mod_noop_left(m, u, p);
    lemma_mul_mod_noop_left(n, v, p);
    lemma_add_mod_noop((m % p) * u, (n % p) * v, p);
    lemma_add_mod_noop(m * u, n * v, p);
}

/// Powers of base field elements stay in the base field.
proof fn lemma_pow_embedded(x: GoldilocksField, n: nat)
    ensures
        pow(QuadraticExtension(x, GoldilocksField::zero()), n) == QuadraticExtension(
            pow(x, n),
            GoldilocksField::zero(),
        ),
    decreases n,
{
    lemma_small_mod(0, order() as nat);
    if n > 0 {
        lemma_pow_embedded(x, (n - 1) as nat);
        let y = pow(x, (n - 1) as nat);
        assert(y.0 * 0 + 0 * x.0 == 0);
        assert(y.0 * x.0 + 7 * (0 * 0) == y.0 * x.0);
    }
}

impl TwoAdicRing for QuadraticExtension {
    open spec fn adicity() -> nat {
        33
    }

    open spec fn root() -> Self {
        QuadraticExtension(GoldilocksField(0), GoldilocksField(EXTENSION_ROOT))
    }

    proof fn law_root() {
        let r = Self::root();
        let b = GoldilocksField::root();
        lemma_small_mod(0, order() as nat);
        lemma_small_mod(EXTENSION_ROOT as nat, order() as nat);
        let c = EXTENSION_ROOT as int;
        assert(r.times(r) == QuadraticExtension(b, GoldilocksField(0))) by {
            assert((7 * (c * c)) % order() == crate::prime::POWER_OF_TWO_ROOT);
        }
        assert(pow(r, 2) == r.times(r)) by {
            reveal_with_fuel(pow, 3);
            crate::ring::lemma_pow_norm(r, 1);
            crate::ring::lemma_norm(r, r);
        }
        GoldilocksField::law_root();
        vstd::arithmetic::power2::lemma2_to64();
        lemma_pow_pow(r, 2, 0x8000_0000);
        lemma_pow_embedded(b, 0x8000_0000);
    }

    fn two_adicity() -> (r: usize) {
        33
    }

    fn power_of_two_generator() -> (r: Self) {
        QuadraticExtension(GoldilocksField(0), GoldilocksField(EXTENSION_ROOT))
    }
}

} // verus!
