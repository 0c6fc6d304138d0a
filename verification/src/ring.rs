//! Commutative rings as the prover computes in them.
//!
//! An element of a ring may have several machine representations. Every operation returns the
//! canonical one, and `norm` maps a representation to it, so two representations stand for the
//! same element exactly when their `norm`s are equal.
use vstd::prelude::*;

verus! {

/// A commutative ring with one, together with the operations that compute in it.
pub trait Ring: Copy + Sized {
    /// The neutral element of addition.
    spec fn zero() -> Self;

    /// The neutral element of multiplication.
    spec fn one() -> Self;

    /// The sum of two elements, in canonical representation.
    spec fn plus(self, other: Self) -> Self;

    /// The additive inverse, in canonical representation.
    spec fn negated(self) -> Self;

    /// The product of two elements, in canonical representation.
    spec fn times(self, other: Self) -> Self;

    /// Zero and one are canonical and differ.
    proof fn law_constants()
        ensures
            Self::zero().plus(Self::zero()) == Self::zero(),
            Self::one().plus(Self::zero()) == Self::one(),
            Self::zero() != Self::one(),
    ;

    /// The results of the operations are canonical.
    proof fn law_canonical(a: Self, b: Self)
        ensures
            a.plus(b).plus(Self::zero()) == a.plus(b),
            a.times(b).plus(Self::zero()) == a.times(b),
            a.negated().plus(Self::zero()) == a.negated(),
    ;

    /// Addition and multiplication commute.
    proof fn law_commutes(a: Self, b: Self)
        ensures
            a.plus(b) == b.plus(a),
            a.times(b) == b.times(a),
    ;

    /// Addition and multiplication associate.
    proof fn law_associates(a: Self, b: Self, c: Self)
        ensures
            a.plus(b).plus(c) == a.plus(b.plus(c)),
            a.times(b).times(c) == a.times(b.times(c)),
    ;

    /// Multiplication distributes over addition.
    proof fn law_distributes(a: Self, b: Self, c: Self)
        ensures
            a.times(b.plus(c)) == a.times(b).plus(a.times(c)),
    ;

    /// One is neutral, and the additive inverse cancels.
    proof fn law_neutral(a: Self)
        ensures
            a.times(Self::one()) == a.plus(Self::zero()),
            a.plus(a.negated()) == Self::zero(),
    ;

    /// Returns zero.
    fn zero_element() -> (r: Self)
        ensures
            r == Self::zero(),
    ;

    /// Returns one.
    fn one_element() -> (r: Self)
        ensures
            r == Self::one(),
    ;

    /// Returns the sum.
    fn add(self, other: Self) -> (r: Self)
        ensures
            r == self.plus(other),
    ;

    /// Returns the additive inverse.
    fn neg(self) -> (r: Self)
        ensures
            r == self.negated(),
    ;

    /// Returns the product.
    fn mul(self, other: Self) -> (r: Self)
        ensures
            r == self.times(other),
    ;

    /// Tells whether two representations stand for the same element.
    fn equals(self, other: Self) -> (r: bool)
        ensures
            r == (self.plus(Self::zero()) == other.plus(Self::zero())),
    ;
}

/// The canonical representation of the element that `a` stands for.
pub open spec fn norm<R: Ring>(a: R) -> R {
    a.plus(R::zero())
}

/// The difference `a - b`.
pub open spec fn minus<R: Ring>(a: R, b: R) -> R {
    a.plus(b.negated())
}

/// The `n`-th power of `x`.
pub open spec fn pow<R: Ring>(x: R, n: nat) -> R
    decreases n,
{
    if n == 0 {
        R::one()
    } else {
        pow(x, (n - 1) as nat).times(x)
    }
}

/// The product of a sequence, from the left.
pub open spec fn product<R: Ring>(s: Seq<R>) -> R
    decreases s.len(),
{
    if s.len() == 0 {
        R::one()
    } else {
        product(s.drop_last()).times(s.last())
    }
}

/// Returns `a - b`.
pub fn subtract<R: Ring>(a: R, b: R) -> (r: R)
    ensures
        r == minus(a, b),
{
    let c: R = b.neg();
    a.add(c)
}

/// Normalising is idempotent and is absorbed by the operations.
pub proof fn lemma_norm<R: Ring>(a: R, b: R)
    ensures
        norm(norm(a)) == norm(a),
        norm(a.plus(b)) == a.plus(b),
        norm(a.times(b)) == a.times(b),
        norm(a.negated()) == a.negated(),
        a.plus(norm(b)) == a.plus(b),
        norm(a).plus(b) == a.plus(b),
        a.times(norm(b)) == a.times(b),
        norm(a).times(b) == a.times(b),
{
    R::law_canonical(a, b);
    R::law_canonical(a, R::zero());
    R::law_canonical(b, a);
    R::law_associates(a, b, R::zero());
    R::law_associates(b, a, R::zero());
    R::law_associates(a, b, R::one());
    R::law_associates(b, a, R::one());
    R::law_commutes(norm(a), b);
    R::law_commutes(a, b);
    R::law_commutes(b, a);
    R::law_neutral(a);
    R::law_neutral(b);
    R::law_neutral(a.times(b));
    R::law_neutral(b.times(a));
}

/// Zero is neutral on the left, one is neutral on both sides.
pub proof fn lemma_neutral<R: Ring>(a: R)
    ensures
        R::zero().plus(a) == norm(a),
        a.plus(R::zero()) == norm(a),
        R::one().times(a) == norm(a),
        a.times(R::one()) == norm(a),
        a.negated().plus(a) == R::zero(),
        norm(R::zero()) == R::zero(),
        norm(R::one()) == R::one(),
{
    R::law_constants();
    R::law_neutral(a);
    R::law_commutes(R::zero(), a);
    R::law_commutes(R::one(), a);
    R::law_commutes(a.negated(), a);
}

/// A term can be cancelled from a sum.
pub proof fn lemma_plus_cancel<R: Ring>(a: R, b: R, c: R)
    requires
        a.plus(b) == a.plus(c),
    ensures
        norm(b) == norm(c),
{
    R::law_associates(a.negated(), a, b);
    R::law_associates(a.negated(), a, c);
    lemma_neutral(a);
    lemma_neutral(b);
    lemma_neutral(c);
}

/// Zero absorbs in a product.
pub proof fn lemma_times_zero<R: Ring>(a: R)
    ensures
        a.times(R::zero()) == R::zero(),
        R::zero().times(a) == R::zero(),
{
    let z = a.times(R::zero());
    R::law_constants();
    R::law_distributes(a, R::zero(), R::zero());
    lemma_norm(a, R::zero());
    assert(z.plus(z) == z.plus(R::zero()));
    lemma_plus_cancel(z, z, R::zero());
    R::law_commutes(a, R::zero());
    lemma_neutral(a);
}

/// A negation can be pulled out of a product.
pub proof fn lemma_times_negated<R: Ring>(a: R, b: R)
    ensures
        a.times(b.negated()) == a.times(b).negated(),
        a.negated().times(b) == a.times(b).negated(),
{
    let p = a.times(b);
    R::law_distributes(a, b, b.negated());
    R::law_neutral(b);
    lemma_times_zero(a);
    R::law_neutral(p);
    lemma_plus_cancel(p, a.times(b.negated()), p.negated());
    lemma_norm(a, b.negated());
    lemma_norm(p, p);

    R::law_commutes(a.negated(), b);
    R::law_commutes(a, b);
    let q = b.times(a);
    R::law_distributes(b, a, a.negated());
    R::law_neutral(a);
    lemma_times_zero(b);
    lemma_plus_cancel(q, b.times(a.negated()), q.negated());
    lemma_norm(b, a.negated());
}

/// Negating twice gives the element back.
pub proof fn lemma_negated_twice<R: Ring>(a: R)
    ensures
        a.negated().negated() == norm(a),
{
    lemma_neutral(a);
    R::law_neutral(a.negated());
    lemma_plus_cancel(a.negated(), a.negated().negated(), a);
    lemma_norm(a.negated(), a);
}

/// The middle factors of a product of two products, and the middle terms of a sum of two sums,
/// can be exchanged.
pub proof fn lemma_exchange<R: Ring>(a: R, b: R, c: R, d: R)
    ensures
        a.times(b).times(c.times(d)) == a.times(c).times(b.times(d)),
        a.plus(b).plus(c.plus(d)) == a.plus(c).plus(b.plus(d)),
{
    R::law_associates(a, b, c.times(d));
    R::law_associates(b, c, d);
    R::law_commutes(b, c);
    R::law_associates(c, b, d);
    R::law_associates(a, c, b.times(d));

    R::law_associates(a, b, c.plus(d));
    R::law_associates(a, c, b.plus(d));
}

/// A negation distributes over a sum.
pub proof fn lemma_negated_sum<R: Ring>(a: R, b: R)
    ensures
        a.plus(b).negated() == a.negated().plus(b.negated()),
{
    let s = a.plus(b);
    lemma_exchange(a, b, a.negated(), b.negated());
    R::law_neutral(a);
    R::law_neutral(b);
    R::law_neutral(s);
    lemma_neutral(R::zero());
    lemma_plus_cancel(s, a.negated().plus(b.negated()), s.negated());
    lemma_norm(a.negated(), b.negated());
    lemma_norm(s, s);
}

/// The exponents of a product of powers add up.
pub proof fn lemma_pow_add<R: Ring>(x: R, m: nat, n: nat)
    ensures
        pow(x, m + n) == pow(x, m).times(pow(x, n)),
    decreases n,
{
    lemma_pow_norm(x, m);
    if n == 0 {
        lemma_neutral(pow(x, m));
    } else {
        lemma_pow_add(x, m, (n - 1) as nat);
        R::law_associates(pow(x, m), pow(x, (n - 1) as nat), x);
        assert((m + n - 1) as nat == m + (n - 1) as nat);
    }
}

/// Powers are canonical, and the first power is the element itself.
pub proof fn lemma_pow_norm<R: Ring>(x: R, n: nat)
    ensures
        norm(pow(x, n)) == pow(x, n),
        pow(x, 1) == norm(x),
        pow(norm(x), n) == pow(x, n),
    decreases n,
{
    lemma_neutral(x);
    reveal_with_fuel(pow, 2);
    if n > 0 {
        lemma_norm(pow(x, (n - 1) as nat), x);
        lemma_pow_norm(x, (n - 1) as nat);
    }
}

/// The powers of one are one.
pub proof fn lemma_pow_one<R: Ring>(n: nat)
    ensures
        pow(R::one(), n) == R::one(),
    decreases n,
{
    if n > 0 {
        lemma_pow_one::<R>((n - 1) as nat);
        lemma_neutral(R::one());
    }
}

/// The power of a product is the product of the powers.
pub proof fn lemma_pow_times<R: Ring>(x: R, y: R, n: nat)
    ensures
        pow(x.times(y), n) == pow(x, n).times(pow(y, n)),
    decreases n,
{
    if n == 0 {
        lemma_neutral(R::one());
    } else {
        let m = (n - 1) as nat;
        lemma_pow_times(x, y, m);
        lemma_exchange(pow(x, m), pow(y, m), x, y);
    }
}

/// The exponents of a power of a power multiply.
pub proof fn lemma_pow_pow<R: Ring>(x: R, m: nat, n: nat)
    ensures
        pow(pow(x, m), n) == pow(x, m * n),
    decreases n,
{
    if n == 0 {
        assert(m * n == 0) by (nonlinear_arith)
            requires
                n == 0,
        ;
    } else {
        let k = (n - 1) as nat;
        lemma_pow_pow(x, m, k);
        lemma_pow_add(x, m * k, m);
        assert(m * n == m * k + m) by (nonlinear_arith)
            requires
                n == k + 1,
        ;
    }
}

/// The product of a concatenation is the product of the products.
pub proof fn lemma_product_concat<R: Ring>(s: Seq<R>, t: Seq<R>)
    ensures
        product(s + t) == product(s).times(product(t)),
        norm(product(s)) == product(s),
    decreases t.len(),
{
    lemma_neutral(product(s));
    if s.len() > 0 {
        lemma_norm(product(s.drop_last()), s.last());
    }
    if t.len() == 0 {
        assert(s + t == s);
    } else {
        assert((s + t).drop_last() == s + t.drop_last());
        lemma_product_concat(s, t.drop_last());
        R::law_associates(product(s), product(t.drop_last()), t.last());
    }
}

} // verus!
