//! Rings and fields with roots of unity of two-power order, and the batch operations on them.
use vstd::arithmetic::power2::{lemma_pow2_adds, lemma_pow2_unfold, pow2};
use vstd::prelude::*;
use crate::ring::{
    Ring, lemma_negated_twice, lemma_neutral, lemma_norm, lemma_pow_add, lemma_pow_norm,
    lemma_pow_one, lemma_pow_pow, lemma_times_negated, lemma_times_zero, norm, pow,
};
use crate::util::power_of_two;

verus! {

/// A ring with a root of unity of order `2^adicity`.
pub trait TwoAdicRing: Ring {
    /// The two-power order of the distinguished root of unity is `2^adicity`.
    spec fn adicity() -> nat;

    /// A root of unity of order `2^adicity`.
    spec fn root() -> Self;

    /// The order of the root is exactly `2^adicity`: half of it already gives minus one.
    proof fn law_root()
        ensures
            1 <= Self::adicity() < usize::MAX,
            norm(Self::root()) == Self::root(),
            pow(Self::root(), pow2((Self::adicity() - 1) as nat)) == Self::one().negated(),
    ;

    /// Returns the binary logarithm of the order of the root.
    fn two_adicity() -> (r: usize)
        ensures
            r == Self::adicity(),
    ;

    /// Returns the root.
    fn power_of_two_generator() -> (r: Self)
        ensures
            r == Self::root(),
    ;
}

/// A field with a multiplicative shift whose cosets of the two-power subgroups avoid them.
pub trait Field: TwoAdicRing {
    /// The multiplicative inverse of a nonzero element, in canonical representation.
    spec fn recip(self) -> Self;

    /// The factor by which evaluation domains are moved off the subgroup.
    spec fn shift() -> Self;

    /// A nonzero element has a multiplicative inverse.
    proof fn law_recip(a: Self)
        requires
            norm(a) != Self::zero(),
        ensures
            a.times(a.recip()) == Self::one(),
            norm(a.recip()) == a.recip(),
    ;

    /// Two is not zero.
    proof fn law_two()
        ensures
            Self::one().plus(Self::one()) != Self::zero(),
    ;

    /// The shift lies in no subgroup of two-power order.
    proof fn law_shift()
        ensures
            norm(Self::shift()) == Self::shift(),
            Self::shift() != Self::zero(),
            pow(Self::shift(), pow2(Self::adicity())) != Self::one(),
    ;

    /// Returns the multiplicative inverse, or nothing for zero.
    fn try_inverse(self) -> (r: Option<Self>)
        ensures
            r is None <==> norm(self) == Self::zero(),
            r is Some ==> r->0 == self.recip(),
    ;

    /// Returns the shift.
    fn coset_shift() -> (r: Self)
        ensures
            r == Self::shift(),
    ;
}

/// The distinguished root of unity of order `2^k`.
pub open spec fn root_of<R: TwoAdicRing>(k: nat) -> R
    recommends
        k <= R::adicity(),
{
    pow(R::root(), pow2((R::adicity() - k) as nat))
}

/// The powers of `x` with exponents below `n`.
pub open spec fn powers<R: Ring>(x: R, n: nat) -> Seq<R> {
    Seq::new(n, |i: int| pow(x, i as nat))
}

/// The multiplicative inverses of a sequence.
pub open spec fn recips<F: Field>(s: Seq<F>) -> Seq<F> {
    Seq::new(s.len(), |i: int| s[i].recip())
}

/// Squares `x` repeatedly, `k` times.
pub fn exp_power_of_2<R: Ring>(x: R, k: usize) -> (r: R)
    ensures
        k == 0 ==> r == x,
        k > 0 ==> r == pow(x, pow2(k as nat)),
        norm(r) == pow(x, pow2(k as nat)),
{
    let mut r: R = x;
    proof {
        lemma_pow_norm(x, 1);
        vstd::arithmetic::power2::lemma2_to64();
    }
    for i in 0..k
        invariant
            i == 0 ==> r == x,
            i > 0 ==> r == pow(x, pow2(i as nat)),
            norm(r) == pow(x, pow2(i as nat)),
    {
        let ghost old_r = r;
        r = r.mul(r);
        proof {
            let m = pow2(i as nat);
            lemma_norm(old_r, old_r);
            lemma_norm(norm(old_r), old_r);
            lemma_norm(old_r, norm(old_r));
            lemma_pow_add(x, m, m);
            lemma_pow2_unfold((i + 1) as nat);
        }
    }
    r
}

/// Returns the distinguished root of unity of order `2^n_log`.
pub fn primitive_root_of_unity<R: TwoAdicRing>(n_log: usize) -> (r: R)
    requires
        n_log <= R::adicity(),
    ensures
        r == root_of::<R>(n_log as nat),
{
    let adicity: usize = R::two_adicity();
    let base: R = R::power_of_two_generator();
    proof {
        R::law_root();
        lemma_pow_norm(R::root(), 1);
        vstd::arithmetic::power2::lemma2_to64();
    }
    exp_power_of_2(base, adicity - n_log)
}

/// A power of a distinguished root is a distinguished root of lower order.
pub proof fn lemma_root_of_power<R: TwoAdicRing>(k: nat, j: nat)
    requires
        j <= k <= R::adicity(),
    ensures
        pow(root_of::<R>(k), pow2(j)) == root_of::<R>((k - j) as nat),
{
    let a = R::adicity();
    lemma_pow_pow(R::root(), pow2((a - k) as nat), pow2(j));
    lemma_pow2_adds((a - k) as nat, j);
}

/// The order of the distinguished root of order `2^k` is exactly that.
pub proof fn lemma_root_of<R: TwoAdicRing>(k: nat)
    requires
        k <= R::adicity(),
    ensures
        norm(root_of::<R>(k)) == root_of::<R>(k),
        pow(root_of::<R>(k), pow2(k)) == R::one(),
        k > 0 ==> pow(root_of::<R>(k), pow2((k - 1) as nat)) == R::one().negated(),
        root_of::<R>(0) == R::one(),
{
    let a = R::adicity();
    R::law_root();
    lemma_pow_norm(R::root(), pow2((a - k) as nat));
    if k > 0 {
        lemma_pow_pow(R::root(), pow2((a - k) as nat), pow2((k - 1) as nat));
        lemma_pow2_adds((a - k) as nat, (k - 1) as nat);
    }
    // The full power is the square of minus one.
    let m = R::one().negated();
    let h = pow2((a - 1) as nat);
    lemma_pow2_unfold(a);
    lemma_pow_add(R::root(), h, h);
    lemma_times_negated(m, R::one());
    lemma_neutral(m);
    lemma_norm(m, m);
    lemma_negated_twice(R::one());
    lemma_neutral(R::one());
    assert(m.times(m) == R::one());
    assert(pow(R::root(), pow2(a)) == R::one());
    lemma_pow_pow(R::root(), pow2((a - k) as nat), pow2(k));
    lemma_pow2_adds((a - k) as nat, k);
}

/// Raising a distinguished root to an exponent depends only on the exponent modulo its order.
pub proof fn lemma_root_of_periodic<R: TwoAdicRing>(k: nat, i: nat)
    requires
        k <= R::adicity(),
    ensures
        pow(root_of::<R>(k), i) == pow(root_of::<R>(k), i % pow2(k)),
        0 < pow2(k),
{
    let w = root_of::<R>(k);
    let n = pow2(k);
    vstd::arithmetic::power2::lemma_pow2_pos(k);
    lemma_root_of::<R>(k);
    vstd::arithmetic::div_mod::lemma_fundamental_div_mod(i as int, n as int);
    lemma_pow_add(w, n * (i / n), i % n);
    lemma_pow_pow(w, n, i / n);
    lemma_pow_one::<R>(i / n);
    lemma_neutral(pow(w, i % n));
    lemma_pow_norm(w, i % n);
}

/// The inverse of an element is unique.
pub proof fn lemma_recip_unique<F: Field>(a: F, b: F)
    requires
        a.times(b) == F::one(),
    ensures
        norm(b) == a.recip(),
        norm(a) != F::zero(),
{
    F::law_constants();
    if norm(a) == F::zero() {
        lemma_norm(a, b);
        lemma_times_zero(b);
    }
    F::law_recip(a);
    F::law_commutes(a, b);
    F::law_associates(b, a, a.recip());
    lemma_neutral(b);
    lemma_neutral(a.recip());
}

/// A product of two elements is zero only if a factor is.
pub proof fn lemma_no_zero_divisors<F: Field>(a: F, b: F)
    requires
        norm(a) != F::zero(),
        norm(b) != F::zero(),
    ensures
        a.times(b) != F::zero(),
        a.times(b).recip() == a.recip().times(b.recip()),
{
    F::law_recip(a);
    F::law_recip(b);
    crate::ring::lemma_exchange(a, b, a.recip(), b.recip());
    lemma_neutral(F::one());
    F::law_constants();
    lemma_times_zero(a.recip().times(b.recip()));
    lemma_recip_unique(a.times(b), a.recip().times(b.recip()));
    lemma_norm(a.recip(), b.recip());
}

/// Returns the powers of the distinguished root of order `2^n_log`, starting with one.
pub fn two_adic_subgroup<R: TwoAdicRing>(n_log: usize) -> (r: Vec<R>)
    requires
        n_log <= R::adicity(),
        pow2(n_log as nat) <= usize::MAX,
    ensures
        r@ == powers(root_of::<R>(n_log as nat), pow2(n_log as nat)),
{
    let n: usize = power_of_two(n_log);
    let generator: R = primitive_root_of_unity(n_log);
    geometric(generator, n)
}

/// Returns the powers of `x` with exponents below `n`.
pub fn geometric<R: Ring>(x: R, n: usize) -> (r: Vec<R>)
    ensures
        r@ == powers(x, n as nat),
{
    let mut r: Vec<R> = Vec::new();
    let mut current: R = R::one_element();
    for i in 0..n
        invariant
            r@ == powers(x, i as nat),
            current == pow(x, i as nat),
    {
        r.push(current);
        assert(r@ =~= powers(x, (i + 1) as nat));
        current = current.mul(x);
    }
    r
}

/// Returns the multiplicative inverses of all elements, or nothing if one of them is zero.
pub fn batch_multiplicative_inverse<F: Field>(xs: &Vec<F>) -> (r: Option<Vec<F>>)
    ensures
        r is None <==> exists|i: int| 0 <= i < xs.len() && norm(#[trigger] xs@[i]) == F::zero(),
        r is Some ==> r->0@ == recips(xs@),
{
    let n: usize = xs.len();
    let mut r: Vec<F> = Vec::new();
    for i in 0..n
        invariant
            n == xs.len(),
            r@ == recips(xs@.take(i as int)),
            forall|k: int| 0 <= k < i ==> norm(#[trigger] xs@[k]) != F::zero(),
    {
        match xs[i].try_inverse() {
            Some(y) => {
                r.push(y);
                assert(r@ =~= recips(xs@.take(i + 1)));
            },
            None => {
                return None;
            },
        }
    }
    assert(xs@.take(n as int) =~= xs@);
    Some(r)
}

} // verus!
