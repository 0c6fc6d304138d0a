//! The polynomial that vanishes on a subgroup, evaluated on a coset of a larger one.
use vstd::arithmetic::power2::{lemma_pow2_adds, lemma_pow2_pos, pow2};
use vstd::prelude::*;
use crate::field::{
    Field, batch_multiplicative_inverse, exp_power_of_2, lemma_root_of, lemma_root_of_periodic,
    lemma_root_of_power, powers, recips, root_of, two_adic_subgroup,
};
use crate::polynomial::coset_point;
use crate::ring::{
    Ring, lemma_neutral, lemma_norm, lemma_plus_cancel, lemma_pow_norm, lemma_pow_one,
    lemma_pow_pow, lemma_pow_times, minus, norm, pow, subtract,
};

verus! {

/// The value at `x` of the polynomial `X^(2^n_log) - 1`, which vanishes on the subgroup of that
/// order.
pub open spec fn vanishing_at<R: Ring>(n_log: nat, x: R) -> R {
    minus(pow(x, pow2(n_log)), R::one())
}

/// Precomputed values, and their inverses, of the polynomial that vanishes on the subgroup of
/// order `2^n_log`, on the shifted subgroup of order `2^(n_log + rate_bits)`. They repeat with
/// period `2^rate_bits`.
pub struct ZeroPolyOnCoset<F> {
    pub n_log: usize,
    pub rate_bits: usize,
    pub evals: Vec<F>,
    pub inverses: Vec<F>,
}

/// The point to which the index `i` of the large domain refers.
pub open spec fn domain_point<F: Field>(n_log: nat, rate_bits: nat, i: nat) -> F {
    coset_point(F::shift(), n_log + rate_bits, i)
}

/// The vanishing polynomial on the large domain, through the small subgroup of its period.
pub proof fn lemma_vanishing_periodic<F: Field>(n_log: nat, rate_bits: nat, i: nat)
    requires
        n_log + rate_bits <= F::adicity(),
    ensures
        pow(domain_point::<F>(n_log, rate_bits, i), pow2(n_log)) == pow(
            F::shift(),
            pow2(n_log),
        ).times(pow(root_of::<F>(rate_bits), i)),
        vanishing_at(n_log, domain_point::<F>(n_log, rate_bits, i)) == vanishing_at(
            n_log,
            domain_point::<F>(n_log, rate_bits, i % pow2(rate_bits)),
        ),
        0 < pow2(rate_bits),
{
    let k = n_log + rate_bits;
    let n = pow2(n_log);
    lemma_pow2_pos(rate_bits);
    let w = root_of::<F>(k);
    lemma_root_of_power::<F>(k, n_log);
    lemma_root_of_periodic::<F>(rate_bits, i);
    assert forall|j: nat| #[trigger] pow(domain_point::<F>(n_log, rate_bits, j), n) == pow(
        F::shift(),
        n,
    ).times(pow(root_of::<F>(rate_bits), j)) by {
        lemma_pow_times(F::shift(), pow(w, j), n);
        lemma_pow_pow(w, j, n);
        lemma_pow_pow(w, n, j);
        assert(j * n == n * j) by (nonlinear_arith);
    }
}

/// The shifted domain avoids the subgroup: the vanishing polynomial is nowhere zero on it.
pub proof fn lemma_vanishing_nonzero<F: Field>(n_log: nat, rate_bits: nat, i: nat)
    requires
        n_log + rate_bits <= F::adicity(),
    ensures
        vanishing_at(n_log, domain_point::<F>(n_log, rate_bits, i)) != F::zero(),
        norm(vanishing_at(n_log, domain_point::<F>(n_log, rate_bits, i))) == vanishing_at(
            n_log,
            domain_point::<F>(n_log, rate_bits, i),
        ),
{
    let x = domain_point::<F>(n_log, rate_bits, i);
    let n = pow2(n_log);
    let a = pow(x, n);
    lemma_norm(a, F::one().negated());
    if vanishing_at(n_log, x) == F::zero() {
        // Then the power is one, and so is a power of the shift.
        F::law_neutral(F::one());
        F::law_commutes(a, F::one().negated());
        F::law_commutes(F::one(), F::one().negated());
        lemma_plus_cancel(F::one().negated(), a, F::one());
        lemma_pow_norm(x, n);
        lemma_neutral(F::one());
        assert(a == F::one());
        let m = pow2(rate_bits);
        lemma_vanishing_periodic::<F>(n_log, rate_bits, i);
        let g = root_of::<F>(rate_bits);
        let s = F::shift();
        lemma_pow_times(pow(s, n), pow(g, i), m);
        lemma_pow_one::<F>(m);
        lemma_pow_pow(g, i, m);
        lemma_pow_pow(g, m, i);
        assert(i * m == m * i) by (nonlinear_arith);
        lemma_root_of::<F>(rate_bits);
        lemma_pow_one::<F>(i);
        lemma_pow_pow(s, n, m);
        lemma_pow2_adds(n_log, rate_bits);
        lemma_neutral(pow(s, n * m));
        lemma_pow_norm(s, n * m);
        assert(pow(s, n * m) == F::one());
        let rest = (F::adicity() - n_log - rate_bits) as nat;
        lemma_pow_pow(s, n * m, pow2(rest));
        lemma_pow2_adds(n_log + rate_bits, rest);
        lemma_pow_one::<F>(pow2(rest));
        F::law_shift();
    }
}

impl<F: Field> ZeroPolyOnCoset<F> {
    /// The tables hold what they are meant to hold.
    pub open spec fn wf(self) -> bool {
        &&& self.n_log + self.rate_bits <= F::adicity()
        &&& self.evals@.len() == pow2(self.rate_bits as nat)
        &&& self.inverses@ == recips(self.evals@)
        &&& forall|i: int|
            0 <= i < self.evals@.len() ==> #[trigger] self.evals@[i] == vanishing_at(
                self.n_log as nat,
                domain_point::<F>(self.n_log as nat, self.rate_bits as nat, i as nat),
            )
    }

    /// Precomputes the tables.
    pub fn new(n_log: usize, rate_bits: usize) -> (r: Self)
        requires
            n_log + rate_bits <= F::adicity(),
            pow2(rate_bits as nat) <= usize::MAX,
        ensures
            r.wf(),
            r.n_log == n_log,
            r.rate_bits == rate_bits,
    {
        let shift: F = F::coset_shift();
        let power: F = exp_power_of_2(shift, n_log);
        let one: F = F::one_element();
        let subgroup: Vec<F> = two_adic_subgroup(rate_bits);
        let rate: usize = subgroup.len();
        let mut evals: Vec<F> = Vec::new();
        for i in 0..rate
            invariant
                n_log + rate_bits <= F::adicity(),
                rate == subgroup.len(),
                rate == pow2(rate_bits as nat),
                one == F::one(),
                norm(power) == pow(F::shift(), pow2(n_log as nat)),
                subgroup@ == powers(
                    root_of::<F>(rate_bits as nat),
                    pow2(rate_bits as nat),
                ),
                evals.len() == i,
                forall|j: int|
                    0 <= j < i ==> #[trigger] evals@[j] == vanishing_at(
                        n_log as nat,
                        domain_point::<F>(n_log as nat, rate_bits as nat, j as nat),
                    ),
                forall|j: int| 0 <= j < i ==> norm(#[trigger] evals@[j]) != F::zero(),
        {
            let x: F = power.mul(subgroup[i]);
            proof {
                lemma_norm(power, subgroup@[i as int]);
                lemma_vanishing_periodic::<F>(n_log as nat, rate_bits as nat, i as nat);
                lemma_vanishing_nonzero::<F>(n_log as nat, rate_bits as nat, i as nat);
            }
            evals.push(subtract(x, one));
        }
        let inverses: Vec<F> = batch_multiplicative_inverse(&evals).unwrap();
        ZeroPolyOnCoset { n_log, rate_bits, evals, inverses }
    }

    /// Returns the value of the vanishing polynomial at the point with the index `i`.
    pub fn eval(&self, i: usize) -> (r: F)
        requires
            self.wf(),
        ensures
            r == vanishing_at(
                self.n_log as nat,
                domain_point::<F>(self.n_log as nat, self.rate_bits as nat, i as nat),
            ),
    {
        proof {
            lemma_vanishing_periodic::<F>(self.n_log as nat, self.rate_bits as nat, i as nat);
        }
        self.evals[i % self.evals.len()]
    }

    /// Returns the inverse of the value of the vanishing polynomial at the point with the index
    /// `i`.
    pub fn eval_inverse(&self, i: usize) -> (r: F)
        requires
            self.wf(),
        ensures
            r == vanishing_at(
                self.n_log as nat,
                domain_point::<F>(self.n_log as nat, self.rate_bits as nat, i as nat),
            ).recip(),
    {
        proof {
            lemma_vanishing_periodic::<F>(self.n_log as nat, self.rate_bits as nat, i as nat);
        }
        let j: usize = i % self.evals.len();
        assert(self.inverses@[j as int] == self.evals@[j as int].recip());
        self.inverses[j]
    }
}

} // verus!
