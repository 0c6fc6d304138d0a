//! Laws of the integer helpers and of the tables.
use vstd::arithmetic::div_mod::{
    lemma_div_denominator, lemma_fundamental_div_mod, lemma_fundamental_div_mod_converse,
};
use vstd::arithmetic::power2::{lemma_pow2_adds, lemma_pow2_pos, lemma_pow2_unfold, pow2};
use vstd::prelude::*;
use crate::field::{Field, root_of};
use crate::laws::quotients::commits_to;
use crate::oracle::PolynomialBatch;
use crate::polynomial::eval;
use crate::ring::pow;
use crate::util::{
    ceil_div_usize, has_width, lemma_chunk_bounds, lemma_reversed_bound, log2_ceil, reverse_bits,
    reversed, rows, transpose,
};

verus! {

/// Reversal exchanges binary digits: the digit at position `i` comes from the position as far from
/// the other end.
pub proof fn law_reversed(n: nat, bits: nat, i: nat)
    requires
        i < bits,
    ensures
        (reversed(n, bits) / pow2(i)) % 2 == (n / pow2((bits - 1 - i) as nat)) % 2,
    decreases bits,
{
    let k = (bits - 1) as nat;
    let rest = reversed(n / 2, k);
    let high = n % 2;
    lemma_reversed_bound(n / 2, k);
    lemma_pow2_pos(k);
    lemma_pow2_pos(i);
    vstd::arithmetic::power2::lemma2_to64();
    let r = reversed(n, bits);
    assert(r == high * pow2(k) + rest);
    if i == k {
        lemma_fundamental_div_mod_converse(r as int, pow2(k) as int, high as int, rest as int);
        vstd::arithmetic::div_mod::lemma_div_basics(n as int);
        assert(r / pow2(i) == high);
        assert(n / pow2(0) == n);
    } else {
        law_reversed(n / 2, k, i);
        let d = (k - i) as nat;
        lemma_pow2_adds(i, d);
        lemma_pow2_unfold(d);
        let half = pow2((d - 1) as nat);
        let p = pow2(i) as int;
        let q = rest as int / p;
        lemma_fundamental_div_mod(rest as int, p);
        let m = high * (2 * half) + q;
        assert(r == m * p + rest as int % p) by (nonlinear_arith)
            requires
                r == high * pow2(k) + rest,
                pow2(k) == p * pow2(d),
                pow2(d) == 2 * half,
                rest == p * q + rest as int % p,
                m == high * (2 * half) + q,
        ;
        lemma_fundamental_div_mod_converse(r as int, p, m, rest as int % p);
        assert(m == 2 * (high * half) + q) by (nonlinear_arith)
            requires
                m == high * (2 * half) + q,
        ;
        assert(m % 2 == q % 2);
        let e = (k - 1 - i) as nat;
        lemma_pow2_pos(e);
        lemma_div_denominator(n as int, 2, pow2(e) as int);
        assert(r / pow2(i) == m);
        assert(2 * pow2(e) == pow2(d));
        assert((n / 2) / pow2(e) == n / pow2(d));
    }
}

/// The number that is computed has the binary digits in reverse order.
pub proof fn law_reverse_bits(n: usize, bits: usize, r: usize, i: nat)
    requires
        pow2(bits as nat) <= usize::MAX,
        call_ensures(reverse_bits, (n, bits), r),
        i < bits,
    ensures
        r < pow2(bits as nat),
        (r as nat / pow2(i)) % 2 == (n as nat / pow2((bits - 1 - i) as nat)) % 2,
{
    law_reversed(n as nat, bits as nat, i);
}

/// Rounded-up logarithms: the power of two reaches the number, and the one below it does not.
pub proof fn law_log2_ceil(n: usize, k: usize)
    requires
        call_ensures(log2_ceil, (n,), k),
    ensures
        n <= pow2(k as nat),
        k > 0 ==> pow2((k - 1) as nat) < n,
{
}

/// Rounded-up quotients: that many blocks reach, and one less does not.
pub proof fn law_ceil_div(a: usize, b: usize, r: usize)
    requires
        0 < b,
        call_ensures(ceil_div_usize, (a, b), r),
    ensures
        a <= r * b,
        r > 0 ==> (r - 1) * b < a,
{
    lemma_chunk_bounds(a as nat, b as nat, r as nat);
    if r > 0 {
        lemma_chunk_bounds(a as nat, b as nat, (r - 1) as nat);
    }
}

/// The transpose has the entry of row `i` and column `c` in row `c` and column `i`.
pub proof fn law_transpose<T: Copy>(m: &Vec<Vec<T>>, r: Vec<Vec<T>>, i: int, c: int)
    requires
        0 < m@.len(),
        has_width(rows(m@), m@[0].len() as nat),
        call_ensures(transpose::<T>, (m,), r),
        0 <= i < m@.len(),
        0 <= c < m@[0].len(),
    ensures
        r@.len() == m@[0].len(),
        r@[c].len() == m@.len(),
        r@[c]@[i] == m@[i]@[c],
{
    assert(rows(r@).len() == r@.len());
    assert(rows(r@)[c] == r@[c]@);
    assert(rows(m@)[i] == m@[i]@);
}

/// The values that a committed batch gives at index `index * step` are those of its polynomials at
/// that point of the extended domain; blinding values are left out.
pub proof fn law_committed_values<F: Field, C>(
    batch: &PolynomialBatch<F, C>,
    index: usize,
    step: usize,
    r: &[F],
    polys: Seq<Seq<F>>,
    p: int,
)
    requires
        batch.wf(polys.len()),
        index * step < batch.leaves@.len(),
        call_ensures(PolynomialBatch::<F, C>::get_lde_values, (batch, index, step), r),
        commits_to(*batch, (batch.degree_log + batch.rate_bits) as nat, polys),
        0 <= p < polys.len(),
    ensures
        r@.len() == polys.len(),
        r@[p] == eval(
            polys[p],
            F::shift().times(
                pow(
                    root_of::<F>((batch.degree_log + batch.rate_bits) as nat),
                    (index * step) as nat,
                ),
            ),
        ),
{
    let k = (batch.degree_log + batch.rate_bits) as nat;
    assert(0 <= index * step) by (nonlinear_arith);
    let s = index * step;
    lemma_reversed_bound(s as nat, k);
    let leaf = batch.leaves@[reversed(s as nat, k) as int];
    assert(leaf.len() == polys.len() + batch.salt_size);
    assert(leaf@[p] == eval(polys[p], F::shift().times(pow(root_of::<F>(k), s as nat))));
}

} // verus!
