//! What the permutation argument shows: if copied wires agree, the polynomial `Z` returns to one.
use vstd::arithmetic::div_mod::lemma_fundamental_div_mod_converse;
use vstd::prelude::*;
use crate::field::Field;
use crate::permutation::{PermutationInputs, grand_denominator, grand_numerator, lemma_z_telescopes};
use crate::ring::{Ring, lemma_norm, lemma_product_concat, norm, product};
use crate::util::ceil_div;

verus! {

impl<F: Field> PermutationInputs<F> {
    /// The number of routed wires in all rows.
    pub open spec fn num_places(self) -> nat {
        self.subgroup.len() * self.routed
    }

    /// The value of the routed wire with the number `t`, counted row by row.
    pub open spec fn wire_at(self, t: int) -> F {
        (self.wires)(t / self.routed as int, t % self.routed as int)
    }

    /// The identity of the routed wire with the number `t`.
    pub open spec fn identity_at(self, t: int) -> F {
        self.k_is[t % self.routed as int].times(self.subgroup[t / self.routed as int])
    }

    /// The image of the routed wire with the number `t`.
    pub open spec fn image_at(self, t: int) -> F {
        (self.sigmas)(t / self.routed as int, t % self.routed as int)
    }

    /// The images are the identities of the wires that `copy` exchanges, and wires that it
    /// exchanges carry the same value.
    pub open spec fn satisfies_copies(self, copy: spec_fn(int) -> int) -> bool {
        &&& is_injection(copy, self.num_places())
        &&& forall|t: int|
            0 <= t < self.num_places() ==> {
                &&& norm(#[trigger] self.image_at(t)) == self.identity_at(copy(t))
                &&& norm(self.wire_at(t)) == norm(self.wire_at(copy(t)))
            }
    }

    /// The numerators of the first `n` rows, one after the other.
    pub open spec fn first_numerators(self, n: nat) -> Seq<F> {
        Seq::new(
            n * self.routed,
            |t: int| self.numerators(t / self.routed as int)[t % self.routed as int],
        )
    }

    /// The denominators of the first `n` rows, one after the other.
    pub open spec fn first_denominators(self, n: nat) -> Seq<F> {
        Seq::new(
            n * self.routed,
            |t: int| self.denominators(t / self.routed as int)[t % self.routed as int],
        )
    }
}

/// The function maps the numbers below `n` to different numbers below `n`.
pub open spec fn is_injection(f: spec_fn(int) -> int, n: nat) -> bool {
    &&& forall|t: int| 0 <= t < n ==> 0 <= #[trigger] f(t) < n
    &&& forall|t: int, u: int| 0 <= t < u < n ==> #[trigger] f(t) != #[trigger] f(u)
}

/// A factor can be moved to the end of a product.
proof fn lemma_product_remove<R: Ring>(s: Seq<R>, m: int)
    requires
        0 <= m < s.len(),
    ensures
        product(s) == product(s.remove(m)).times(s[m]),
{
    let (a, x, b) = (s.take(m), s[m], s.skip(m + 1));
    let (p, q) = (product(a), product(b));
    assert(s =~= a.push(x) + b);
    assert(s.remove(m) =~= a + b);
    lemma_product_concat(a.push(x), b);
    lemma_product_concat(a, b);
    assert(a.push(x).drop_last() =~= a);
    // (p x) q = (p q) x
    R::law_associates(p, x, q);
    R::law_commutes(x, q);
    R::law_associates(p, q, x);
}

/// The order of the factors does not matter.
pub proof fn lemma_product_reordered<R: Ring>(s: Seq<R>, t: Seq<R>, f: spec_fn(int) -> int)
    requires
        s.len() == t.len(),
        is_injection(f, s.len()),
        forall|i: int| 0 <= i < s.len() ==> #[trigger] t[i] == s[f(i)],
    ensures
        product(s) == product(t),
    decreases s.len(),
{
    let n = s.len();
    if n > 0 {
        let m = f(n - 1);
        let rest = s.remove(m);
        let front = t.drop_last();
        let g = |i: int|
            if f(i) < m {
                f(i)
            } else {
                f(i) - 1
            };
        assert forall|i: int| 0 <= i < n - 1 implies 0 <= #[trigger] g(i) < n - 1 && front[i]
            == rest[g(i)] by {
            assert(f(i) != f(n - 1));
            assert(front[i] == t[i]);
        }
        assert forall|i: int, j: int| 0 <= i < j < n - 1 implies #[trigger] g(i)
            != #[trigger] g(j) by {
            assert(f(i) != f(j));
            assert(f(i) != f(n - 1));
            assert(f(j) != f(n - 1));
        }
        lemma_product_reordered(rest, front, g);
        lemma_product_remove(s, m);
        assert(t.last() == s[m]);
    } else {
        assert(s =~= t);
    }
}

/// The products over all rows are products over all places.
proof fn lemma_grand_products<F: Field>(p: PermutationInputs<F>, n: nat)
    ensures
        grand_numerator(p, n) == product(p.first_numerators(n)),
        grand_denominator(p, n) == product(p.first_denominators(n)),
    decreases n,
{
    let r = p.routed;
    if n > 0 {
        let m = (n - 1) as nat;
        lemma_grand_products(p, m);
        assert(n * r == m * r + r) by (nonlinear_arith)
            requires
                n == m + 1,
        ;
        assert forall|t: int| m * r <= t < n * r implies #[trigger] (t / r as int) == m && t
            % r as int == t - m * r by {
            lemma_fundamental_div_mod_converse(t, r as int, m as int, t - m * r);
        }
        assert(p.first_numerators(n) =~= p.first_numerators(m) + p.numerators(m as int));
        assert(p.first_denominators(n) =~= p.first_denominators(m) + p.denominators(m as int));
        lemma_product_concat(p.first_numerators(m), p.numerators(m as int));
        lemma_product_concat(p.first_denominators(m), p.denominators(m as int));
    } else {
        assert(n * r == 0) by (nonlinear_arith)
            requires
                n == 0,
        ;
    }
}

/// If the copy constraints are satisfied, then the polynomial `Z` returns to one after the last
/// row.
pub proof fn lemma_copies_close<F: Field>(
    p: PermutationInputs<F>,
    size: nat,
    num_prods: nat,
    copy: spec_fn(int) -> int,
)
    requires
        0 < size,
        num_prods + 1 == ceil_div(p.routed, size),
        p.all_invertible(),
        p.satisfies_copies(copy),
    ensures
        p.z(size, num_prods, p.subgroup.len()) == F::one(),
{
    let n = p.subgroup.len();
    let r = p.routed as int;
    let (num, den) = (p.first_numerators(n), p.first_denominators(n));
    lemma_grand_products(p, n);
    assert forall|t: int| 0 <= t < num.len() implies #[trigger] den[t] == num[copy(t)] by {
        let u = copy(t);
        lemma_place(p, t);
        lemma_place(p, u);
        let (w, v) = (p.wire_at(t), p.wire_at(u));
        assert(norm(p.image_at(t)) == p.identity_at(u));
        lemma_norm(p.beta, p.image_at(t));
        let b = p.beta.times(p.identity_at(u));
        assert(p.beta.times(p.image_at(t)) == b);
        lemma_norm(w, b);
        lemma_norm(v, b);
        assert(w.plus(b) == v.plus(b));
    }
    lemma_product_reordered(num, den, copy);
    lemma_z_telescopes(p, size, num_prods, n);
}

/// A place lies in a row and a column.
proof fn lemma_place<F: Field>(p: PermutationInputs<F>, t: int)
    requires
        0 <= t < p.num_places(),
    ensures
        0 <= t / p.routed as int,
        t / (p.routed as int) < p.subgroup.len(),
        0 <= t % p.routed as int,
        t % (p.routed as int) < p.routed,
{
    let r = p.routed as int;
    let n = p.subgroup.len() as int;
    assert(0 < r) by (nonlinear_arith)
        requires
            0 <= t < n * r,
            0 <= n,
            0 <= r,
    ;
    assert(0 <= t / r < n && 0 <= t % r < r) by (nonlinear_arith)
        requires
            0 <= t < n * r,
            0 < r,
    ;
}

} // verus!
