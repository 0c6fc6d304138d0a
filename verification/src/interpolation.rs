//! A polynomial is determined by its values at as many points as it has coefficients.
use vstd::arithmetic::power2::{lemma_pow2_unfold, pow2};
use vstd::prelude::*;
use crate::field::{Field, lemma_no_zero_divisors, lemma_root_of, lemma_root_of_power, root_of};
use crate::polynomial::{coset_point, eval, interpolates, lemma_eval_norm, vanishes_from};
use crate::ring::{
    Ring, lemma_exchange, lemma_negated_sum, lemma_neutral, lemma_norm, lemma_plus_cancel,
    lemma_pow_add, lemma_pow_norm, lemma_pow_one, lemma_pow_pow, lemma_times_negated,
    lemma_times_zero, minus, norm, pow,
};

verus! {

/// Two elements with the difference zero are the same.
pub proof fn lemma_minus_zero<R: Ring>(a: R, b: R)
    ensures
        minus(a, b) == R::zero() <==> norm(a) == norm(b),
{
    R::law_neutral(b);
    R::law_commutes(b, b.negated());
    R::law_commutes(a, b.negated());
    lemma_norm(a, b.negated());
    lemma_norm(b, b.negated());
    if minus(a, b) == R::zero() {
        lemma_plus_cancel(b.negated(), a, b);
    }
}

/// A nonzero factor can be cancelled.
pub proof fn lemma_times_cancel<F: Field>(a: F, b: F, c: F)
    requires
        norm(a) != F::zero(),
        a.times(b) == a.times(c),
    ensures
        norm(b) == norm(c),
{
    F::law_recip(a);
    F::law_commutes(a.recip(), a);
    F::law_associates(a.recip(), a, b);
    F::law_associates(a.recip(), a, c);
    lemma_neutral(b);
    lemma_neutral(c);
}

/// The quotient of a polynomial by `x - a`.
pub open spec fn without_root<R: Ring>(c: Seq<R>, a: R) -> Seq<R>
    decreases c.len(),
{
    if c.len() <= 1 {
        Seq::empty()
    } else {
        let rest = c.drop_first();
        seq![eval(rest, a)] + without_root(rest, a)
    }
}

/// Division by `x - a` leaves the value at `a`.
proof fn lemma_without_root<R: Ring>(c: Seq<R>, a: R, x: R)
    ensures
        without_root(c, a).len() == if c.len() == 0 {
            0
        } else {
            c.len() - 1
        },
        eval(c, x) == eval(c, a).plus(minus(x, a).times(eval(without_root(c, a), x))),
    decreases c.len(),
{
    let q = without_root(c, a);
    let d = minus(x, a);
    lemma_times_zero(d);
    lemma_times_zero(x);
    lemma_times_zero(a);
    lemma_neutral(R::zero());
    if c.len() == 0 {
    } else if c.len() == 1 {
        assert(eval(c.drop_first(), x) == R::zero());
        assert(eval(c.drop_first(), a) == R::zero());
        lemma_norm(c[0], R::zero());
    } else {
        let rest = c.drop_first();
        let q1 = without_root(rest, a);
        lemma_without_root(rest, a, x);
        assert(q.drop_first() =~= q1);
        let v = eval(rest, a);
        let w = eval(q1, x);
        let dw = d.times(w);
        // x (v + d w) = x v + d (x w)
        R::law_distributes(x, v, dw);
        R::law_associates(x, d, w);
        R::law_commutes(x, d);
        R::law_associates(d, x, w);
        let xv = x.times(v);
        let dxw = d.times(x.times(w));
        // x v = a v + d v
        R::law_commutes(x, v);
        R::law_commutes(a, v);
        R::law_commutes(d, v);
        R::law_distributes(v, a, d);
        assert(a.plus(d) == norm(x)) by {
            R::law_commutes(x, a.negated());
            R::law_associates(a, a.negated(), x);
            R::law_neutral(a);
            lemma_neutral(x);
        }
        lemma_norm(v, x);
        assert(xv == a.times(v).plus(d.times(v)));
        // c0 + ((a v + d v) + d x w) = (c0 + a v) + (d v + d x w)
        R::law_associates(a.times(v), d.times(v), dxw);
        R::law_associates(c[0], a.times(v), d.times(v).plus(dxw));
        R::law_distributes(d, v, x.times(w));
        assert(q[0] == v);
    }
}

/// A polynomial with a zero quotient and the value zero is zero.
proof fn lemma_without_root_zero<R: Ring>(c: Seq<R>, a: R)
    requires
        eval(c, a) == R::zero(),
        vanishes_from(without_root(c, a), 0),
    ensures
        vanishes_from(c, 0),
    decreases c.len(),
{
    if c.len() > 0 {
        let rest = c.drop_first();
        let v = eval(rest, a);
        lemma_times_zero(a);
        lemma_eval_norm(rest, a);
        if c.len() > 1 {
            let q = without_root(c, a);
            let q1 = without_root(rest, a);
            assert(q[0] == v);
            assert(norm(q[0]) == R::zero());
            assert forall|i: int| 0 <= i < q1.len() implies norm(#[trigger] q1[i])
                == R::zero() by {
                assert(q[i + 1] == q1[i]);
            }
            lemma_without_root_zero(rest, a);
        }
        assert(norm(c[0]) == R::zero());
        assert forall|i: int| 0 <= i < c.len() implies norm(#[trigger] c[i]) == R::zero() by {
            if i > 0 {
                assert(c[i] == rest[i - 1]);
            }
        }
    }
}

/// No two items stand for the same element.
pub open spec fn distinct<R: Ring>(xs: Seq<R>) -> bool {
    forall|i: int, j: int|
        0 <= i < j < xs.len() ==> norm(#[trigger] xs[i]) != norm(#[trigger] xs[j])
}

/// A polynomial that vanishes at as many points as it has coefficients is zero.
pub proof fn lemma_roots<F: Field>(c: Seq<F>, xs: Seq<F>)
    requires
        c.len() <= xs.len(),
        distinct(xs),
        forall|i: int| 0 <= i < xs.len() ==> eval(c, #[trigger] xs[i]) == F::zero(),
    ensures
        vanishes_from(c, 0),
    decreases c.len(),
{
    if c.len() > 0 {
        let a = xs[0];
        let q = without_root(c, a);
        let ys = xs.drop_first();
        lemma_without_root(c, a, a);
        assert(eval(c, a) == F::zero());
        assert forall|i: int| 0 <= i < ys.len() implies eval(q, #[trigger] ys[i]) == F::zero() by {
            let x = xs[i + 1];
            assert(ys[i] == x);
            assert(eval(c, x) == F::zero());
            lemma_without_root(c, a, x);
            lemma_minus_zero(x, a);
            let d = minus(x, a);
            lemma_norm(x, a.negated());
            lemma_norm(d, eval(q, x));
            lemma_neutral(d.times(eval(q, x)));
            lemma_eval_norm(q, x);
            if eval(q, x) != F::zero() {
                lemma_no_zero_divisors(d, eval(q, x));
            }
        }
        assert forall|i: int, j: int| 0 <= i < j < ys.len() implies norm(#[trigger] ys[i]) != norm(
            #[trigger] ys[j],
        ) by {
            assert(ys[i] == xs[i + 1] && ys[j] == xs[j + 1]);
        }
        lemma_roots(q, ys);
        lemma_without_root_zero(c, a);
    }
}

/// The differences of two sequences, item by item.
pub open spec fn differences<R: Ring>(c: Seq<R>, d: Seq<R>) -> Seq<R> {
    Seq::new(c.len(), |i: int| minus(c[i], d[i]))
}

/// The value of a difference is the difference of the values.
proof fn lemma_eval_differences<R: Ring>(c: Seq<R>, d: Seq<R>, x: R)
    requires
        c.len() == d.len(),
    ensures
        eval(differences(c, d), x) == minus(eval(c, x), eval(d, x)),
    decreases c.len(),
{
    if c.len() == 0 {
        R::law_neutral(R::zero());
    } else {
        let (c1, d1) = (c.drop_first(), d.drop_first());
        lemma_eval_differences(c1, d1, x);
        assert(differences(c, d).drop_first() =~= differences(c1, d1));
        let (v, w) = (eval(c1, x), eval(d1, x));
        R::law_distributes(x, v, w.negated());
        lemma_times_negated(x, w);
        lemma_exchange(c[0], d[0].negated(), x.times(v), x.times(w).negated());
        lemma_negated_sum(d[0], x.times(w));
    }
}

/// Polynomials with the same values at as many points as they have coefficients have the same
/// coefficients.
pub proof fn lemma_interpolation_unique<F: Field>(c: Seq<F>, d: Seq<F>, xs: Seq<F>)
    requires
        c.len() == d.len(),
        c.len() <= xs.len(),
        distinct(xs),
        forall|i: int| 0 <= i < xs.len() ==> eval(c, #[trigger] xs[i]) == eval(d, xs[i]),
    ensures
        forall|i: int| 0 <= i < c.len() ==> norm(#[trigger] c[i]) == norm(d[i]),
{
    let e = differences(c, d);
    assert forall|i: int| 0 <= i < xs.len() implies eval(e, #[trigger] xs[i]) == F::zero() by {
        lemma_eval_differences(c, d, xs[i]);
        F::law_neutral(eval(d, xs[i]));
    }
    lemma_roots(e, xs);
    assert forall|i: int| 0 <= i < c.len() implies norm(#[trigger] c[i]) == norm(d[i]) by {
        assert(norm(e[i]) == F::zero());
        lemma_norm(c[i], d[i].negated());
        lemma_minus_zero(c[i], d[i]);
    }
}

/// No lower power of a distinguished root is one.
pub proof fn lemma_root_order<F: Field>(k: nat, m: nat)
    requires
        k <= F::adicity(),
        0 < m < pow2(k),
    ensures
        pow(root_of::<F>(k), m) != F::one(),
    decreases k,
{
    let w = root_of::<F>(k);
    lemma_root_of::<F>(k);
    if k == 0 {
        vstd::arithmetic::power2::lemma2_to64();
    } else {
        lemma_pow2_unfold(k);
        let h = pow2((k - 1) as nat);
        if m % 2 == 0 {
            let j = m / 2;
            vstd::arithmetic::power2::lemma2_to64();
            lemma_root_of_power::<F>(k, 1);
            lemma_pow_pow(w, 2, j);
            assert(2 * j == m);
            lemma_root_order::<F>((k - 1) as nat, j);
        } else if pow(w, m) == F::one() {
            // An odd power of minus one would be one.
            let j = m / 2;
            let one = F::one();
            let minus_one = one.negated();
            lemma_pow_pow(w, m, h);
            lemma_pow_one::<F>(h);
            lemma_pow_pow(w, h, m);
            assert(m * h == h * m) by (nonlinear_arith);
            assert(pow(minus_one, m) == one);
            lemma_square_of_minus_one::<F>();
            lemma_pow_pow(minus_one, 2, j);
            lemma_pow_one::<F>(j);
            assert(m == 2 * j + 1);
            lemma_pow_add(minus_one, 2 * j, 1);
            lemma_pow_norm(minus_one, 1);
            lemma_norm(one, one);
            lemma_neutral(minus_one);
            F::law_neutral(one);
            F::law_two();
        }
    }
}

/// Minus one squared is one.
proof fn lemma_square_of_minus_one<R: Ring>()
    ensures
        pow(R::one().negated(), 2) == R::one(),
{
    let m = R::one().negated();
    reveal_with_fuel(pow, 3);
    lemma_neutral(m);
    lemma_norm(m, m);
    lemma_times_negated(m, R::one());
    crate::ring::lemma_negated_twice(R::one());
    lemma_neutral(R::one());
}

/// The points of a coset are distinct.
pub proof fn lemma_coset_points_distinct<F: Field>(shift: F, k: nat)
    requires
        k <= F::adicity(),
        norm(shift) != F::zero(),
    ensures
        distinct(Seq::new(pow2(k), |i: int| coset_point(shift, k, i as nat))),
{
    let w = root_of::<F>(k);
    let xs = Seq::new(pow2(k), |i: int| coset_point(shift, k, i as nat));
    assert forall|i: int, j: int| 0 <= i < j < xs.len() implies norm(#[trigger] xs[i]) != norm(
        #[trigger] xs[j],
    ) by {
        let (p, q) = (pow(w, i as nat), pow(w, j as nat));
        if norm(xs[i]) == norm(xs[j]) {
            lemma_norm(shift, p);
            lemma_norm(shift, q);
            lemma_times_cancel(shift, p, q);
            lemma_pow_norm(w, i as nat);
            lemma_pow_norm(w, j as nat);
            let m = (j - i) as nat;
            lemma_pow_add(w, i as nat, m);
            lemma_neutral(p);
            lemma_power_nonzero::<F>(k, i as nat);
            lemma_times_cancel(p, pow(w, m), F::one());
            lemma_pow_norm(w, m);
            lemma_neutral(F::one());
            lemma_root_order::<F>(k, m);
        }
    }
}

/// Powers of a distinguished root are not zero.
proof fn lemma_power_nonzero<F: Field>(k: nat, i: nat)
    requires
        k <= F::adicity(),
    ensures
        norm(pow(root_of::<F>(k), i)) != F::zero(),
{
    let w = root_of::<F>(k);
    let n = pow2(k);
    vstd::arithmetic::power2::lemma_pow2_pos(k);
    lemma_root_of::<F>(k);
    lemma_pow_pow(w, n, i);
    lemma_pow_one::<F>(i);
    F::law_constants();
    lemma_pow_norm(w, i);
    assert(n * i == i + (n - 1) * i) by (nonlinear_arith);
    assert(0 <= (n - 1) * i) by (nonlinear_arith)
        requires
            0 < n,
    ;
    lemma_pow_add(w, i, ((n - 1) * i) as nat);
    lemma_times_zero(pow(w, ((n - 1) * i) as nat));
}

/// There is only one polynomial with given values on a coset.
pub proof fn lemma_interpolates_unique<F: Field>(
    c: Seq<F>,
    d: Seq<F>,
    values: Seq<F>,
    shift: F,
    k: nat,
)
    requires
        k <= F::adicity(),
        norm(shift) != F::zero(),
        interpolates(c, values, shift, k),
        interpolates(d, values, shift, k),
    ensures
        forall|i: int| 0 <= i < c.len() ==> norm(#[trigger] c[i]) == norm(d[i]),
{
    let xs = Seq::new(pow2(k), |i: int| coset_point(shift, k, i as nat));
    lemma_coset_points_distinct(shift, k);
    lemma_interpolation_unique(c, d, xs);
}

} // verus!
