//! Polynomials by coefficients and by values on a coset of a two-power subgroup.
use vstd::arithmetic::power2::{lemma_pow2_unfold, pow2};
use vstd::prelude::*;
use crate::field::{
    Field, TwoAdicRing, geometric, lemma_root_of, powers, primitive_root_of_unity, root_of,
};
use crate::ring::{
    Ring, lemma_exchange, lemma_negated_sum, lemma_negated_twice, lemma_neutral, lemma_norm,
    lemma_pow_add, lemma_pow_norm, lemma_pow_one, lemma_pow_pow, lemma_pow_times,
    lemma_times_negated, lemma_times_zero, minus, norm, pow, subtract,
};
use crate::util::{
    chunked, is_log2_ceil, lemma_chunk_bounds, lemma_chunked_empty, lemma_chunked_step, log2_ceil,
};

verus! {

/// A polynomial given by its values on a domain of two-power size.
pub struct PolynomialValues<F> {
    pub values: Vec<F>,
}

/// A polynomial given by its coefficients, the constant one first.
pub struct PolynomialCoeffs<F> {
    pub coeffs: Vec<F>,
}

/// The value at `x` of the polynomial with the coefficients `c`.
pub open spec fn eval<R: Ring>(c: Seq<R>, x: R) -> R
    decreases c.len(),
{
    if c.len() == 0 {
        R::zero()
    } else {
        c[0].plus(x.times(eval(c.drop_first(), x)))
    }
}

/// The `i`-th point of the coset by `shift` of the subgroup of order `2^k`.
pub open spec fn coset_point<R: TwoAdicRing>(shift: R, k: nat, i: nat) -> R {
    shift.times(pow(root_of::<R>(k), i))
}

/// The polynomial `c` takes the given values on the coset by `shift` of the subgroup of order
/// `2^k`, in the order of the powers of its generator.
pub open spec fn interpolates<R: TwoAdicRing>(
    c: Seq<R>,
    values: Seq<R>,
    shift: R,
    k: nat,
) -> bool {
    &&& c.len() == values.len() == pow2(k)
    &&& forall|i: int|
        0 <= i < values.len() ==> eval(c, #[trigger] coset_point(shift, k, i as nat)) == norm(
            values[i],
        )
}

/// The items of two sequences in alternation.
pub open spec fn interleaved<T>(e: Seq<T>, o: Seq<T>) -> Seq<T> {
    Seq::new(
        2 * e.len(),
        |i: int|
            if i % 2 == 0 {
                e[i / 2]
            } else {
                o[i / 2]
            },
    )
}

/// The coefficients with the `j`-th one multiplied by `t * s^j`.
pub open spec fn scaled<R: Ring>(c: Seq<R>, s: R, t: R) -> Seq<R> {
    Seq::new(c.len(), |j: int| c[j].times(t.times(pow(s, j as nat))))
}

/// Values of polynomials are canonical and do not depend on the representation of the point.
pub proof fn lemma_eval_norm<R: Ring>(c: Seq<R>, x: R)
    ensures
        norm(eval(c, x)) == eval(c, x),
        eval(c, norm(x)) == eval(c, x),
    decreases c.len(),
{
    if c.len() == 0 {
        lemma_neutral(R::zero());
    } else {
        let rest = eval(c.drop_first(), x);
        lemma_eval_norm(c.drop_first(), x);
        lemma_norm(c[0], x.times(rest));
        lemma_norm(x, rest);
    }
}

/// A polynomial splits into its even and its odd part.
pub proof fn lemma_eval_interleaved<R: Ring>(e: Seq<R>, o: Seq<R>, x: R)
    requires
        e.len() == o.len(),
    ensures
        eval(interleaved(e, o), x) == eval(e, x.times(x)).plus(x.times(eval(o, x.times(x)))),
    decreases e.len(),
{
    let c = interleaved(e, o);
    let y = x.times(x);
    if e.len() == 0 {
        lemma_times_zero(x);
        lemma_neutral(R::zero());
    } else {
        let e1 = e.drop_first();
        let o1 = o.drop_first();
        lemma_eval_interleaved(e1, o1, x);
        assert(c.drop_first().drop_first() =~= interleaved(e1, o1));
        let a = eval(e1, y);
        let b = eval(o1, y);
        assert(eval(c.drop_first(), x) == o[0].plus(x.times(a.plus(x.times(b)))));
        // x (o0 + x (a + x b)) = x o0 + (y a + x (y b))
        R::law_distributes(x, o[0], x.times(a.plus(x.times(b))));
        R::law_associates(x, x, a.plus(x.times(b)));
        R::law_distributes(y, a, x.times(b));
        R::law_associates(y, x, b);
        R::law_commutes(y, x);
        R::law_associates(x, y, b);
        let ya = y.times(a);
        let xyb = x.times(y.times(b));
        let xo = x.times(o[0]);
        // e0 + (xo + (ya + xyb)) = (e0 + ya) + (xo + xyb)
        R::law_associates(e[0], xo, ya.plus(xyb));
        lemma_exchange(e[0], xo, ya, xyb);
        R::law_distributes(x, o[0], y.times(b));
    }
}

/// Scaling the coefficients geometrically moves the points of evaluation.
pub proof fn lemma_eval_scaled<R: Ring>(c: Seq<R>, s: R, t: R, x: R, y: R)
    requires
        y.times(s) == norm(x),
    ensures
        eval(scaled(c, s, t), y) == t.times(eval(c, x)),
    decreases c.len(),
{
    let d = scaled(c, s, t);
    if c.len() == 0 {
        lemma_times_zero(t);
    } else {
        let c1 = c.drop_first();
        let ts = t.times(s);
        assert forall|j: int| 0 <= j < c1.len() implies d.drop_first()[j] == #[trigger] scaled(
            c1,
            s,
            ts,
        )[j] by {
            let p = pow(s, j as nat);
            R::law_commutes(p, s);
            R::law_associates(t, s, p);
            assert(pow(s, (j + 1) as nat) == p.times(s));
        }
        assert(d.drop_first() =~= scaled(c1, s, ts));
        lemma_eval_scaled(c1, s, ts, x, y);
        let v = eval(c1, x);
        // y (t s v) = t (x v)
        R::law_associates(t, s, v);
        R::law_associates(y, t, s.times(v));
        R::law_commutes(y, t);
        R::law_associates(t, y, s.times(v));
        R::law_associates(y, s, v);
        lemma_norm(x, v);
        // c0 (t 1) = t c0
        lemma_neutral(t);
        lemma_norm(c[0], t);
        R::law_commutes(c[0], t);
        R::law_distributes(t, c[0], x.times(v));
    }
}

/// Half of the double of an element is the element.
proof fn lemma_half_of_double<R: Ring>(half: R, a: R)
    requires
        half.times(R::one().plus(R::one())) == R::one(),
    ensures
        half.times(a.plus(a)) == norm(a),
{
    let two = R::one().plus(R::one());
    R::law_distributes(a, R::one(), R::one());
    lemma_neutral(a);
    lemma_norm(a, a);
    lemma_norm(norm(a), a);
    lemma_norm(a, norm(a));
    assert(a.times(two) == a.plus(a));
    R::law_commutes(a, two);
    R::law_associates(half, two, a);
}

/// The even and the odd part recombine to the two values they were taken from.
proof fn lemma_butterfly<R: Ring>(half: R, p: R, q: R, a: R, b: R)
    requires
        half.times(R::one().plus(R::one())) == R::one(),
        p.times(q) == R::one(),
    ensures
        half.times(a.plus(b)).plus(p.times(half.times(q.times(minus(a, b))))) == norm(a),
        half.times(a.plus(b)).plus(p.negated().times(half.times(q.times(minus(a, b))))) == norm(b),
{
    let s = a.plus(b);
    let d = minus(a, b);
    let hd = half.times(d);
    // p (h (q d)) = h d
    R::law_associates(p, half, q.times(d));
    R::law_commutes(p, half);
    R::law_associates(half, p, q.times(d));
    R::law_associates(p, q, d);
    lemma_neutral(d);
    lemma_norm(half, d);
    assert(p.times(half.times(q.times(d))) == hd);
    lemma_times_negated(p, half.times(q.times(d)));
    assert(p.negated().times(half.times(q.times(d))) == hd.negated());
    // h s + h d = h (a + a)
    R::law_distributes(half, s, d);
    lemma_exchange(a, b, a, b.negated());
    R::law_neutral(b);
    lemma_norm(a, a);
    assert(s.plus(d) == a.plus(a));
    lemma_half_of_double(half, a);
    // h s - h d = h (b + b)
    lemma_times_negated(half, d);
    R::law_distributes(half, s, d.negated());
    lemma_negated_sum(a, b.negated());
    lemma_negated_twice(b);
    lemma_norm(a.negated(), b);
    assert(d.negated() == a.negated().plus(b));
    lemma_exchange(a, b, a.negated(), b);
    R::law_neutral(a);
    lemma_neutral(b.plus(b));
    lemma_norm(b, b);
    assert(s.plus(d.negated()) == b.plus(b));
    lemma_half_of_double(half, b);
}

/// A number has one binary logarithm.
pub proof fn lemma_log2_exact(n: nat, j: nat, k: nat)
    requires
        is_log2_ceil(n, j),
        n == pow2(k),
    ensures
        j == k,
{
    if k < j {
        assert(pow2(k) < n);
    }
    if j < k {
        vstd::arithmetic::power2::lemma_pow2_strictly_increases(j, k);
    }
}

/// Returns the coefficients of the polynomial with the given values at the powers of `w`.
fn ifft<F: Field>(values: &Vec<F>, k: usize, w: F, w_inv: F, half: F) -> (r: Vec<F>)
    requires
        values.len() == pow2(k as nat),
        k > 0 ==> pow(w, pow2((k - 1) as nat)) == F::one().negated(),
        w.times(w_inv) == F::one(),
        half.times(F::one().plus(F::one())) == F::one(),
    ensures
        r.len() == values.len(),
        forall|i: int| 0 <= i < values.len() ==> eval(r@, #[trigger] pow(w, i as nat)) == norm(
            values@[i],
        ),
    decreases k,
{
    let n: usize = values.len();
    if k == 0 {
        let mut r: Vec<F> = Vec::new();
        proof {
            vstd::arithmetic::power2::lemma2_to64();
            assert(pow(w, 0) == F::one());
            reveal_with_fuel(eval, 2);
            lemma_times_zero(F::one());
        }
        r.push(values[0]);
        return r;
    }
    proof {
        lemma_pow2_unfold(k as nat);
    }
    let m: usize = n / 2;
    let w_inv_powers: Vec<F> = geometric(w_inv, m);
    let mut even: Vec<F> = Vec::new();
    let mut odd: Vec<F> = Vec::new();
    for i in 0..m
        invariant
            n == 2 * m,
            n == values.len(),
            w_inv_powers@ == powers(w_inv, m as nat),
            even.len() == i,
            odd.len() == i,
            forall|j: int|
                0 <= j < i ==> #[trigger] even@[j] == half.times(values@[j].plus(values@[j + m])),
            forall|j: int|
                0 <= j < i ==> #[trigger] odd@[j] == half.times(
                    pow(w_inv, j as nat).times(minus(values@[j], values@[j + m])),
                ),
    {
        let a: F = values[i];
        let b: F = values[i + m];
        let sum: F = a.add(b);
        let difference: F = subtract(a, b);
        let twisted: F = w_inv_powers[i].mul(difference);
        even.push(half.mul(sum));
        odd.push(half.mul(twisted));
    }
    let w_squared: F = w.mul(w);
    let w_inv_squared: F = w_inv.mul(w_inv);
    proof {
        lemma_exchange(w, w, w_inv, w_inv);
        lemma_neutral(F::one());
        lemma_pow_norm(w, 1);
        assert(pow(w, 2) == w.times(w)) by {
            assert(pow(w, 2) == pow(w, 1).times(w));
            lemma_norm(w, w);
        }
        if k > 1 {
            lemma_pow2_unfold((k - 1) as nat);
            lemma_pow_pow(w, 2, pow2((k - 2) as nat));
        }
    }
    let e: Vec<F> = ifft(&even, k - 1, w_squared, w_inv_squared, half);
    let o: Vec<F> = ifft(&odd, k - 1, w_squared, w_inv_squared, half);
    let mut r: Vec<F> = Vec::new();
    for i in 0..m
        invariant
            e.len() == m,
            o.len() == m,
            r.len() == 2 * i,
            forall|j: int| 0 <= j < 2 * i ==> #[trigger] r@[j] == interleaved(e@, o@)[j],
    {
        r.push(e[i]);
        r.push(o[i]);
    }
    proof {
        assert(r@ =~= interleaved(e@, o@));
        assert forall|i: int| 0 <= i < n implies eval(r@, #[trigger] pow(w, i as nat)) == norm(
            values@[i],
        ) by {
            let j: int = if i < m {
                i
            } else {
                i - m
            };
            let p = pow(w, j as nat);
            let x = pow(w, i as nat);
            let y = pow(w_squared, j as nat);
            lemma_pow_times(w, w, j as nat);
            assert(y == p.times(p));
            lemma_pow_times(w, w_inv, j as nat);
            lemma_pow_one::<F>(j as nat);
            let a = values@[j];
            let b = values@[j + m];
            lemma_butterfly(half, p, pow(w_inv, j as nat), a, b);
            lemma_norm(half, a.plus(b));
            lemma_norm(half, pow(w_inv, j as nat).times(minus(a, b)));
            assert(eval(e@, y) == even@[j]);
            assert(eval(o@, y) == odd@[j]);
            lemma_eval_interleaved(e@, o@, x);
            if i >= m {
                lemma_pow_add(w, j as nat, m as nat);
                lemma_times_negated(p, F::one());
                lemma_neutral(p);
                lemma_pow_norm(w, j as nat);
                assert(x == p.negated());
                lemma_times_negated(p.negated(), p);
                lemma_times_negated(p, p);
                lemma_negated_twice(p.times(p));
                lemma_norm(p, p);
                assert(x.times(x) == p.times(p));
            }
        }
    }
    r
}

impl<F: Field> PolynomialValues<F> {
    /// The number of values is the order of a two-power subgroup of the field.
    pub open spec fn on_domain(self) -> bool {
        exists|k: nat| k <= F::adicity() && #[trigger] pow2(k) == self.values@.len()
    }

    /// Wraps the values.
    pub fn new(values: Vec<F>) -> (r: Self)
        ensures
            r.values == values,
    {
        PolynomialValues { values }
    }

    /// Returns the polynomial that takes these values on the coset by `shift`.
    pub fn coset_ifft(&self, shift: F) -> (r: PolynomialCoeffs<F>)
        requires
            self.on_domain(),
            norm(shift) != F::zero(),
        ensures
            forall|k: nat| #[trigger] pow2(k) == self.values@.len() ==> interpolates(
                r.coeffs@,
                self.values@,
                shift,
                k,
            ),
            is_canonical(r.coeffs@),
    {
        let k: usize = log2_ceil(self.values.len());
        let ghost kk = choose|kk: nat|
            kk <= F::adicity() && #[trigger] pow2(kk) == self.values@.len();
        proof {
            lemma_log2_exact(self.values@.len() as nat, k as nat, kk);
            lemma_root_of::<F>(k as nat);
            F::law_two();
            F::law_constants();
        }
        let w: F = primitive_root_of_unity(k);
        proof {
            // The root is invertible: one of its powers is one.
            if norm(w) == F::zero() {
                let n = pow2(k as nat);
                vstd::arithmetic::power2::lemma_pow2_pos(k as nat);
                lemma_times_zero(pow(w, (n - 1) as nat));
                assert(pow(w, n) == pow(w, (n - 1) as nat).times(w));
            }
        }
        let one: F = F::one_element();
        let two: F = one.add(one);
        proof {
            lemma_norm(F::one(), F::one());
            F::law_recip(two);
            F::law_commutes(two, two.recip());
            F::law_recip(w);
            F::law_recip(shift);
        }
        let half: F = two.try_inverse().unwrap();
        let w_inv: F = w.try_inverse().unwrap();
        let shift_inv: F = shift.try_inverse().unwrap();
        let c: Vec<F> = ifft(&self.values, k, w, w_inv, half);
        let n: usize = c.len();
        let factors: Vec<F> = geometric(shift_inv, n);
        let mut coeffs: Vec<F> = Vec::new();
        for j in 0..n
            invariant
                n == c.len(),
                factors@ == powers(shift_inv, n as nat),
                coeffs.len() == j,
                forall|i: int|
                    0 <= i < j ==> #[trigger] coeffs@[i] == c@[i].times(pow(shift_inv, i as nat)),
        {
            coeffs.push(c[j].mul(factors[j]));
        }
        proof {
            assert forall|i: int| 0 <= i < n implies coeffs@[i] == #[trigger] scaled(
                c@,
                shift_inv,
                F::one(),
            )[i] by {
                lemma_neutral(pow(shift_inv, i as nat));
                lemma_pow_norm(shift_inv, i as nat);
            }
            assert(coeffs@ =~= scaled(c@, shift_inv, F::one()));
            assert forall|i: int| 0 <= i < n implies norm(#[trigger] coeffs@[i]) == coeffs@[i] by {
                lemma_norm(c@[i], pow(shift_inv, i as nat));
            }
            assert forall|i: int| 0 <= i < n implies eval(
                coeffs@,
                #[trigger] coset_point(shift, k as nat, i as nat),
            ) == norm(self.values@[i]) by {
                let x = pow(w, i as nat);
                let y = shift.times(x);
                F::law_commutes(shift, x);
                F::law_associates(x, shift, shift_inv);
                lemma_neutral(x);
                lemma_eval_scaled(c@, shift_inv, F::one(), x, y);
                lemma_neutral(eval(c@, x));
                lemma_eval_norm(c@, x);
            }
            assert forall|j: nat| #[trigger] pow2(j) == self.values@.len() implies interpolates(
                coeffs@,
                self.values@,
                shift,
                j,
            ) by {
                lemma_log2_exact(self.values@.len() as nat, k as nat, j);
            }
        }
        PolynomialCoeffs { coeffs }
    }
}

/// Every element is in canonical representation.
pub open spec fn is_canonical<R: Ring>(c: Seq<R>) -> bool {
    forall|i: int| 0 <= i < c.len() ==> norm(#[trigger] c[i]) == c[i]
}

/// The trailing coefficients from position `len` on are all zero.
pub open spec fn vanishes_from<R: Ring>(c: Seq<R>, len: nat) -> bool {
    forall|i: int| len <= i < c.len() ==> norm(#[trigger] c[i]) == R::zero()
}

/// The value at `x` of the polynomial whose pieces, of degree below `size`, are given.
pub open spec fn recombined<R: Ring>(pieces: Seq<Seq<R>>, size: nat, x: R) -> R
    decreases pieces.len(),
{
    if pieces.len() == 0 {
        R::zero()
    } else {
        eval(pieces[0], x).plus(pow(x, size).times(recombined(pieces.drop_first(), size, x)))
    }
}

/// A polynomial splits at any position.
pub proof fn lemma_eval_concat<R: Ring>(a: Seq<R>, b: Seq<R>, x: R)
    ensures
        eval(a + b, x) == eval(a, x).plus(pow(x, a.len()).times(eval(b, x))),
    decreases a.len(),
{
    let v = eval(b, x);
    lemma_eval_norm(b, x);
    if a.len() == 0 {
        assert(a + b =~= b);
        lemma_neutral(v);
    } else {
        let a1 = a.drop_first();
        assert((a + b).drop_first() =~= a1 + b);
        lemma_eval_concat(a1, b, x);
        let p = pow(x, a1.len());
        R::law_distributes(x, eval(a1, x), p.times(v));
        R::law_associates(x, p, v);
        R::law_commutes(x, p);
        R::law_associates(a[0], x.times(eval(a1, x)), p.times(x).times(v));
    }
}

/// Zero coefficients at the end do not change the values of a polynomial.
pub proof fn lemma_eval_trimmed<R: Ring>(c: Seq<R>, len: nat, x: R)
    requires
        len <= c.len(),
        vanishes_from(c, len),
    ensures
        eval(c.take(len as int), x) == eval(c, x),
{
    let a = c.take(len as int);
    let b = c.skip(len as int);
    assert(a + b =~= c);
    lemma_eval_concat(a, b, x);
    lemma_eval_zeros(b, x);
    lemma_times_zero(pow(x, len));
    lemma_eval_norm(a, x);
}

/// A polynomial with zero coefficients is zero everywhere.
proof fn lemma_eval_zeros<R: Ring>(c: Seq<R>, x: R)
    requires
        vanishes_from(c, 0),
    ensures
        eval(c, x) == R::zero(),
    decreases c.len(),
{
    if c.len() > 0 {
        assert forall|i: int| 0 <= i < c.drop_first().len() implies norm(
            #[trigger] c.drop_first()[i],
        ) == R::zero() by {
            assert(norm(c[i + 1]) == R::zero());
        }
        lemma_eval_zeros(c.drop_first(), x);
        lemma_times_zero(x);
        assert(norm(c[0]) == R::zero());
    }
}

/// The pieces into which a polynomial is split recombine to it.
pub proof fn lemma_eval_chunked<R: Ring>(c: Seq<R>, size: nat, x: R)
    requires
        0 < size,
    ensures
        recombined(chunked(c, size), size, x) == eval(c, x),
    decreases c.len(),
{
    if c.len() == 0 {
        lemma_chunked_empty(c, size);
    } else {
        lemma_chunked_step(c, size);
        let m: nat = if size < c.len() {
            size
        } else {
            c.len()
        };
        let a = c.take(m as int);
        let b = c.skip(m as int);
        lemma_eval_chunked(b, size, x);
        assert(a + b =~= c);
        lemma_eval_concat(a, b, x);
        if m < size {
            assert(eval(b, x) == R::zero());
            lemma_times_zero(pow(x, size));
            lemma_times_zero(pow(x, m));
        }
    }
}

impl<F: Field> PolynomialCoeffs<F> {
    /// Wraps the coefficients.
    pub fn new(coeffs: Vec<F>) -> (r: Self)
        ensures
            r.coeffs == coeffs,
    {
        PolynomialCoeffs { coeffs }
    }

    /// Drops the coefficients from position `len` on, which must exist and be zero. Returns
    /// `false`, and leaves the polynomial as it is, if they are not.
    pub fn trim_to_len(&mut self, len: usize) -> (ok: bool)
        ensures
            ok <==> len <= old(self).coeffs@.len() && vanishes_from(
                old(self).coeffs@,
                len as nat,
            ),
            ok ==> final(self).coeffs@ == old(self).coeffs@.take(len as int),
            !ok ==> *final(self) == *old(self),
    {
        let n: usize = self.coeffs.len();
        if n < len {
            return false;
        }
        let zero: F = F::zero_element();
        proof {
            lemma_neutral(F::zero());
        }
        for i in len..n
            invariant
                n == self.coeffs.len(),
                *self == *old(self),
                norm(zero) == F::zero(),
                forall|j: int| len <= j < i ==> norm(#[trigger] self.coeffs@[j]) == F::zero(),
        {
            if !self.coeffs[i].equals(zero) {
                return false;
            }
        }
        self.coeffs.truncate(len);
        assert(self.coeffs@ =~= old(self).coeffs@.take(len as int));
        true
    }

    /// Splits the polynomial into pieces of `size` coefficients; the last one may be shorter.
    pub fn chunks(&self, size: usize) -> (r: Vec<PolynomialCoeffs<F>>)
        requires
            0 < size,
        ensures
            coefficients(r@) == chunked(self.coeffs@, size as nat),
    {
        let n: usize = self.coeffs.len();
        let mut r: Vec<PolynomialCoeffs<F>> = Vec::new();
        let mut start: usize = 0;
        proof {
            lemma_chunk_bounds(n as nat, size as nat, 0);
            assert(r.len() * size == 0) by (nonlinear_arith)
                requires
                    r.len() == 0,
            ;
        }
        while start < n
            invariant
                n == self.coeffs.len(),
                0 < size,
                start <= n,
                start == r.len() * size || start == n,
                r.len() <= chunked(self.coeffs@, size as nat).len(),
                start == n ==> r.len() == chunked(self.coeffs@, size as nat).len(),
                forall|j: int|
                    0 <= j < r.len() ==> (#[trigger] r@[j]).coeffs@ == chunked(
                        self.coeffs@,
                        size as nat,
                    )[j],
            decreases n - start,
        {
            let stop: usize = if n - start < size {
                n
            } else {
                start + size
            };
            let mut piece: Vec<F> = Vec::new();
            for i in start..stop
                invariant
                    n == self.coeffs.len(),
                    start <= stop <= n,
                    piece@ == self.coeffs@.subrange(start as int, i as int),
            {
                piece.push(self.coeffs[i]);
                assert(piece@ =~= self.coeffs@.subrange(start as int, i + 1));
            }
            proof {
                lemma_chunk_bounds(n as nat, size as nat, r.len() as nat);
            }
            r.push(PolynomialCoeffs { coeffs: piece });
            start = stop;
        }
        assert(coefficients(r@) =~= chunked(self.coeffs@, size as nat));
        r
    }
}

/// The coefficients of several polynomials.
pub open spec fn coefficients<F>(polys: Seq<PolynomialCoeffs<F>>) -> Seq<Seq<F>> {
    Seq::new(polys.len(), |i: int| polys[i].coeffs@)
}

/// The values of several polynomials.
pub open spec fn values_of<F>(polys: Seq<PolynomialValues<F>>) -> Seq<Seq<F>> {
    Seq::new(polys.len(), |i: int| polys[i].values@)
}

} // verus!
