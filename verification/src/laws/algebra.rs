//! Laws of the algebra: what the operations on elements and polynomials compute.
use vstd::arithmetic::div_mod::{
    lemma_add_mod_noop, lemma_mod_twice, lemma_mul_mod_noop, lemma_small_mod,
};
use vstd::arithmetic::power2::pow2;
use vstd::prelude::*;
use crate::extension::QuadraticExtension;
use crate::field::{
    Field, TwoAdicRing, batch_multiplicative_inverse, exp_power_of_2, geometric, lemma_root_of,
    primitive_root_of_unity, root_of, two_adic_subgroup,
};
use crate::goldilocks::GoldilocksField;
use crate::polynomial::{
    PolynomialCoeffs, PolynomialValues, coefficients, eval, lemma_eval_concat, recombined,
};
use crate::prime::{inverse_modulo, order};
use crate::ring::{
    Ring, lemma_neutral, lemma_norm, lemma_pow_norm, lemma_times_zero, minus, norm, pow, product,
    subtract,
};
use crate::util::{chunked, lemma_chunk_bounds};
use crate::zero_poly_coset::{ZeroPolyOnCoset, domain_point, lemma_vanishing_nonzero, vanishing_at};

verus! {

/// Powers are repeated products.
pub proof fn law_pow<R: Ring>(x: R, n: nat)
    ensures
        pow(x, 0) == R::one(),
        pow(x, n + 1) == pow(x, n).times(x),
        pow(x, 1) == norm(x),
{
    lemma_pow_norm(x, 1);
}

/// The product of a sequence takes its items one by one.
pub proof fn law_product<R: Ring>(s: Seq<R>, x: R)
    ensures
        product(Seq::<R>::empty()) == R::one(),
        product(s.push(x)) == product(s).times(x),
{
    assert(s.push(x).drop_last() =~= s);
}

/// A polynomial's value is the sum of its coefficients times powers of the point: a coefficient
/// that is appended counts with the power of its position.
pub proof fn law_eval<R: Ring>(c: Seq<R>, a: R, x: R)
    ensures
        eval(Seq::<R>::empty(), x) == R::zero(),
        eval(c.push(a), x) == eval(c, x).plus(pow(x, c.len()).times(a)),
{
    let s = seq![a];
    assert(c.push(a) =~= c + s);
    lemma_eval_concat(c, s, x);
    assert(s.drop_first() =~= Seq::empty());
    lemma_times_zero(x);
    lemma_norm(pow(x, c.len()), a);
}

/// A difference undoes a sum, and sums with zero only change the representation.
pub proof fn law_difference<R: Ring>(a: R, b: R)
    ensures
        minus(a, b).plus(b) == norm(a),
        norm(a) == a.plus(R::zero()),
{
    R::law_associates(a, b.negated(), b);
    lemma_neutral(b);
    lemma_neutral(a);
}

/// The difference that is computed.
pub proof fn law_subtract<R: Ring>(a: R, b: R, r: R)
    requires
        call_ensures(subtract::<R>, (a, b), r),
    ensures
        r.plus(b) == norm(a),
{
    law_difference(a, b);
}

/// The field computes with integers modulo `2^64 - 2^32 + 1`.
pub proof fn law_goldilocks(a: GoldilocksField, b: GoldilocksField)
    ensures
        a.plus(b).0 == (a.0 + b.0) % 0xFFFF_FFFF_0000_0001,
        a.times(b).0 == (a.0 * b.0) % 0xFFFF_FFFF_0000_0001,
        (a.0 + a.negated().0) % 0xFFFF_FFFF_0000_0001 == 0,
        a.negated().0 < 0xFFFF_FFFF_0000_0001,
        norm(a).0 == a.0 % 0xFFFF_FFFF_0000_0001,
        GoldilocksField::zero().0 == 0,
        GoldilocksField::one().0 == 1,
        norm(a) != GoldilocksField::zero() ==> (a.0 * a.recip().0) % 0xFFFF_FFFF_0000_0001 == 1
            && a.recip().0 < 0xFFFF_FFFF_0000_0001,
{
    GoldilocksField::law_neutral(a);
    if norm(a) != GoldilocksField::zero() {
        GoldilocksField::law_recip(a);
    }
}

/// The canonical representative is below the order and stands for the same element; elements are
/// equal exactly if their representatives are.
pub proof fn law_canonical(a: &GoldilocksField, b: &GoldilocksField, r: u64, q: u64)
    requires
        call_ensures(GoldilocksField::to_canonical_u64, (a,), r),
        call_ensures(GoldilocksField::to_canonical_u64, (b,), q),
    ensures
        r < 0xFFFF_FFFF_0000_0001,
        norm(GoldilocksField(r)) == norm(*a),
        r as int == a.0 as int % 0xFFFF_FFFF_0000_0001,
        norm(*a) == norm(*b) <==> r == q,
{
    lemma_small_mod(r as nat, order() as nat);
    lemma_small_mod(q as nat, order() as nat);
}

/// The extension adjoins a square root of seven: the field is embedded, and elements are added and
/// multiplied as `a0 + a1 X` with `X^2 = 7`.
pub proof fn law_extension(a: QuadraticExtension, b: QuadraticExtension)
    ensures
        a.plus(b).0 == a.0.plus(b.0),
        a.plus(b).1 == a.1.plus(b.1),
        a.negated().0 == a.0.negated(),
        a.negated().1 == a.1.negated(),
        a.times(b).0 == a.0.times(b.0).plus(GoldilocksField(7).times(a.1.times(b.1))),
        a.times(b).1 == a.0.times(b.1).plus(a.1.times(b.0)),
        QuadraticExtension::one() == QuadraticExtension(GoldilocksField(1), GoldilocksField(0)),
        QuadraticExtension::zero() == QuadraticExtension(GoldilocksField(0), GoldilocksField(0)),
{
    let p = order();
    let (a0, a1, b0, b1) = (a.0.0 as int, a.1.0 as int, b.0.0 as int, b.1.0 as int);
    lemma_mod_twice(a0 * b0, p);
    lemma_mul_mod_noop(7, a1 * b1, p);
    lemma_small_mod(7, p as nat);
    lemma_add_mod_noop(a0 * b0, 7 * (a1 * b1), p);
    lemma_add_mod_noop(a0 * b1, a1 * b0, p);
}

/// The distinguished roots: the one of the highest order is the ring's own, and the square of each
/// is the next lower one, down to one.
pub proof fn law_roots<R: TwoAdicRing>(k: nat)
    requires
        k < R::adicity(),
    ensures
        root_of::<R>(R::adicity()) == R::root(),
        root_of::<R>(k) == root_of::<R>(k + 1).times(root_of::<R>(k + 1)),
        root_of::<R>(0) == R::one(),
{
    R::law_root();
    lemma_pow_norm(R::root(), 1);
    vstd::arithmetic::power2::lemma2_to64();
    crate::field::lemma_root_of_power::<R>(k + 1, 1);
    let w = root_of::<R>(k + 1);
    lemma_root_of::<R>(k + 1);
    lemma_root_of::<R>(0);
    reveal_with_fuel(pow, 3);
    lemma_neutral(w);
}

/// The root that is computed has the order that was asked for, and its squares are those that are
/// computed for lower orders.
pub proof fn law_primitive_root<R: TwoAdicRing>(n_log: usize, r: R, q: R)
    requires
        n_log < R::adicity(),
        call_ensures(primitive_root_of_unity::<R>, (n_log,), r),
        call_ensures(primitive_root_of_unity::<R>, ((n_log + 1) as usize,), q),
    ensures
        pow(r, pow2(n_log as nat)) == R::one(),
        n_log > 0 ==> pow(r, pow2((n_log - 1) as nat)) == R::one().negated(),
        q.times(q) == r,
{
    R::law_root();
    lemma_root_of::<R>(n_log as nat);
    law_roots::<R>(n_log as nat);
}

/// Repeated squaring raises to a power of two.
pub proof fn law_exp_power_of_2<R: Ring>(x: R, k: usize, r: R)
    requires
        call_ensures(exp_power_of_2::<R>, (x, k), r),
    ensures
        norm(r) == pow(x, pow2(k as nat)),
{
}

/// Lists of powers: they start with one, and each item is the one before it times the base.
pub proof fn law_geometric<R: Ring>(x: R, n: usize, r: Vec<R>, i: int)
    requires
        call_ensures(geometric::<R>, (x, n), r),
        0 <= i < n,
    ensures
        r@.len() == n,
        r@[0] == R::one(),
        i + 1 < n ==> r@[i + 1] == r@[i].times(x),
{
    law_pow(x, i as nat);
}

/// The subgroup lists the powers of its root.
pub proof fn law_subgroup<R: TwoAdicRing>(n_log: usize, r: Vec<R>, g: R, i: int)
    requires
        n_log <= R::adicity(),
        pow2(n_log as nat) <= usize::MAX,
        call_ensures(two_adic_subgroup::<R>, (n_log,), r),
        call_ensures(primitive_root_of_unity::<R>, (n_log,), g),
        0 <= i < r@.len(),
    ensures
        r@.len() == pow2(n_log as nat),
        r@[0] == R::one(),
        i + 1 < r@.len() ==> r@[i + 1] == r@[i].times(g),
        i + 1 == r@.len() ==> r@[i].times(g) == R::one(),
{
    law_pow(g, i as nat);
    lemma_root_of::<R>(n_log as nat);
}

/// Inverses of many elements: each times its element is one, and there are none exactly if an
/// element is zero.
pub proof fn law_batch_inverse<F: Field>(xs: &Vec<F>, r: Option<Vec<F>>, i: int)
    requires
        call_ensures(batch_multiplicative_inverse::<F>, (xs,), r),
        0 <= i < xs@.len(),
    ensures
        r is Some ==> r->0@.len() == xs@.len(),
        r is Some ==> xs@[i].times(r->0@[i]) == F::one(),
        r is None <==> exists|k: int| 0 <= k < xs@.len() && norm(#[trigger] xs@[k]) == F::zero(),
{
    if r is Some {
        assert(norm(xs@[i]) != F::zero());
        F::law_recip(xs@[i]);
    }
}

/// Interpolation on a coset: the polynomial takes the given values at the powers of the root times
/// the shift, in order.
pub proof fn law_coset_ifft<F: Field>(
    values: &PolynomialValues<F>,
    shift: F,
    r: PolynomialCoeffs<F>,
    k: nat,
    i: int,
)
    requires
        values.on_domain(),
        norm(shift) != F::zero(),
        call_ensures(PolynomialValues::<F>::coset_ifft, (values, shift), r),
        values.values@.len() == pow2(k),
        0 <= i < values.values@.len(),
    ensures
        r.coeffs@.len() == values.values@.len(),
        eval(r.coeffs@, shift.times(pow(root_of::<F>(k), i as nat))) == norm(values.values@[i]),
{
    assert(crate::polynomial::interpolates(r.coeffs@, values.values@, shift, k));
    assert(crate::polynomial::coset_point(shift, k, i as nat) == shift.times(
        pow(root_of::<F>(k), i as nat),
    ));
}

/// Splitting into chunks: `size` coefficients each, in order, but for the last one.
pub proof fn law_chunks<F: Field>(
    poly: &PolynomialCoeffs<F>,
    size: usize,
    r: Vec<PolynomialCoeffs<F>>,
    j: int,
)
    requires
        0 < size,
        call_ensures(PolynomialCoeffs::<F>::chunks, (poly, size), r),
        0 <= j < poly.coeffs@.len(),
    ensures
        r@.len() * size >= poly.coeffs@.len(),
        r@.len() > 0 ==> (r@.len() - 1) * size < poly.coeffs@.len(),
        j / (size as int) < r@.len(),
        j % (size as int) < r@[j / size as int].coeffs@.len() <= size,
        r@[j / size as int].coeffs@[j % size as int] == poly.coeffs@[j],
{
    let n = poly.coeffs@.len();
    let c = j / size as int;
    let m = j % size as int;
    assert(0 <= c && 0 <= m < size && j == c * size + m) by (nonlinear_arith)
        requires
            0 < size,
            0 <= j,
            c == j / size as int,
            m == j % size as int,
    ;
    assert(0 <= c * size) by (nonlinear_arith)
        requires
            0 <= c,
            0 < size,
    ;
    assert(coefficients(r@).len() == r@.len());
    lemma_chunk_bounds(n, size as nat, c as nat);
    lemma_chunk_bounds(n, size as nat, r@.len());
    if r@.len() > 0 {
        lemma_chunk_bounds(n, size as nat, (r@.len() - 1) as nat);
    }
    assert(coefficients(r@)[c] == r@[c].coeffs@);
    assert(chunked(poly.coeffs@, size as nat)[c][m] == poly.coeffs@[j]);
}

/// The vanishing polynomial on the shifted domain: `x^(2^n_log) - 1` at the point with the index
/// `i`, and its inverse.
pub proof fn law_vanishing<F: Field>(z_h: &ZeroPolyOnCoset<F>, i: usize, r: F, q: F)
    requires
        z_h.wf(),
        call_ensures(ZeroPolyOnCoset::<F>::eval, (z_h, i), r),
        call_ensures(ZeroPolyOnCoset::<F>::eval_inverse, (z_h, i), q),
    ensures
        ({
            let x = F::shift().times(
                pow(root_of::<F>((z_h.n_log + z_h.rate_bits) as nat), i as nat),
            );
            r.plus(F::one()) == pow(x, pow2(z_h.n_log as nat))
        }),
        r.times(q) == F::one(),
{
    let (n, b) = (z_h.n_log as nat, z_h.rate_bits as nat);
    let x = domain_point::<F>(n, b, i as nat);
    lemma_vanishing_nonzero::<F>(n, b, i as nat);
    law_difference(pow(x, pow2(n)), F::one());
    lemma_pow_norm(x, pow2(n));
    F::law_recip(vanishing_at(n, x));
}

/// The distinguished elements: the shift is seven, and the roots of the highest orders are these.
pub proof fn law_constants(shift: GoldilocksField, n: usize, m: usize)
    requires
        call_ensures(GoldilocksField::coset_shift, (), shift),
        call_ensures(GoldilocksField::two_adicity, (), n),
        call_ensures(QuadraticExtension::two_adicity, (), m),
    ensures
        shift == GoldilocksField(7),
        shift == GoldilocksField::shift(),
        n == 32,
        m == 33,
        root_of::<GoldilocksField>(32) == GoldilocksField(1753635133440165772),
        root_of::<QuadraticExtension>(33) == QuadraticExtension(
            GoldilocksField(0),
            GoldilocksField(15659105665374529263),
        ),
{
    law_roots::<GoldilocksField>(0);
    law_roots::<QuadraticExtension>(0);
}

/// Trimming cuts off coefficients that are zero, and only such: otherwise nothing changes.
pub proof fn law_trim<F: Field>(poly: &mut PolynomialCoeffs<F>, len: usize, ok: bool, i: int)
    requires
        call_ensures(PolynomialCoeffs::<F>::trim_to_len, (poly, len), ok),
        0 <= i < old(poly).coeffs@.len(),
    ensures
        ok && len <= i ==> norm(old(poly).coeffs@[i]) == F::zero(),
        ok ==> final(poly).coeffs@.len() == len && len <= old(poly).coeffs@.len(),
        ok && i < len ==> final(poly).coeffs@[i] == old(poly).coeffs@[i],
        !ok ==> *final(poly) == *old(poly),
        !ok ==> old(poly).coeffs@.len() < len || exists|k: int|
            len <= k < old(poly).coeffs@.len() && norm(#[trigger] old(poly).coeffs@[k])
                != F::zero(),
{
}

/// The tables of the vanishing polynomial hold its values at the first points of the shifted
/// domain, one for each power of the root of the period, and the inverses of these.
pub proof fn law_vanishing_table<F: Field>(
    n_log: usize,
    rate_bits: usize,
    r: ZeroPolyOnCoset<F>,
    i: int,
)
    requires
        n_log + rate_bits <= F::adicity(),
        pow2(rate_bits as nat) <= usize::MAX,
        call_ensures(ZeroPolyOnCoset::<F>::new, (n_log, rate_bits), r),
        0 <= i < pow2(rate_bits as nat),
    ensures
        r.n_log == n_log,
        r.rate_bits == rate_bits,
        r.evals@.len() == pow2(rate_bits as nat),
        r.inverses@.len() == pow2(rate_bits as nat),
        ({
            let x = F::shift().times(
                pow(root_of::<F>((n_log + rate_bits) as nat), i as nat),
            );
            r.evals@[i].plus(F::one()) == pow(x, pow2(n_log as nat))
        }),
        r.evals@[i].times(r.inverses@[i]) == F::one(),
{
    let (n, b) = (n_log as nat, rate_bits as nat);
    let x = domain_point::<F>(n, b, i as nat);
    lemma_vanishing_nonzero::<F>(n, b, i as nat);
    law_difference(pow(x, pow2(n)), F::one());
    lemma_pow_norm(x, pow2(n));
    F::law_recip(vanishing_at(n, x));
    assert(r.evals@[i] == vanishing_at(n, x));
    assert(r.inverses@[i] == r.evals@[i].recip());
}

/// The inverse modulo the order.
pub proof fn law_inverse_modulo(a: u64, r: u64)
    requires
        0 < a < 0xFFFF_FFFF_0000_0001,
        call_ensures(inverse_modulo, (a,), r),
    ensures
        (a * r) % 0xFFFF_FFFF_0000_0001 == 1,
        r < 0xFFFF_FFFF_0000_0001,
{
}

/// The operations of a ring, as they are computed: sum, product, additive inverse, the constants,
/// and equality of what two representations stand for.
pub proof fn law_operations<R: Ring>(
    a: R,
    b: R,
    sum: R,
    prod: R,
    opposite: R,
    zero: R,
    one: R,
    same: bool,
)
    requires
        call_ensures(R::add, (a, b), sum),
        call_ensures(R::mul, (a, b), prod),
        call_ensures(R::neg, (a,), opposite),
        call_ensures(R::zero_element, (), zero),
        call_ensures(R::one_element, (), one),
        call_ensures(R::equals, (a, b), same),
    ensures
        sum == a.plus(b),
        prod == a.times(b),
        a.plus(opposite) == zero,
        a.plus(zero) == norm(a),
        a.times(one) == norm(a),
        same <==> norm(a) == norm(b),
        norm(sum) == sum && norm(prod) == prod && norm(opposite) == opposite,
{
    R::law_neutral(a);
    lemma_norm(a, b);
}

/// The operations of the field, as they are computed, on integers modulo the order.
pub proof fn law_field_operations(
    a: GoldilocksField,
    b: GoldilocksField,
    sum: GoldilocksField,
    prod: GoldilocksField,
    opposite: GoldilocksField,
    inverse: Option<GoldilocksField>,
    same: bool,
)
    requires
        call_ensures(GoldilocksField::add, (a, b), sum),
        call_ensures(GoldilocksField::mul, (a, b), prod),
        call_ensures(GoldilocksField::neg, (a,), opposite),
        call_ensures(GoldilocksField::try_inverse, (a,), inverse),
        call_ensures(GoldilocksField::equals, (a, b), same),
    ensures
        sum.0 == (a.0 + b.0) % 0xFFFF_FFFF_0000_0001,
        prod.0 == (a.0 * b.0) % 0xFFFF_FFFF_0000_0001,
        (a.0 + opposite.0) % 0xFFFF_FFFF_0000_0001 == 0,
        opposite.0 < 0xFFFF_FFFF_0000_0001,
        inverse is None <==> a.0 as int % 0xFFFF_FFFF_0000_0001 == 0,
        inverse matches Some(i) ==> (a.0 * i.0) % 0xFFFF_FFFF_0000_0001 == 1 && i.0
            < 0xFFFF_FFFF_0000_0001,
        same <==> a.0 as int % 0xFFFF_FFFF_0000_0001 == b.0 as int % 0xFFFF_FFFF_0000_0001,
{
    law_goldilocks(a, b);
    law_goldilocks(b, a);
}

/// The operations of the extension, as they are computed, component by component.
pub proof fn law_extension_operations(
    a: QuadraticExtension,
    b: QuadraticExtension,
    sum: QuadraticExtension,
    prod: QuadraticExtension,
    opposite: QuadraticExtension,
    same: bool,
)
    requires
        call_ensures(QuadraticExtension::add, (a, b), sum),
        call_ensures(QuadraticExtension::mul, (a, b), prod),
        call_ensures(QuadraticExtension::neg, (a,), opposite),
        call_ensures(QuadraticExtension::equals, (a, b), same),
    ensures
        sum.0 == a.0.plus(b.0) && sum.1 == a.1.plus(b.1),
        prod.0 == a.0.times(b.0).plus(GoldilocksField(7).times(a.1.times(b.1))),
        prod.1 == a.0.times(b.1).plus(a.1.times(b.0)),
        opposite.0 == a.0.negated() && opposite.1 == a.1.negated(),
        same <==> norm(a.0) == norm(b.0) && norm(a.1) == norm(b.1),
{
    law_extension(a, b);
}

/// The inverse of an element: there is none just for zero, and otherwise their product is one.
pub proof fn law_try_inverse<F: Field>(a: F, r: Option<F>)
    requires
        call_ensures(F::try_inverse, (a,), r),
    ensures
        r is None <==> norm(a) == F::zero(),
        r matches Some(x) ==> a.times(x) == F::one(),
{
    if norm(a) != F::zero() {
        F::law_recip(a);
    }
}

/// Pieces are recombined like digits: a piece that is put in front counts as it is, and all others
/// with the power of the point that has the length of a piece as its exponent.
pub proof fn law_recombined<R: Ring>(piece: Seq<R>, rest: Seq<Seq<R>>, size: nat, x: R)
    ensures
        recombined(Seq::<Seq<R>>::empty(), size, x) == R::zero(),
        recombined(seq![piece] + rest, size, x) == eval(piece, x).plus(
            pow(x, size).times(recombined(rest, size, x)),
        ),
{
    assert((seq![piece] + rest).drop_first() =~= rest);
}

} // verus!
