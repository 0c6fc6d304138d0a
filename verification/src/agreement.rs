//! What the quotient polynomials depend on.
//!
//! Two computations give the same polynomials where the commitments hold the same values on the
//! quotient's domain and the evaluators of the combined constraints agree. In particular the rate
//! at which polynomials are committed to does not matter.
use vstd::prelude::*;
use crate::circuit_data::CommonCircuitData;
use crate::committed_values::{extends, lemma_extended_row, lemma_row_lengths};
use crate::field::{Field, recips};
use crate::interpolation::lemma_interpolates_unique;
use crate::oracle::PolynomialBatch;
use crate::polynomial::{PolynomialCoeffs, coefficients, interpolates, is_canonical};
use crate::quotient::{
    BATCH_SIZE, QuotientBatch, QuotientInputs, divided, evaluated, evaluates, is_evaluation, is_z_h,
    lemma_quotient_bits, quotients_computed,
};
use crate::ring::{Ring, lemma_norm, norm};
use crate::util::{lemma_chunk_bounds, lemma_log2_unique, rows};
use crate::zero_poly_coset::{ZeroPolyOnCoset, domain_point, vanishing_at};

verus! {

/// The circuits have the same dimensions; the rates of their commitments may differ.
pub open spec fn same_shape<F: Field>(a: CommonCircuitData<F>, b: CommonCircuitData<F>) -> bool {
    &&& a.degree_bits == b.degree_bits
    &&& a.quotient_degree_factor == b.quotient_degree_factor
    &&& a.num_constants == b.num_constants
    &&& a.num_partial_products == b.num_partial_products
    &&& a.config.num_wires == b.config.num_wires
    &&& a.config.num_routed_wires == b.config.num_routed_wires
    &&& a.config.num_challenges == b.config.num_challenges
}

/// The batches hold the same values.
pub open spec fn same_batch<F>(a: QuotientBatch<F>, b: QuotientBatch<F>) -> bool {
    &&& a.indices@ == b.indices@
    &&& a.shifted_xs@ == b.shifted_xs@
    &&& a.local_constants@ == b.local_constants@
    &&& a.local_wires@ == b.local_wires@
    &&& rows(a.local_zs@) == rows(b.local_zs@)
    &&& rows(a.next_zs@) == rows(b.next_zs@)
    &&& rows(a.partial_products@) == rows(b.partial_products@)
    &&& rows(a.s_sigmas@) == rows(b.s_sigmas@)
}

/// The tables of the vanishing polynomial hold the same values.
pub open spec fn same_z_h<F>(a: ZeroPolyOnCoset<F>, b: ZeroPolyOnCoset<F>) -> bool {
    &&& a.n_log == b.n_log
    &&& a.rate_bits == b.rate_bits
    &&& a.evals@ == b.evals@
    &&& a.inverses@ == b.inverses@
}

/// The values of the combined constraints stand for the same elements.
pub open spec fn same_values<R: Ring>(a: Seq<Vec<R>>, b: Seq<Vec<R>>) -> bool {
    &&& a.len() == b.len()
    &&& forall|j: int, c: int|
        0 <= j < a.len() && 0 <= c < a[j].len() && 0 <= c < b[j].len() ==> norm(
            #[trigger] a[j]@[c],
        ) == norm(b[j]@[c])
}

/// Two evaluators, with the hashes and challenges that they are given, give the same values on the
/// same batch. Of an evaluator and itself this says that its values depend on nothing else.
pub open spec fn evaluators_agree<F: Field, I, J, D, E>(
    hash1: &I,
    betas1: &Vec<F>,
    gammas1: &Vec<F>,
    alphas1: &Vec<F>,
    evaluator1: D,
    hash2: &J,
    betas2: &Vec<F>,
    gammas2: &Vec<F>,
    alphas2: &Vec<F>,
    evaluator2: E,
) -> bool where
    D: Fn(&QuotientBatch<F>, &ZeroPolyOnCoset<F>, &I, &Vec<F>, &Vec<F>, &Vec<F>) -> Vec<Vec<F>>,
    E: Fn(&QuotientBatch<F>, &ZeroPolyOnCoset<F>, &J, &Vec<F>, &Vec<F>, &Vec<F>) -> Vec<Vec<F>>,
 {
    forall|
        batch1: &QuotientBatch<F>,
        z_h1: &ZeroPolyOnCoset<F>,
        out1: Vec<Vec<F>>,
        batch2: &QuotientBatch<F>,
        z_h2: &ZeroPolyOnCoset<F>,
        out2: Vec<Vec<F>>,
    |
        #![trigger
            call_ensures(evaluator1, (batch1, z_h1, hash1, betas1, gammas1, alphas1), out1),
            call_ensures(evaluator2, (batch2, z_h2, hash2, betas2, gammas2, alphas2), out2)
        ]
        same_batch(*batch1, *batch2) && same_z_h(*z_h1, *z_h2) && call_ensures(
            evaluator1,
            (batch1, z_h1, hash1, betas1, gammas1, alphas1),
            out1,
        ) && call_ensures(
            evaluator2,
            (batch2, z_h2, hash2, betas2, gammas2, alphas2),
            out2,
        ) ==> same_values(out1@, out2@)
}

/// Two commitments hold the same rows at the points of the quotient's domain.
pub open spec fn same_on_domain<F: Field, C, D>(
    bits: nat,
    cd1: CommonCircuitData<F>,
    batch1: PolynomialBatch<F, C>,
    cd2: CommonCircuitData<F>,
    batch2: PolynomialBatch<F, D>,
) -> bool {
    forall|i: int|
        0 <= i < cd1.lde_size(bits) ==> #[trigger] batch1.lde_row(i, cd1.step(bits))
            == batch2.lde_row(i, cd2.step(bits))
}

/// All commitments hold the same rows at the points of the quotient's domain.
pub open spec fn same_inputs<F: Field, C, D>(
    q1: QuotientInputs<F, C>,
    q2: QuotientInputs<F, D>,
) -> bool {
    let cd1 = q1.common_data;
    let cd2 = q2.common_data;
    &&& same_shape(cd1, cd2)
    &&& forall|bits: nat| #[trigger]
        cd1.has_quotient_bits(bits) ==> {
            &&& same_on_domain(bits, cd1, q1.constants_sigmas, cd2, q2.constants_sigmas)
            &&& same_on_domain(bits, cd1, q1.wires, cd2, q2.wires)
            &&& same_on_domain(bits, cd1, q1.zs_partial_products, cd2, q2.zs_partial_products)
        }
}

/// Tables in the layout of columns agree if their entries do.
proof fn lemma_same_columns<T>(a: Seq<T>, b: Seq<T>, n: int, columns: int)
    requires
        0 <= n,
        0 <= columns,
        a.len() == columns * n,
        b.len() == columns * n,
        forall|c: int, j: int|
            #![trigger a[c * n + j]]
            0 <= c < columns && 0 <= j < n ==> a[c * n + j] == b[c * n + j],
    ensures
        a == b,
{
    assert forall|t: int| 0 <= t < a.len() implies a[t] == b[t] by {
        assert(0 < n) by (nonlinear_arith)
            requires
                0 <= t < columns * n,
                0 <= n,
                0 <= columns,
        ;
        let c = t / n;
        let j = t % n;
        assert(0 <= c < columns && 0 <= j < n && t == c * n + j) by (nonlinear_arith)
            requires
                c == t / n,
                j == t % n,
                0 <= t < columns * n,
                0 < n,
        ;
        assert(a[c * n + j] == b[c * n + j]);
    }
    assert(a =~= b);
}

/// The same rows give the same batches.
pub proof fn lemma_same_batch<F: Field, C, D>(
    q1: QuotientInputs<F, C>,
    q2: QuotientInputs<F, D>,
    bits: nat,
    b: int,
    batch1: QuotientBatch<F>,
    batch2: QuotientBatch<F>,
)
    requires
        q1.wf(),
        same_inputs(q1, q2),
        q1.common_data.has_quotient_bits(bits),
        0 <= b,
        0 <= q1.common_data.batch_len(bits, b),
        q1.is_batch(bits, b, batch1),
        q2.is_batch(bits, b, batch2),
    ensures
        same_batch(batch1, batch2),
{
    let cd1 = q1.common_data;
    let cd2 = q2.common_data;
    let n = cd1.batch_len(bits, b);
    let (s1, s2) = (cd1.step(bits), cd2.step(bits));
    lemma_quotient_bits(cd1, bits);
    assert forall|j: int| 0 <= j < n implies #[trigger] q1.holds_point(bits, b, j, batch1)
        && q2.holds_point(bits, b, j, batch2) && q1.constants_sigmas.lde_row(
        b * BATCH_SIZE + j,
        s1,
    ) == q2.constants_sigmas.lde_row(b * BATCH_SIZE + j, s2) && q1.wires.lde_row(
        b * BATCH_SIZE + j,
        s1,
    ) == q2.wires.lde_row(b * BATCH_SIZE + j, s2) && q1.zs_partial_products.lde_row(
        b * BATCH_SIZE + j,
        s1,
    ) == q2.zs_partial_products.lde_row(b * BATCH_SIZE + j, s2)
        && q1.zs_partial_products.lde_row(cd1.next_index(bits, b * BATCH_SIZE + j), s1)
        == q2.zs_partial_products.lde_row(cd1.next_index(bits, b * BATCH_SIZE + j), s2) by {
        assert(q2.holds_point(bits, b, j, batch2));
        assert(same_on_domain(bits, cd1, q1.constants_sigmas, cd2, q2.constants_sigmas));
        assert(same_on_domain(bits, cd1, q1.wires, cd2, q2.wires));
        assert(same_on_domain(bits, cd1, q1.zs_partial_products, cd2, q2.zs_partial_products));
    }
    assert(batch1.indices@ =~= batch2.indices@) by {
        assert forall|j: int| 0 <= j < n implies batch1.indices@[j] == batch2.indices@[j] by {
            assert(q1.holds_point(bits, b, j, batch1));
        }
    }
    assert(batch1.shifted_xs@ =~= batch2.shifted_xs@) by {
        assert forall|j: int| 0 <= j < n implies batch1.shifted_xs@[j] == batch2.shifted_xs@[j] by {
            assert(q1.holds_point(bits, b, j, batch1));
        }
    }
    assert forall|j: int| 0 <= j < n implies rows(batch1.local_zs@)[j] == rows(
        batch2.local_zs@,
    )[j] && rows(batch1.next_zs@)[j] == rows(batch2.next_zs@)[j] && rows(
        batch1.partial_products@,
    )[j] == rows(batch2.partial_products@)[j] && rows(batch1.s_sigmas@)[j] == rows(
        batch2.s_sigmas@,
    )[j] by {
        assert(q1.holds_point(bits, b, j, batch1));
    }
    assert(rows(batch1.local_zs@) =~= rows(batch2.local_zs@));
    assert(rows(batch1.next_zs@) =~= rows(batch2.next_zs@));
    assert(rows(batch1.partial_products@) =~= rows(batch2.partial_products@));
    assert(rows(batch1.s_sigmas@) =~= rows(batch2.s_sigmas@));
    let constant1 = |j: int, c: int| q1.constants_sigmas.lde_row(b * BATCH_SIZE + j, s1)[c];
    let constant2 = |j: int, c: int| q2.constants_sigmas.lde_row(b * BATCH_SIZE + j, s2)[c];
    assert forall|c: int, j: int|
        #![trigger batch1.local_constants@[c * n + j]]
        0 <= c < cd1.num_constants && 0 <= j < n implies batch1.local_constants@[c * n + j]
        == batch2.local_constants@[c * n + j] by {
        assert(q1.holds_point(bits, b, j, batch1));
        assert(batch1.local_constants@[c * n + j] == constant1(j, c));
        assert(batch2.local_constants@[c * n + j] == constant2(j, c));
    }
    lemma_same_columns(
        batch1.local_constants@,
        batch2.local_constants@,
        n,
        cd1.num_constants as int,
    );
    let wire1 = |j: int, c: int| q1.wires.lde_row(b * BATCH_SIZE + j, s1)[c];
    let wire2 = |j: int, c: int| q2.wires.lde_row(b * BATCH_SIZE + j, s2)[c];
    assert forall|c: int, j: int|
        #![trigger batch1.local_wires@[c * n + j]]
        0 <= c < cd1.config.num_wires && 0 <= j < n implies batch1.local_wires@[c * n + j]
        == batch2.local_wires@[c * n + j] by {
        assert(q1.holds_point(bits, b, j, batch1));
        assert(batch1.local_wires@[c * n + j] == wire1(j, c));
        assert(batch2.local_wires@[c * n + j] == wire2(j, c));
    }
    lemma_same_columns(
        batch1.local_wires@,
        batch2.local_wires@,
        n,
        cd1.config.num_wires as int,
    );
}

/// The tables of the vanishing polynomial are determined by the circuit.
proof fn lemma_same_z_h<F: Field>(
    cd1: CommonCircuitData<F>,
    cd2: CommonCircuitData<F>,
    bits: nat,
    z_h1: ZeroPolyOnCoset<F>,
    z_h2: ZeroPolyOnCoset<F>,
)
    requires
        cd1.degree_bits == cd2.degree_bits,
        is_z_h(cd1, bits, z_h1),
        is_z_h(cd2, bits, z_h2),
    ensures
        same_z_h(z_h1, z_h2),
{
    assert(z_h1.evals@ =~= z_h2.evals@);
    assert(z_h1.inverses@ == recips(z_h1.evals@));
}

/// The same values of the combined constraints give the same quotient polynomials.
pub proof fn lemma_same_quotients<F: Field>(
    cd1: CommonCircuitData<F>,
    cd2: CommonCircuitData<F>,
    bits: nat,
    outs1: Seq<Seq<Vec<F>>>,
    outs2: Seq<Seq<Vec<F>>>,
    polys1: Seq<PolynomialCoeffs<F>>,
    polys2: Seq<PolynomialCoeffs<F>>,
)
    requires
        cd1.wf(),
        same_shape(cd1, cd2),
        cd1.has_quotient_bits(bits),
        cd1.are_evaluations(bits, outs1),
        cd2.are_evaluations(bits, outs2),
        forall|b: int| 0 <= b < outs1.len() ==> same_values(#[trigger] outs1[b], outs2[b]),
        cd1.are_quotients(bits, outs1, polys1),
        cd2.are_quotients(bits, outs2, polys2),
    ensures
        coefficients(polys1) == coefficients(polys2),
{
    let db = cd1.degree_bits as nat;
    let nc = cd1.config.num_challenges as int;
    lemma_quotient_bits(cd1, bits);
    F::law_shift();
    assert forall|c: int| 0 <= c < nc implies coefficients(polys1)[c] == coefficients(
        polys2,
    )[c] by {
        let values1 = cd1.quotient_values(bits, outs1, c);
        let values2 = cd2.quotient_values(bits, outs2, c);
        assert forall|i: int| 0 <= i < cd1.lde_size(bits) implies values1[i] == values2[i] by {
            let b = i / BATCH_SIZE as int;
            let j = i % BATCH_SIZE as int;
            lemma_chunk_bounds(cd1.lde_size(bits) as nat, BATCH_SIZE as nat, b as nat);
            assert(is_evaluation(outs1[b], cd1.batch_len(bits, b), nc));
            assert(is_evaluation(outs2[b], cd2.batch_len(bits, b), nc));
            assert(same_values(outs1[b], outs2[b]));
            assert(outs1[b][j].len() == nc && outs2[b][j].len() == nc);
            let (o1, o2) = (outs1[b][j]@[c], outs2[b][j]@[c]);
            assert(norm(o1) == norm(o2));
            let v = vanishing_at(db, domain_point::<F>(db, bits, i as nat)).recip();
            lemma_norm(o1, v);
            lemma_norm(o2, v);
            assert(divided(outs1[b][j]@, db, bits, i)[c] == o1.times(v));
            assert(divided(outs2[b][j]@, db, bits, i)[c] == o2.times(v));
        }
        assert(values1 =~= values2);
        let (p1, p2) = (polys1[c].coeffs@, polys2[c].coeffs@);
        assert(interpolates(p1, values1, F::shift(), db + bits) && is_canonical(p1));
        assert(interpolates(p2, values2, F::shift(), db + bits) && is_canonical(p2));
        lemma_interpolates_unique(p1, p2, values1, F::shift(), db + bits);
        assert forall|i: int| 0 <= i < p1.len() implies p1[i] == p2[i] by {
            assert(norm(p1[i]) == norm(p2[i]));
            assert(norm(p2[i]) == p2[i]);
        }
        assert(p1 =~= p2);
    }
    assert(coefficients(polys1) =~= coefficients(polys2));
}

/// What the evaluator gave has the shape of an evaluation.
pub proof fn lemma_evaluated_shape<F: Field, C, I, E>(
    q: QuotientInputs<F, C>,
    hash: &I,
    betas: &Vec<F>,
    gammas: &Vec<F>,
    alphas: &Vec<F>,
    evaluator: E,
    bits: nat,
    z_h: &ZeroPolyOnCoset<F>,
    batches: Seq<QuotientBatch<F>>,
    outs: Seq<Vec<Vec<F>>>,
) where
    E: Fn(&QuotientBatch<F>, &ZeroPolyOnCoset<F>, &I, &Vec<F>, &Vec<F>, &Vec<F>) -> Vec<Vec<F>>,

    requires
        evaluates(q, hash, betas, gammas, alphas, evaluator),
        evaluated(q, hash, betas, gammas, alphas, evaluator, bits, z_h, batches, outs),
    ensures
        q.common_data.are_evaluations(bits, rows(outs)),
{
    assert forall|b: int| 0 <= b < rows(outs).len() implies is_evaluation(
        #[trigger] rows(outs)[b],
        q.common_data.batch_len(bits, b),
        q.common_data.config.num_challenges as int,
    ) by {
        assert(q.is_batch(bits, b, batches[b]));
        assert(rows(outs)[b] == outs[b]@);
    }
}

/// Two computations on the same rows with agreeing evaluators give the same quotient polynomials.
pub proof fn lemma_quotients_agree<F: Field, C, D, I, J, E, G>(
    q1: QuotientInputs<F, C>,
    hash1: &I,
    betas1: &Vec<F>,
    gammas1: &Vec<F>,
    alphas1: &Vec<F>,
    evaluator1: E,
    polys1: Seq<PolynomialCoeffs<F>>,
    q2: QuotientInputs<F, D>,
    hash2: &J,
    betas2: &Vec<F>,
    gammas2: &Vec<F>,
    alphas2: &Vec<F>,
    evaluator2: G,
    polys2: Seq<PolynomialCoeffs<F>>,
) where
    E: Fn(&QuotientBatch<F>, &ZeroPolyOnCoset<F>, &I, &Vec<F>, &Vec<F>, &Vec<F>) -> Vec<Vec<F>>,
    G: Fn(&QuotientBatch<F>, &ZeroPolyOnCoset<F>, &J, &Vec<F>, &Vec<F>, &Vec<F>) -> Vec<Vec<F>>,

    requires
        q1.wf(),
        q2.wf(),
        same_inputs(q1, q2),
        evaluates(q1, hash1, betas1, gammas1, alphas1, evaluator1),
        evaluates(q2, hash2, betas2, gammas2, alphas2, evaluator2),
        evaluators_agree(
            hash1,
            betas1,
            gammas1,
            alphas1,
            evaluator1,
            hash2,
            betas2,
            gammas2,
            alphas2,
            evaluator2,
        ),
        quotients_computed(q1, hash1, betas1, gammas1, alphas1, evaluator1, polys1),
        quotients_computed(q2, hash2, betas2, gammas2, alphas2, evaluator2, polys2),
    ensures
        coefficients(polys1) == coefficients(polys2),
{
    let (cd1, cd2) = (q1.common_data, q2.common_data);
    let (bits, z1, batches1, outs1) = choose|
        bits: nat,
        z_h: &ZeroPolyOnCoset<F>,
        batches: Seq<QuotientBatch<F>>,
        outs: Seq<Vec<Vec<F>>>,
    |
        #[trigger] evaluated(
            q1,
            hash1,
            betas1,
            gammas1,
            alphas1,
            evaluator1,
            bits,
            z_h,
            batches,
            outs,
        ) && cd1.are_quotients(bits, rows(outs), polys1);
    let (bits2, z2, batches2, outs2) = choose|
        bits: nat,
        z_h: &ZeroPolyOnCoset<F>,
        batches: Seq<QuotientBatch<F>>,
        outs: Seq<Vec<Vec<F>>>,
    |
        #[trigger] evaluated(
            q2,
            hash2,
            betas2,
            gammas2,
            alphas2,
            evaluator2,
            bits,
            z_h,
            batches,
            outs,
        ) && cd2.are_quotients(bits, rows(outs), polys2);
    lemma_log2_unique(cd1.quotient_degree_factor as nat, bits, bits2);
    lemma_same_z_h(cd1, cd2, bits, *z1, *z2);
    lemma_evaluated_shape(
        q1,
        hash1,
        betas1,
        gammas1,
        alphas1,
        evaluator1,
        bits,
        z1,
        batches1,
        outs1,
    );
    lemma_evaluated_shape(
        q2,
        hash2,
        betas2,
        gammas2,
        alphas2,
        evaluator2,
        bits,
        z2,
        batches2,
        outs2,
    );
    lemma_quotient_bits(cd1, bits);
    assert forall|b: int| 0 <= b < rows(outs1).len() implies same_values(
        #[trigger] rows(outs1)[b],
        rows(outs2)[b],
    ) by {
        lemma_chunk_bounds(cd1.lde_size(bits) as nat, BATCH_SIZE as nat, b as nat);
        assert(q1.is_batch(bits, b, batches1[b]));
        assert(q2.is_batch(bits, b, batches2[b]));
        lemma_same_batch(q1, q2, bits, b, batches1[b], batches2[b]);
        assert(rows(outs1)[b] == outs1[b]@ && rows(outs2)[b] == outs2[b]@);
    }
    lemma_same_quotients(cd1, cd2, bits, rows(outs1), rows(outs2), polys1, polys2);
}

/// Where the values of the evaluator depend on the batch alone, there is only one list of quotient
/// polynomials: every computation of them from the same inputs returns that one.
pub proof fn lemma_quotients_determined<F: Field, C, I, E>(
    q: QuotientInputs<F, C>,
    hash: &I,
    betas: &Vec<F>,
    gammas: &Vec<F>,
    alphas: &Vec<F>,
    evaluator: E,
    polys1: Seq<PolynomialCoeffs<F>>,
    polys2: Seq<PolynomialCoeffs<F>>,
) where
    E: Fn(&QuotientBatch<F>, &ZeroPolyOnCoset<F>, &I, &Vec<F>, &Vec<F>, &Vec<F>) -> Vec<Vec<F>>,

    requires
        q.wf(),
        evaluates(q, hash, betas, gammas, alphas, evaluator),
        evaluators_agree(
            hash,
            betas,
            gammas,
            alphas,
            evaluator,
            hash,
            betas,
            gammas,
            alphas,
            evaluator,
        ),
        quotients_computed(q, hash, betas, gammas, alphas, evaluator, polys1),
        quotients_computed(q, hash, betas, gammas, alphas, evaluator, polys2),
    ensures
        coefficients(polys1) == coefficients(polys2),
{
    lemma_quotients_agree(
        q,
        hash,
        betas,
        gammas,
        alphas,
        evaluator,
        polys1,
        q,
        hash,
        betas,
        gammas,
        alphas,
        evaluator,
        polys2,
    );
}

/// Commitments that extend the same polynomials, be it at different rates, hold the same rows at
/// the points of the quotient's domain.
pub proof fn lemma_rates_agree_on_domain<F: Field, C, D>(
    bits: nat,
    cd1: CommonCircuitData<F>,
    batch1: PolynomialBatch<F, C>,
    cd2: CommonCircuitData<F>,
    batch2: PolynomialBatch<F, D>,
    polys: Seq<Seq<F>>,
)
    requires
        cd1.wf(),
        cd2.wf(),
        cd1.degree_bits == cd2.degree_bits,
        cd1.has_quotient_bits(bits),
        cd2.has_quotient_bits(bits),
        extends(cd1, batch1, polys),
        extends(cd2, batch2, polys),
        forall|i: int|
            0 <= i < cd1.lde_size(bits) ==> (#[trigger] batch1.lde_row(i, cd1.step(bits))).len()
                == polys.len(),
        forall|i: int|
            0 <= i < cd1.lde_size(bits) ==> (#[trigger] batch2.lde_row(i, cd2.step(bits))).len()
                == polys.len(),
    ensures
        same_on_domain(bits, cd1, batch1, cd2, batch2),
{
    assert forall|i: int| 0 <= i < cd1.lde_size(bits) implies #[trigger] batch1.lde_row(
        i,
        cd1.step(bits),
    ) == batch2.lde_row(i, cd2.step(bits)) by {
        let row1 = batch1.lde_row(i, cd1.step(bits));
        let row2 = batch2.lde_row(i, cd2.step(bits));
        assert forall|p: int| 0 <= p < polys.len() implies row1[p] == row2[p] by {
            lemma_extended_row(cd1, bits, batch1, polys, i, p);
            lemma_extended_row(cd2, bits, batch2, polys, i, p);
        }
        assert(row1 =~= row2);
    }
}

/// The rate does not matter: two computations on commitments that extend the same polynomials at
/// different rates give the same quotient polynomials.
pub proof fn lemma_rates_agree<F: Field, C, D, I, J, E, G>(
    constants_sigmas: Seq<Seq<F>>,
    wires: Seq<Seq<F>>,
    zs: Seq<Seq<F>>,
    q1: QuotientInputs<F, C>,
    hash1: &I,
    betas1: &Vec<F>,
    gammas1: &Vec<F>,
    alphas1: &Vec<F>,
    evaluator1: E,
    polys1: Seq<PolynomialCoeffs<F>>,
    q2: QuotientInputs<F, D>,
    hash2: &J,
    betas2: &Vec<F>,
    gammas2: &Vec<F>,
    alphas2: &Vec<F>,
    evaluator2: G,
    polys2: Seq<PolynomialCoeffs<F>>,
) where
    E: Fn(&QuotientBatch<F>, &ZeroPolyOnCoset<F>, &I, &Vec<F>, &Vec<F>, &Vec<F>) -> Vec<Vec<F>>,
    G: Fn(&QuotientBatch<F>, &ZeroPolyOnCoset<F>, &J, &Vec<F>, &Vec<F>, &Vec<F>) -> Vec<Vec<F>>,

    requires
        q1.wf(),
        q2.wf(),
        same_shape(q1.common_data, q2.common_data),
        constants_sigmas.len() == q1.common_data.num_constants
            + q1.common_data.config.num_routed_wires,
        wires.len() == q1.common_data.config.num_wires,
        zs.len() == q1.common_data.config.num_challenges * (q1.common_data.num_partial_products
            + 1),
        extends(q1.common_data, q1.constants_sigmas, constants_sigmas),
        extends(q2.common_data, q2.constants_sigmas, constants_sigmas),
        extends(q1.common_data, q1.wires, wires),
        extends(q2.common_data, q2.wires, wires),
        extends(q1.common_data, q1.zs_partial_products, zs),
        extends(q2.common_data, q2.zs_partial_products, zs),
        evaluates(q1, hash1, betas1, gammas1, alphas1, evaluator1),
        evaluates(q2, hash2, betas2, gammas2, alphas2, evaluator2),
        evaluators_agree(
            hash1,
            betas1,
            gammas1,
            alphas1,
            evaluator1,
            hash2,
            betas2,
            gammas2,
            alphas2,
            evaluator2,
        ),
        quotients_computed(q1, hash1, betas1, gammas1, alphas1, evaluator1, polys1),
        quotients_computed(q2, hash2, betas2, gammas2, alphas2, evaluator2, polys2),
    ensures
        coefficients(polys1) == coefficients(polys2),
{
    let (cd1, cd2) = (q1.common_data, q2.common_data);
    assert forall|bits: nat| #[trigger] cd1.has_quotient_bits(bits) implies same_on_domain(
        bits,
        cd1,
        q1.constants_sigmas,
        cd2,
        q2.constants_sigmas,
    ) && same_on_domain(bits, cd1, q1.wires, cd2, q2.wires) && same_on_domain(
        bits,
        cd1,
        q1.zs_partial_products,
        cd2,
        q2.zs_partial_products,
    ) by {
        assert(cd2.has_quotient_bits(bits));
        assert forall|i: int| 0 <= i < cd1.lde_size(bits) implies q1.constants_sigmas.lde_row(
            i,
            cd1.step(bits),
        ).len() == constants_sigmas.len() && q1.wires.lde_row(i, cd1.step(bits)).len()
            == wires.len() && q1.zs_partial_products.lde_row(i, cd1.step(bits)).len() == zs.len()
            && q2.constants_sigmas.lde_row(i, cd2.step(bits)).len() == constants_sigmas.len()
            && q2.wires.lde_row(i, cd2.step(bits)).len() == wires.len()
            && q2.zs_partial_products.lde_row(i, cd2.step(bits)).len() == zs.len() by {
            lemma_row_lengths(q1, bits, i);
            lemma_row_lengths(q2, bits, i);
        }
        lemma_rates_agree_on_domain(
            bits,
            cd1,
            q1.constants_sigmas,
            cd2,
            q2.constants_sigmas,
            constants_sigmas,
        );
        lemma_rates_agree_on_domain(bits, cd1, q1.wires, cd2, q2.wires, wires);
        lemma_rates_agree_on_domain(
            bits,
            cd1,
            q1.zs_partial_products,
            cd2,
            q2.zs_partial_products,
            zs,
        );
    }
    lemma_quotients_agree(
        q1,
        hash1,
        betas1,
        gammas1,
        alphas1,
        evaluator1,
        polys1,
        q2,
        hash2,
        betas2,
        gammas2,
        alphas2,
        evaluator2,
        polys2,
    );
}

} // verus!
