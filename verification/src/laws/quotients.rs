//! Laws of the quotient polynomials.
use vstd::arithmetic::power2::{lemma_pow2_adds, lemma_pow2_pos, pow2};
use vstd::prelude::*;
use crate::agreement::lemma_evaluated_shape;
use crate::circuit_data::{CommonCircuitData, ProverOnlyCircuitData};
use crate::committed_values::{extends, lemma_batch_values};
use crate::field::{Field, root_of};
use crate::gpu::compute_quotient_polys_gpu;
use crate::interpolation::{
    lemma_coset_points_distinct, lemma_interpolation_unique, lemma_times_cancel,
};
use crate::oracle::PolynomialBatch;
use crate::polynomial::{
    PolynomialCoeffs, coset_point, eval, interpolates, is_canonical, lemma_eval_norm,
    lemma_eval_trimmed, recombined,
};
use crate::prover::{
    AlphasRound, CommitRequest, ProverError, QuotientRound, all_have_quotient_degree, tables_fit,
};
use crate::quotient::{
    BATCH_SIZE, QuotientBatch, QuotientDomain, QuotientInputs, compute_quotient_polys,
    divide_by_vanishing, evaluated, evaluates, finish_quotient_polys, has_quotient_degree,
    interpolate_columns, is_evaluation, is_z_h, lemma_pieces_recombine, lemma_quotient_bits,
    lemma_quotient_times_vanishing, piece, quotient_batch, quotient_inputs, quotients_computed,
    split_quotient_polys,
};
use crate::ring::{lemma_neutral, minus, norm, pow};
use crate::util::{
    is_log2_ceil, lemma_chunk_bounds, lemma_log2_unique, lemma_pow2_monotone, lemma_reversed_bound,
    reversed, rows, transposed,
};
use crate::zero_poly_coset::{
    ZeroPolyOnCoset, domain_point, lemma_vanishing_nonzero, lemma_vanishing_periodic, vanishing_at,
};

verus! {

/// The rows of the batch, in bit-reversed order, hold the values of the polynomials at the points
/// of the shifted subgroup of order `2^k`.
pub open spec fn commits_to<F: Field, C>(
    batch: PolynomialBatch<F, C>,
    k: nat,
    polys: Seq<Seq<F>>,
) -> bool {
    forall|s: int, p: int|
        0 <= s < pow2(k) && 0 <= p < polys.len() ==> #[trigger] batch.leaves@[reversed(
            s as nat,
            k,
        ) as int]@[p] == eval(polys[p], F::shift().times(pow(root_of::<F>(k), s as nat)))
}

/// Entry `j` of the batch belongs to the point `x` with the index `i`: it holds the values of the
/// committed polynomials there and, for the permutation polynomials, also at the next row.
pub open spec fn is_entry<F: Field>(
    common_data: CommonCircuitData<F>,
    batch: QuotientBatch<F>,
    j: int,
    i: int,
    x: F,
    constants_sigmas: Seq<Seq<F>>,
    wires: Seq<Seq<F>>,
    zs: Seq<Seq<F>>,
) -> bool {
    let n = batch.indices@.len();
    let nc = common_data.config.num_challenges as int;
    let np = common_data.num_partial_products as int;
    let next = root_of::<F>(common_data.degree_bits as nat).times(x);
    &&& 0 <= j < n
    &&& batch.indices@[j] == i
    &&& batch.shifted_xs@[j] == x
    &&& forall|c: int|
        0 <= c < common_data.num_constants ==> batch.local_constants@[c * n + j] == eval(
            #[trigger] constants_sigmas[c],
            x,
        )
    &&& forall|c: int|
        0 <= c < common_data.config.num_routed_wires ==> #[trigger] batch.s_sigmas@[j]@[c] == eval(
            constants_sigmas[common_data.num_constants + c],
            x,
        )
    &&& forall|c: int|
        0 <= c < common_data.config.num_wires ==> batch.local_wires@[c * n + j] == eval(
            #[trigger] wires[c],
            x,
        )
    &&& forall|c: int| 0 <= c < nc ==> #[trigger] batch.local_zs@[j]@[c] == eval(zs[c], x)
    &&& forall|c: int| 0 <= c < nc ==> #[trigger] batch.next_zs@[j]@[c] == eval(zs[c], next)
    &&& forall|c: int, m: int|
        #![trigger zs[nc + c * np + m]]
        0 <= c < nc && 0 <= m < np ==> batch.partial_products@[j]@[c * np + m] == eval(
            zs[nc + c * np + m],
            x,
        )
}

/// The table of the vanishing polynomial holds its value at the point `x` with the index `i`, and
/// the inverse of that.
pub open spec fn holds_vanishing<F: Field>(
    degree_bits: nat,
    bits: nat,
    z_h: ZeroPolyOnCoset<F>,
    i: int,
    x: F,
) -> bool {
    let v = minus(pow(x, pow2(degree_bits)), F::one());
    let k = i % pow2(bits) as int;
    &&& z_h.evals@.len() == pow2(bits)
    &&& z_h.inverses@.len() == pow2(bits)
    &&& z_h.evals@[k] == v
    &&& v.times(z_h.inverses@[k]) == F::one()
}

/// The number of bits by which the quotient's domain exceeds the rows: the least one that leaves
/// room for the degree of the constraints.
pub open spec fn exceeds_by<F>(common_data: CommonCircuitData<F>, bits: nat) -> bool {
    &&& common_data.quotient_degree_factor <= pow2(bits)
    &&& bits > 0 ==> pow2((bits - 1) as nat) < common_data.quotient_degree_factor
}

proof fn lemma_exceeds_by<F: Field>(common_data: CommonCircuitData<F>, bits: nat)
    requires
        exceeds_by(common_data, bits),
    ensures
        common_data.has_quotient_bits(bits),
{
    assert forall|j: nat| #![trigger pow2(j)] j < bits implies pow2(j)
        < common_data.quotient_degree_factor by {
        lemma_pow2_monotone(j, (bits - 1) as nat);
    }
}

/// Rows in bit-reversed order are an extension as the batches read it.
proof fn lemma_commits_to<F: Field, C>(
    common_data: CommonCircuitData<F>,
    batch: PolynomialBatch<F, C>,
    polys: Seq<Seq<F>>,
)
    requires
        batch.degree_log == common_data.degree_bits,
        batch.rate_bits == common_data.config.fri_config.rate_bits,
        batch.wf(polys.len()),
        commits_to(
            batch,
            (common_data.degree_bits + common_data.config.fri_config.rate_bits) as nat,
            polys,
        ),
    ensures
        extends(common_data, batch, polys),
{
    let k = (common_data.degree_bits + common_data.config.fri_config.rate_bits) as nat;
    assert forall|r: int, p: int|
        0 <= r < pow2(k) && 0 <= p < polys.len() implies #[trigger] batch.lde_row(r, 1)[p] == eval(
        polys[p],
        coset_point(F::shift(), k, r as nat),
    ) by {
        assert(r * 1 == r);
        lemma_reversed_bound(r as nat, k);
        let leaf = batch.leaves@[reversed(r as nat, k) as int];
        assert(leaf.len() == polys.len() + batch.salt_size);
        assert(leaf@[p] == eval(polys[p], F::shift().times(pow(root_of::<F>(k), r as nat))));
    }
}

/// The value of a quotient polynomial at the point with the index `i` comes from the values that
/// the evaluator gave at that very point.
proof fn lemma_value_at<F: Field, C, I, E>(
    q: QuotientInputs<F, C>,
    hash: &I,
    betas: &Vec<F>,
    gammas: &Vec<F>,
    alphas: &Vec<F>,
    evaluator: E,
    polys: Seq<PolynomialCoeffs<F>>,
    bits: nat,
    i: int,
) -> (r: (int, QuotientBatch<F>, ZeroPolyOnCoset<F>, Vec<Vec<F>>)) where
    E: Fn(&QuotientBatch<F>, &ZeroPolyOnCoset<F>, &I, &Vec<F>, &Vec<F>, &Vec<F>) -> Vec<Vec<F>>,

    requires
        q.wf(),
        evaluates(q, hash, betas, gammas, alphas, evaluator),
        quotients_computed(q, hash, betas, gammas, alphas, evaluator, polys),
        exceeds_by(q.common_data, bits),
        0 <= i < pow2(q.common_data.degree_bits as nat + bits),
    ensures
        ({
            let cd = q.common_data;
            let db = cd.degree_bits as nat;
            let x = F::shift().times(pow(root_of::<F>(db + bits), i as nat));
            let b = i / BATCH_SIZE as int;
            let j = r.0;
            &&& j == i - b * BATCH_SIZE
            &&& 0 <= b
            &&& 0 <= j < cd.batch_len(bits, b)
            &&& q.is_batch(bits, b, r.1)
            &&& cd.has_quotient_bits(bits)
            &&& 0 <= j < r.1.indices@.len()
            &&& r.1.indices@[j] == i
            &&& r.1.shifted_xs@[j] == x
            &&& is_z_h(cd, bits, r.2)
            &&& call_ensures(evaluator, (&r.1, &r.2, hash, betas, gammas, alphas), r.3)
            &&& r.3@.len() == r.1.indices@.len()
            &&& r.3@[j].len() == cd.config.num_challenges
            &&& polys.len() == cd.config.num_challenges
            &&& forall|c: int|
                0 <= c < cd.config.num_challenges ==> eval(
                    (#[trigger] polys[c]).coeffs@,
                    x,
                ).times(minus(pow(x, pow2(db)), F::one())) == norm(r.3@[j]@[c])
        }),
{
    let cd = q.common_data;
    let db = cd.degree_bits as nat;
    lemma_exceeds_by(cd, bits);
    let (bits2, z_h, batches, outs) = choose|
        bits: nat,
        z_h: &ZeroPolyOnCoset<F>,
        batches: Seq<QuotientBatch<F>>,
        outs: Seq<Vec<Vec<F>>>,
    |
        #[trigger] evaluated(
            q,
            hash,
            betas,
            gammas,
            alphas,
            evaluator,
            bits,
            z_h,
            batches,
            outs,
        ) && q.common_data.are_quotients(bits, rows(outs), polys);
    lemma_log2_unique(cd.quotient_degree_factor as nat, bits, bits2);
    lemma_evaluated_shape(
        q,
        hash,
        betas,
        gammas,
        alphas,
        evaluator,
        bits,
        z_h,
        batches,
        outs,
    );
    lemma_quotient_bits(cd, bits);
    let b = i / BATCH_SIZE as int;
    let j = i % BATCH_SIZE as int;
    lemma_chunk_bounds(cd.lde_size(bits) as nat, BATCH_SIZE as nat, b as nat);
    assert(q.is_batch(bits, b, batches[b]));
    assert(rows(outs)[b] == outs[b]@);
    assert(is_evaluation(
        rows(outs)[b],
        cd.batch_len(bits, b),
        cd.config.num_challenges as int,
    ));
    assert(outs[b]@[j].len() == cd.config.num_challenges);
    assert(q.holds_point(bits, b, j, batches[b]));
    assert forall|c: int| 0 <= c < cd.config.num_challenges implies eval(
        (#[trigger] polys[c]).coeffs@,
        cd.point(bits, i),
    ).times(minus(pow(cd.point(bits, i), pow2(db)), F::one())) == norm(outs[b]@[j]@[c]) by {
        lemma_quotient_times_vanishing(cd, bits, rows(outs), polys, c, i);
    }
    (j, batches[b], *z_h, outs[b])
}

/// At every point of the quotient's domain, each quotient polynomial times the vanishing polynomial
/// is the value that the evaluator gave for an entry that holds that point, the committed
/// polynomials there, and the permutation polynomials also at the point of the next row.
pub proof fn law_quotient_at_point<F: Field, C, H, I, E>(
    common_data: &CommonCircuitData<F>,
    prover_data: &ProverOnlyCircuitData<F, C, H>,
    public_inputs_hash: &I,
    wires_commitment: &PolynomialBatch<F, C>,
    zs_commitment: &PolynomialBatch<F, C>,
    betas: &Vec<F>,
    gammas: &Vec<F>,
    alphas: &Vec<F>,
    evaluator: E,
    r: Vec<PolynomialCoeffs<F>>,
    bits: nat,
    i: int,
    constants_sigmas: Seq<Seq<F>>,
    wires: Seq<Seq<F>>,
    zs: Seq<Seq<F>>,
) where
    E: Fn(&QuotientBatch<F>, &ZeroPolyOnCoset<F>, &I, &Vec<F>, &Vec<F>, &Vec<F>) -> Vec<Vec<F>>,

    requires
        quotient_inputs(*common_data, *prover_data, *wires_commitment, *zs_commitment).wf(),
        evaluates(
            quotient_inputs(*common_data, *prover_data, *wires_commitment, *zs_commitment),
            public_inputs_hash,
            betas,
            gammas,
            alphas,
            evaluator,
        ),
        call_ensures(
            compute_quotient_polys::<F, C, H, I, E>,
            (
                common_data,
                prover_data,
                public_inputs_hash,
                wires_commitment,
                zs_commitment,
                betas,
                gammas,
                alphas,
                evaluator,
            ),
            r,
        ),
        exceeds_by(*common_data, bits),
        0 <= i < pow2(common_data.degree_bits as nat + bits),
        constants_sigmas.len() == common_data.num_constants + common_data.config.num_routed_wires,
        wires.len() == common_data.config.num_wires,
        zs.len() == common_data.config.num_challenges * (common_data.num_partial_products + 1),
        commits_to(
            prover_data.constants_sigmas_commitment,
            (common_data.degree_bits + common_data.config.fri_config.rate_bits) as nat,
            constants_sigmas,
        ),
        commits_to(
            *wires_commitment,
            (common_data.degree_bits + common_data.config.fri_config.rate_bits) as nat,
            wires,
        ),
        commits_to(
            *zs_commitment,
            (common_data.degree_bits + common_data.config.fri_config.rate_bits) as nat,
            zs,
        ),
    ensures
        ({
            let db = common_data.degree_bits as nat;
            let x = F::shift().times(pow(root_of::<F>(db + bits), i as nat));
            &&& r@.len() == common_data.config.num_challenges
            &&& exists|
                batch: &QuotientBatch<F>,
                z_h: &ZeroPolyOnCoset<F>,
                out: Vec<Vec<F>>,
                j: int,
            |
                #![trigger
                    call_ensures(
                        evaluator,
                        (batch, z_h, public_inputs_hash, betas, gammas, alphas),
                        out
                    ),
                    batch.shifted_xs@[j]
                ]
                {
                    &&& call_ensures(
                        evaluator,
                        (batch, z_h, public_inputs_hash, betas, gammas, alphas),
                        out,
                    )
                    &&& is_entry(*common_data, *batch, j, i, x, constants_sigmas, wires, zs)
                    &&& holds_vanishing(db, bits, *z_h, i, x)
                    &&& out@.len() == batch.indices@.len()
                    &&& out@[j].len() == common_data.config.num_challenges
                    &&& forall|c: int|
                        0 <= c < r@.len() ==> eval((#[trigger] r@[c]).coeffs@, x).times(
                            minus(pow(x, pow2(db)), F::one()),
                        ) == norm(out@[j]@[c])
                }
        }),
{
    let cd = *common_data;
    let db = cd.degree_bits as nat;
    let q = quotient_inputs(cd, *prover_data, *wires_commitment, *zs_commitment);
    let x = F::shift().times(pow(root_of::<F>(db + bits), i as nat));
    let (j, batch, z_h, out) = lemma_value_at(
        q,
        public_inputs_hash,
        betas,
        gammas,
        alphas,
        evaluator,
        r@,
        bits,
        i,
    );
    lemma_commits_to(cd, prover_data.constants_sigmas_commitment, constants_sigmas);
    lemma_commits_to(cd, *wires_commitment, wires);
    lemma_commits_to(cd, *zs_commitment, zs);
    lemma_batch_values(
        q,
        bits,
        i / BATCH_SIZE as int,
        j,
        batch,
        constants_sigmas,
        wires,
        zs,
    );
    lemma_quotient_bits(cd, bits);
    lemma_holds_vanishing(cd, bits, z_h, i);
    assert(is_entry(cd, batch, j, i, x, constants_sigmas, wires, zs));
    assert(batch.shifted_xs@[j] == x);
    assert(call_ensures(
        evaluator,
        (&batch, &z_h, public_inputs_hash, betas, gammas, alphas),
        out,
    ));
}

proof fn lemma_holds_vanishing<F: Field>(
    cd: CommonCircuitData<F>,
    bits: nat,
    z_h: ZeroPolyOnCoset<F>,
    i: int,
)
    requires
        is_z_h(cd, bits, z_h),
        cd.degree_bits + bits <= F::adicity(),
        0 <= i,
    ensures
        holds_vanishing(
            cd.degree_bits as nat,
            bits,
            z_h,
            i,
            F::shift().times(pow(root_of::<F>(cd.degree_bits as nat + bits), i as nat)),
        ),
{
    let db = cd.degree_bits as nat;
    lemma_vanishing_periodic::<F>(db, bits, i as nat);
    lemma_vanishing_nonzero::<F>(db, bits, i as nat);
    let k = i % pow2(bits) as int;
    assert(z_h.evals@[k] == vanishing_at(db, domain_point::<F>(db, bits, k as nat)));
    assert(z_h.inverses@[k] == z_h.evals@[k].recip());
    F::law_recip(z_h.evals@[k]);
}

/// At every point that the evaluator is given, its values are those of the polynomials `t` times
/// the vanishing polynomial.
pub open spec fn gives_multiples<F: Field, I, E>(
    degree_bits: nat,
    public_inputs_hash: &I,
    betas: &Vec<F>,
    gammas: &Vec<F>,
    alphas: &Vec<F>,
    evaluator: E,
    t: Seq<Seq<F>>,
) -> bool where
    E: Fn(&QuotientBatch<F>, &ZeroPolyOnCoset<F>, &I, &Vec<F>, &Vec<F>, &Vec<F>) -> Vec<Vec<F>>,
 {
    forall|
        batch: &QuotientBatch<F>,
        z_h: &ZeroPolyOnCoset<F>,
        out: Vec<Vec<F>>,
        j: int,
        c: int,
    |
        #![trigger
            call_ensures(evaluator, (batch, z_h, public_inputs_hash, betas, gammas, alphas), out),
            batch.shifted_xs@[j],
            t[c]
        ]
        call_ensures(evaluator, (batch, z_h, public_inputs_hash, betas, gammas, alphas), out)
            && 0 <= j < batch.indices@.len() && 0 <= c < t.len() ==> norm(out@[j]@[c]) == eval(
            t[c],
            batch.shifted_xs@[j],
        ).times(minus(pow(batch.shifted_xs@[j], pow2(degree_bits)), F::one()))
}

/// The polynomial has the coefficients of `t`, in canonical representation, and then zeros.
pub open spec fn is_padded<F: Field>(coeffs: Seq<F>, t: Seq<F>) -> bool {
    &&& t.len() <= coeffs.len()
    &&& forall|m: int| 0 <= m < t.len() ==> #[trigger] coeffs[m] == norm(t[m])
    &&& forall|m: int| t.len() <= m < coeffs.len() ==> #[trigger] coeffs[m] == F::zero()
}

proof fn lemma_recovered<F: Field, C, I, E>(
    q: QuotientInputs<F, C>,
    hash: &I,
    betas: &Vec<F>,
    gammas: &Vec<F>,
    alphas: &Vec<F>,
    evaluator: E,
    polys: Seq<PolynomialCoeffs<F>>,
    bits: nat,
    t: Seq<Seq<F>>,
    c: int,
) where
    E: Fn(&QuotientBatch<F>, &ZeroPolyOnCoset<F>, &I, &Vec<F>, &Vec<F>, &Vec<F>) -> Vec<Vec<F>>,

    requires
        q.wf(),
        evaluates(q, hash, betas, gammas, alphas, evaluator),
        quotients_computed(q, hash, betas, gammas, alphas, evaluator, polys),
        exceeds_by(q.common_data, bits),
        t.len() == q.common_data.config.num_challenges,
        0 <= c < t.len(),
        t[c].len() <= pow2(q.common_data.degree_bits as nat + bits),
        gives_multiples(
            q.common_data.degree_bits as nat,
            hash,
            betas,
            gammas,
            alphas,
            evaluator,
            t,
        ),
    ensures
        polys.len() == t.len(),
        polys[c].coeffs@.len() == pow2(q.common_data.degree_bits as nat + bits),
        is_padded(polys[c].coeffs@, t[c]),
{
    let cd = q.common_data;
    let db = cd.degree_bits as nat;
    let k = db + bits;
    let n = pow2(k);
    lemma_exceeds_by(cd, bits);
    lemma_quotient_bits(cd, bits);
    lemma_pow2_pos(k);
    let first = lemma_value_at(q, hash, betas, gammas, alphas, evaluator, polys, bits, 0);
    let p = polys[c].coeffs@;
    lemma_shape(q, hash, betas, gammas, alphas, evaluator, polys, bits, c);
    let padded = t[c] + Seq::new((n - t[c].len()) as nat, |i: int| F::zero());
    lemma_neutral(F::zero());
    assert(padded.take(t[c].len() as int) =~= t[c]);
    let xs = Seq::new(n, |i: int| coset_point(F::shift(), k, i as nat));
    F::law_shift();
    lemma_coset_points_distinct(F::shift(), k);
    assert forall|i: int| 0 <= i < xs.len() implies eval(p, #[trigger] xs[i]) == eval(
        padded,
        xs[i],
    ) by {
        let x = xs[i];
        let (j, batch, z_h, out) = lemma_value_at(
            q,
            hash,
            betas,
            gammas,
            alphas,
            evaluator,
            polys,
            bits,
            i,
        );
        let b = &batch;
        let z = &z_h;
        assert(call_ensures(evaluator, (b, z, hash, betas, gammas, alphas), out));
        assert(b.shifted_xs@[j] == x);
        let v = minus(pow(x, pow2(db)), F::one());
        assert(norm(out@[j]@[c]) == eval(t[c], x).times(v));
        assert(eval(polys[c].coeffs@, x).times(v) == norm(out@[j]@[c]));
        lemma_vanishing_nonzero::<F>(db, bits, i as nat);
        F::law_commutes(v, eval(p, x));
        F::law_commutes(v, eval(t[c], x));
        lemma_times_cancel(v, eval(p, x), eval(t[c], x));
        lemma_eval_norm(p, x);
        lemma_eval_norm(t[c], x);
        lemma_eval_trimmed(padded, t[c].len(), x);
    }
    lemma_interpolation_unique(p, padded, xs);
    assert forall|m: int| 0 <= m < t[c].len() implies #[trigger] p[m] == norm(t[c][m]) by {
        assert(norm(p[m]) == norm(padded[m]));
        assert(padded[m] == t[c][m]);
    }
    assert forall|m: int| t[c].len() <= m < p.len() implies #[trigger] p[m] == F::zero() by {
        assert(norm(p[m]) == norm(padded[m]));
        assert(padded[m] == F::zero());
    }
}

proof fn lemma_shape<F: Field, C, I, E>(
    q: QuotientInputs<F, C>,
    hash: &I,
    betas: &Vec<F>,
    gammas: &Vec<F>,
    alphas: &Vec<F>,
    evaluator: E,
    polys: Seq<PolynomialCoeffs<F>>,
    bits: nat,
    c: int,
) where
    E: Fn(&QuotientBatch<F>, &ZeroPolyOnCoset<F>, &I, &Vec<F>, &Vec<F>, &Vec<F>) -> Vec<Vec<F>>,

    requires
        quotients_computed(q, hash, betas, gammas, alphas, evaluator, polys),
        exceeds_by(q.common_data, bits),
        0 <= c < polys.len(),
    ensures
        polys[c].coeffs@.len() == pow2(q.common_data.degree_bits as nat + bits),
        is_canonical(polys[c].coeffs@),
{
    lemma_exceeds_by(q.common_data, bits);
    let (bits2, z_h, batches, outs) = choose|
        bits: nat,
        z_h: &ZeroPolyOnCoset<F>,
        batches: Seq<QuotientBatch<F>>,
        outs: Seq<Vec<Vec<F>>>,
    |
        #[trigger] evaluated(
            q,
            hash,
            betas,
            gammas,
            alphas,
            evaluator,
            bits,
            z_h,
            batches,
            outs,
        ) && q.common_data.are_quotients(bits, rows(outs), polys);
    lemma_log2_unique(q.common_data.quotient_degree_factor as nat, bits, bits2);
    assert(interpolates(
        polys[c].coeffs@,
        q.common_data.quotient_values(bits, rows(outs), c),
        F::shift(),
        q.common_data.degree_bits as nat + bits,
    ));
}

/// The computation divides exactly: where the evaluator gives `t` times the vanishing polynomial at
/// each point that it is handed, the quotient polynomials are `t`.
pub proof fn law_exact_quotients<F: Field, C, H, I, E>(
    common_data: &CommonCircuitData<F>,
    prover_data: &ProverOnlyCircuitData<F, C, H>,
    public_inputs_hash: &I,
    wires_commitment: &PolynomialBatch<F, C>,
    zs_commitment: &PolynomialBatch<F, C>,
    betas: &Vec<F>,
    gammas: &Vec<F>,
    alphas: &Vec<F>,
    evaluator: E,
    r: Vec<PolynomialCoeffs<F>>,
    bits: nat,
    t: Seq<Seq<F>>,
    c: int,
) where
    E: Fn(&QuotientBatch<F>, &ZeroPolyOnCoset<F>, &I, &Vec<F>, &Vec<F>, &Vec<F>) -> Vec<Vec<F>>,

    requires
        quotient_inputs(*common_data, *prover_data, *wires_commitment, *zs_commitment).wf(),
        evaluates(
            quotient_inputs(*common_data, *prover_data, *wires_commitment, *zs_commitment),
            public_inputs_hash,
            betas,
            gammas,
            alphas,
            evaluator,
        ),
        call_ensures(
            compute_quotient_polys::<F, C, H, I, E>,
            (
                common_data,
                prover_data,
                public_inputs_hash,
                wires_commitment,
                zs_commitment,
                betas,
                gammas,
                alphas,
                evaluator,
            ),
            r,
        ),
        exceeds_by(*common_data, bits),
        t.len() == common_data.config.num_challenges,
        0 <= c < t.len(),
        t[c].len() <= pow2(common_data.degree_bits as nat + bits),
        gives_multiples(
            common_data.degree_bits as nat,
            public_inputs_hash,
            betas,
            gammas,
            alphas,
            evaluator,
            t,
        ),
    ensures
        r@.len() == t.len(),
        r@[c].coeffs@.len() == pow2(common_data.degree_bits as nat + bits),
        is_padded(r@[c].coeffs@, t[c]),
{
    lemma_recovered(
        quotient_inputs(*common_data, *prover_data, *wires_commitment, *zs_commitment),
        public_inputs_hash,
        betas,
        gammas,
        alphas,
        evaluator,
        r@,
        bits,
        t,
        c,
    );
}

/// The same of the computation that is offered for devices.
pub proof fn law_exact_quotients_gpu<F: Field, C, H, I, E>(
    common_data: &CommonCircuitData<F>,
    prover_data: &ProverOnlyCircuitData<F, C, H>,
    public_inputs_hash: &I,
    wires_commitment: &PolynomialBatch<F, C>,
    zs_commitment: &PolynomialBatch<F, C>,
    betas: &Vec<F>,
    gammas: &Vec<F>,
    alphas: &Vec<F>,
    evaluator: E,
    r: Vec<PolynomialCoeffs<F>>,
    bits: nat,
    t: Seq<Seq<F>>,
    c: int,
) where
    E: Fn(&QuotientBatch<F>, &ZeroPolyOnCoset<F>, &I, &Vec<F>, &Vec<F>, &Vec<F>) -> Vec<Vec<F>>,

    requires
        quotient_inputs(*common_data, *prover_data, *wires_commitment, *zs_commitment).wf(),
        evaluates(
            quotient_inputs(*common_data, *prover_data, *wires_commitment, *zs_commitment),
            public_inputs_hash,
            betas,
            gammas,
            alphas,
            evaluator,
        ),
        call_ensures(
            compute_quotient_polys_gpu::<F, C, H, I, E>,
            (
                common_data,
                prover_data,
                public_inputs_hash,
                wires_commitment,
                zs_commitment,
                betas,
                gammas,
                alphas,
                evaluator,
            ),
            r,
        ),
        exceeds_by(*common_data, bits),
        t.len() == common_data.config.num_challenges,
        0 <= c < t.len(),
        t[c].len() <= pow2(common_data.degree_bits as nat + bits),
        gives_multiples(
            common_data.degree_bits as nat,
            public_inputs_hash,
            betas,
            gammas,
            alphas,
            evaluator,
            t,
        ),
    ensures
        r@.len() == t.len(),
        r@[c].coeffs@.len() == pow2(common_data.degree_bits as nat + bits),
        is_padded(r@[c].coeffs@, t[c]),
{
    lemma_recovered(
        quotient_inputs(*common_data, *prover_data, *wires_commitment, *zs_commitment),
        public_inputs_hash,
        betas,
        gammas,
        alphas,
        evaluator,
        r@,
        bits,
        t,
        c,
    );
}

/// Splitting succeeds exactly if every polynomial has at least as many coefficients as there are
/// rows times the degree factor, and only zeros from there on. The pieces of challenge `c` come one
/// after the other, each with as many coefficients as there are rows, in order.
pub proof fn law_split<F: Field>(
    common_data: &CommonCircuitData<F>,
    polys: Vec<PolynomialCoeffs<F>>,
    r: Option<Vec<PolynomialCoeffs<F>>>,
    c: int,
    k: int,
    m: int,
)
    requires
        common_data.wf(),
        call_ensures(split_quotient_polys::<F>, (common_data, polys), r),
    ensures
        ({
            let n = pow2(common_data.degree_bits as nat) as int;
            let f = common_data.quotient_degree_factor as int;
            &&& r is Some <==> forall|d: int| #![trigger polys@[d]]
                0 <= d < polys@.len() ==> {
                    &&& f * n <= polys@[d].coeffs@.len()
                    &&& forall|u: int|
                        f * n <= u < polys@[d].coeffs@.len() ==> norm(
                            #[trigger] polys@[d].coeffs@[u],
                        ) == F::zero()
                }
            &&& r is Some ==> r->0@.len() == polys@.len() * f
            &&& r is Some && 0 <= c < polys@.len() && 0 <= k < f && 0 <= m < n ==> {
                &&& r->0@[c * f + k].coeffs@.len() == n
                &&& r->0@[c * f + k].coeffs@[m] == polys@[c].coeffs@[k * n + m]
            }
        }),
{
    let n = pow2(common_data.degree_bits as nat) as int;
    let f = common_data.quotient_degree_factor as int;
    assert forall|d: int| 0 <= d < polys@.len() implies (has_quotient_degree(
        *common_data,
        #[trigger] polys@[d],
    ) <==> f * n <= polys@[d].coeffs@.len() && forall|u: int|
        f * n <= u < polys@[d].coeffs@.len() ==> norm(#[trigger] polys@[d].coeffs@[u])
            == F::zero()) by {
        lemma_pow2_pos(common_data.degree_bits as nat);
        assert(0 <= f * n) by (nonlinear_arith)
            requires
                0 <= f,
                0 < n,
        ;
    }
    if r is Some && 0 <= c < polys@.len() && 0 <= k < f && 0 <= m < n {
        assert(has_quotient_degree(*common_data, polys@[c]));
        assert(r->0@[c * f + k].coeffs@ == piece(*common_data, polys@[c], k));
        assert(0 <= k * n && (k + 1) * n == k * n + n && k * n + n <= f * n) by (nonlinear_arith)
            requires
                0 <= k,
                k + 1 <= f,
                0 < n,
        ;
    }
}

/// The same of the round that splits the quotients: it fails exactly where splitting does, and asks
/// for a commitment to the pieces.
pub proof fn law_split_round<F: Field, C, I>(
    before: AlphasRound<F, C, I>,
    common_data: &CommonCircuitData<F>,
    polys: Vec<PolynomialCoeffs<F>>,
    r: Result<(QuotientRound<F, C>, CommitRequest<PolynomialCoeffs<F>>), ProverError>,
    c: int,
    k: int,
    m: int,
)
    requires
        common_data.wf(),
        before.wf(*common_data),
        call_ensures(
            AlphasRound::<F, C, I>::split_quotients,
            (before, common_data, polys),
            r,
        ),
    ensures
        ({
            let n = pow2(common_data.degree_bits as nat) as int;
            let f = common_data.quotient_degree_factor as int;
            &&& r is Ok <==> forall|d: int| #![trigger polys@[d]]
                0 <= d < polys@.len() ==> {
                    &&& f * n <= polys@[d].coeffs@.len()
                    &&& forall|u: int|
                        f * n <= u < polys@[d].coeffs@.len() ==> norm(
                            #[trigger] polys@[d].coeffs@[u],
                        ) == F::zero()
                }
            &&& r is Ok ==> r->Ok_0.1.polys@.len() == polys@.len() * f
            &&& r is Ok && 0 <= c < polys@.len() && 0 <= k < f && 0 <= m < n ==> {
                &&& r->Ok_0.1.polys@[c * f + k].coeffs@.len() == n
                &&& r->Ok_0.1.polys@[c * f + k].coeffs@[m] == polys@[c].coeffs@[k * n + m]
            }
        }),
{
    let n = pow2(common_data.degree_bits as nat) as int;
    let f = common_data.quotient_degree_factor as int;
    assert forall|d: int| 0 <= d < polys@.len() implies (has_quotient_degree(
        *common_data,
        #[trigger] polys@[d],
    ) <==> f * n <= polys@[d].coeffs@.len() && forall|u: int|
        f * n <= u < polys@[d].coeffs@.len() ==> norm(#[trigger] polys@[d].coeffs@[u])
            == F::zero()) by {
        lemma_pow2_pos(common_data.degree_bits as nat);
        assert(0 <= f * n) by (nonlinear_arith)
            requires
                0 <= f,
                0 < n,
        ;
    }
    if r is Ok && 0 <= c < polys@.len() && 0 <= k < f && 0 <= m < n {
        assert(has_quotient_degree(*common_data, polys@[c]));
        assert(r->Ok_0.1.polys@[c * f + k].coeffs@ == piece(*common_data, polys@[c], k));
        assert(0 <= k * n && (k + 1) * n == k * n + n && k * n + n <= f * n) by (nonlinear_arith)
            requires
                0 <= k,
                k + 1 <= f,
                0 < n,
        ;
    }
}

/// The pieces of a polynomial, recombined with powers of `x^n` for `n` rows, take its values.
pub proof fn law_pieces_recombine<F: Field>(
    common_data: &CommonCircuitData<F>,
    polys: Vec<PolynomialCoeffs<F>>,
    r: Option<Vec<PolynomialCoeffs<F>>>,
    c: int,
    x: F,
)
    requires
        common_data.wf(),
        call_ensures(split_quotient_polys::<F>, (common_data, polys), r),
        r is Some,
        0 <= c < polys@.len(),
    ensures
        recombined(
            Seq::new(
                common_data.quotient_degree_factor as nat,
                |k: int| r->0@[c * common_data.quotient_degree_factor + k].coeffs@,
            ),
            pow2(common_data.degree_bits as nat),
            x,
        ) == eval(polys@[c].coeffs@, x),
{
    let f = common_data.quotient_degree_factor as nat;
    assert(has_quotient_degree(*common_data, polys@[c]));
    lemma_pieces_recombine(*common_data, polys@[c], x);
    assert forall|k: int| 0 <= k < f implies r->0@[c * f + k].coeffs@ == piece(
        *common_data,
        polys@[c],
        k,
    ) by {
        assert(r->0@[c * common_data.quotient_degree_factor + k].coeffs@ == piece(
            *common_data,
            polys@[c],
            k,
        ));
    }
    assert(Seq::new(f, |k: int| r->0@[c * common_data.quotient_degree_factor + k].coeffs@)
        =~= Seq::new(f, |k: int| piece(*common_data, polys@[c], k)));
}

/// Where the evaluator gives `t` times the vanishing polynomial, and `t` has the degree of a
/// quotient, the prover goes on, and what it asks to commit to are the pieces of `t`.
pub proof fn law_exact_pieces<F: Field, C, H, I, E>(
    before: AlphasRound<F, C, I>,
    prover_data: &ProverOnlyCircuitData<F, C, H>,
    common_data: &CommonCircuitData<F>,
    alphas: &Vec<F>,
    evaluator: E,
    r: Result<(QuotientRound<F, C>, CommitRequest<PolynomialCoeffs<F>>), ProverError>,
    t: Seq<Seq<F>>,
    c: int,
    k: int,
    m: int,
) where
    E: Fn(&QuotientBatch<F>, &ZeroPolyOnCoset<F>, &I, &Vec<F>, &Vec<F>, &Vec<F>) -> Vec<Vec<F>>,

    requires
        tables_fit(*prover_data, *common_data),
        before.wf(*common_data),
        alphas@.len() == common_data.config.num_challenges,
        evaluates(
            quotient_inputs(
                *common_data,
                *prover_data,
                before.wires_commitment,
                before.zs_partial_products_commitment,
            ),
            &before.public_inputs_hash,
            &before.betas,
            &before.gammas,
            alphas,
            evaluator,
        ),
        call_ensures(
            AlphasRound::<F, C, I>::alphas_drawn::<H, E>,
            (before, prover_data, common_data, alphas, evaluator),
            r,
        ),
        t.len() == common_data.config.num_challenges,
        forall|d: int|
            0 <= d < t.len() ==> (#[trigger] t[d]).len() == common_data.quotient_degree_factor
                * pow2(common_data.degree_bits as nat),
        gives_multiples(
            common_data.degree_bits as nat,
            &before.public_inputs_hash,
            &before.betas,
            &before.gammas,
            alphas,
            evaluator,
            t,
        ),
        0 <= c < t.len(),
        0 <= k < common_data.quotient_degree_factor,
        0 <= m < pow2(common_data.degree_bits as nat),
    ensures
        r is Ok,
        ({
            let n = pow2(common_data.degree_bits as nat) as int;
            let f = common_data.quotient_degree_factor as int;
            let pieces = r->Ok_0.1.polys@;
            &&& pieces.len() == t.len() * f
            &&& pieces[c * f + k].coeffs@.len() == n
            &&& pieces[c * f + k].coeffs@[m] == norm(t[c][k * n + m])
        }),
{
    let cd = *common_data;
    let n = pow2(cd.degree_bits as nat) as int;
    let f = cd.quotient_degree_factor as int;
    let q = quotient_inputs(
        cd,
        *prover_data,
        before.wires_commitment,
        before.zs_partial_products_commitment,
    );
    let polys = choose|polys: Seq<PolynomialCoeffs<F>>|
        quotients_computed(
            q,
            &before.public_inputs_hash,
            &before.betas,
            &before.gammas,
            alphas,
            evaluator,
            polys,
        ) && #[trigger] before.quotients_split(cd, polys, r);
    let bits = choose|bits: nat| cd.has_quotient_bits(bits);
    assert(exists|bits: nat| cd.has_quotient_bits(bits)) by {
        let (b, z_h, batches, outs) = choose|
            bits: nat,
            z_h: &ZeroPolyOnCoset<F>,
            batches: Seq<QuotientBatch<F>>,
            outs: Seq<Vec<Vec<F>>>,
        |
            #[trigger] evaluated(
                q,
                &before.public_inputs_hash,
                &before.betas,
                &before.gammas,
                alphas,
                evaluator,
                bits,
                z_h,
                batches,
                outs,
            ) && q.common_data.are_quotients(bits, rows(outs), polys);
        assert(cd.has_quotient_bits(b));
    }
    assert(exceeds_by(cd, bits));
    lemma_quotient_bits(cd, bits);
    assert forall|d: int| 0 <= d < t.len() implies polys.len() == t.len() && is_padded(
        (#[trigger] polys[d]).coeffs@,
        t[d],
    ) by {
        assert(t[d].len() == f * n);
        lemma_recovered(
            q,
            &before.public_inputs_hash,
            &before.betas,
            &before.gammas,
            alphas,
            evaluator,
            polys,
            bits,
            t,
            d,
        );
    }
    assert(is_padded(polys[c].coeffs@, t[c]));
    lemma_neutral(F::zero());
    assert(all_have_quotient_degree(cd, polys)) by {
        assert forall|d: int| 0 <= d < polys.len() implies has_quotient_degree(
            cd,
            #[trigger] polys[d],
        ) by {
            assert(is_padded(polys[d].coeffs@, t[d]));
            assert(t[d].len() == f * n);
        }
    }
    assert(t[c].len() == f * n);
    assert(r->Ok_0.1.polys@[c * f + k].coeffs@ == piece(cd, polys[c], k));
    assert(0 <= k * n && (k + 1) * n == k * n + n && k * n + n <= f * n) by (nonlinear_arith)
        requires
            0 <= k,
            k + 1 <= f,
            0 < n,
    ;
}

/// The domain of the quotient: as many points as rows times the least sufficient power of two,
/// which are the powers of the root of that order. Its points lie `step` apart in the committed
/// extension, and `next_step` points of it lead to the next row.
pub proof fn law_domain<F: Field>(
    common_data: &CommonCircuitData<F>,
    r: QuotientDomain<F>,
    i: int,
)
    requires
        common_data.wf(),
        call_ensures(QuotientDomain::<F>::new, (common_data,), r),
        0 <= i < r.points@.len(),
    ensures
        ({
            let rate = common_data.config.fri_config.rate_bits as nat;
            let db = common_data.degree_bits as nat;
            &&& exceeds_by(*common_data, r.bits as nat)
            &&& r.next_step == pow2(r.bits as nat)
            &&& r.step * r.next_step == pow2(rate)
            &&& r.points@.len() == pow2(db) * r.next_step
            &&& r.points@[i] == pow(root_of::<F>(db + r.bits as nat), i as nat)
        }),
{
    let rate = common_data.config.fri_config.rate_bits as nat;
    let db = common_data.degree_bits as nat;
    let bits = r.bits as nat;
    assert(is_log2_ceil(common_data.quotient_degree_factor as nat, bits));
    lemma_pow2_adds((rate - bits) as nat, bits);
    lemma_pow2_adds(db, bits);
}

/// A batch that is collected for the evaluator holds, for each of its points, the values of the
/// committed polynomials at that point.
pub proof fn law_batch<F: Field, C>(
    domain: &QuotientDomain<F>,
    common_data: &CommonCircuitData<F>,
    constants_sigmas_commitment: &PolynomialBatch<F, C>,
    wires_commitment: &PolynomialBatch<F, C>,
    zs_commitment: &PolynomialBatch<F, C>,
    b: usize,
    r: QuotientBatch<F>,
    j: int,
    constants_sigmas: Seq<Seq<F>>,
    wires: Seq<Seq<F>>,
    zs: Seq<Seq<F>>,
)
    requires
        (QuotientInputs {
            common_data: *common_data,
            constants_sigmas: *constants_sigmas_commitment,
            wires: *wires_commitment,
            zs_partial_products: *zs_commitment,
        }).wf(),
        domain.wf(*common_data),
        b * BATCH_SIZE < domain.points@.len(),
        call_ensures(
            quotient_batch::<F, C>,
            (
                domain,
                common_data,
                constants_sigmas_commitment,
                wires_commitment,
                zs_commitment,
                b,
            ),
            r,
        ),
        0 <= j < r.indices@.len(),
        constants_sigmas.len() == common_data.num_constants + common_data.config.num_routed_wires,
        wires.len() == common_data.config.num_wires,
        zs.len() == common_data.config.num_challenges * (common_data.num_partial_products + 1),
        commits_to(
            *constants_sigmas_commitment,
            (common_data.degree_bits + common_data.config.fri_config.rate_bits) as nat,
            constants_sigmas,
        ),
        commits_to(
            *wires_commitment,
            (common_data.degree_bits + common_data.config.fri_config.rate_bits) as nat,
            wires,
        ),
        commits_to(
            *zs_commitment,
            (common_data.degree_bits + common_data.config.fri_config.rate_bits) as nat,
            zs,
        ),
    ensures
        ({
            let db = common_data.degree_bits as nat;
            let i = b * 32 + j;
            &&& r.indices@.len() == 32 || b * 32 + r.indices@.len() == domain.points@.len()
            &&& r.indices@.len() <= 32
            &&& is_entry(
                *common_data,
                r,
                j,
                i,
                F::shift().times(pow(root_of::<F>(db + domain.bits as nat), i as nat)),
                constants_sigmas,
                wires,
                zs,
            )
        }),
{
    let cd = *common_data;
    let bits = domain.bits as nat;
    let q = QuotientInputs {
        common_data: cd,
        constants_sigmas: *constants_sigmas_commitment,
        wires: *wires_commitment,
        zs_partial_products: *zs_commitment,
    };
    lemma_commits_to(cd, *constants_sigmas_commitment, constants_sigmas);
    lemma_commits_to(cd, *wires_commitment, wires);
    lemma_commits_to(cd, *zs_commitment, zs);
    assert(cd.lde_size(bits) == domain.points@.len());
    lemma_batch_values(q, bits, b as int, j, r, constants_sigmas, wires, zs);
    assert(q.holds_point(bits, b as int, j, r));
}

/// Dividing by the vanishing polynomial: multiplied by it, the results are the given values.
pub proof fn law_division<F: Field>(
    values: &Vec<Vec<F>>,
    start: usize,
    z_h: &ZeroPolyOnCoset<F>,
    r: Vec<Vec<F>>,
    j: int,
    c: int,
)
    requires
        z_h.wf(),
        start + values@.len() <= usize::MAX,
        call_ensures(divide_by_vanishing::<F>, (values, start, z_h), r),
        0 <= j < values@.len(),
        0 <= c < values@[j].len(),
    ensures
        r@.len() == values@.len(),
        r@[j].len() == values@[j].len(),
        ({
            let x = F::shift().times(
                pow(root_of::<F>((z_h.n_log + z_h.rate_bits) as nat), (start + j) as nat),
            );
            r@[j]@[c].times(minus(pow(x, pow2(z_h.n_log as nat)), F::one())) == norm(
                values@[j]@[c],
            )
        }),
{
    let (n, b) = (z_h.n_log as nat, z_h.rate_bits as nat);
    let i = (start + j) as nat;
    let x = domain_point::<F>(n, b, i);
    let v = vanishing_at(n, x);
    let o = values@[j]@[c];
    lemma_vanishing_nonzero::<F>(n, b, i);
    assert(r@[j]@ == crate::quotient::divided(values@[j]@, n, b, start + j));
    F::law_recip(v);
    F::law_commutes(v, v.recip());
    F::law_associates(o, v.recip(), v);
    lemma_neutral(o);
}

/// From values of the combined constraints, in batches of 32 points, to quotient polynomials:
/// multiplied by the vanishing polynomial, each takes the given values at the points of the domain.
pub proof fn law_finish<F: Field>(
    domain: &QuotientDomain<F>,
    common_data: &CommonCircuitData<F>,
    evaluations: &Vec<Vec<Vec<F>>>,
    r: Vec<PolynomialCoeffs<F>>,
    c: int,
    i: int,
)
    requires
        common_data.wf(),
        domain.wf(*common_data),
        common_data.are_evaluations(domain.bits as nat, rows(evaluations@)),
        call_ensures(finish_quotient_polys::<F>, (domain, common_data, evaluations), r),
        0 <= c < common_data.config.num_challenges,
        0 <= i < domain.points@.len(),
    ensures
        r@.len() == common_data.config.num_challenges,
        r@[c].coeffs@.len() == domain.points@.len(),
        ({
            let db = common_data.degree_bits as nat;
            let x = F::shift().times(
                pow(root_of::<F>(db + domain.bits as nat), i as nat),
            );
            eval(r@[c].coeffs@, x).times(minus(pow(x, pow2(db)), F::one())) == norm(
                evaluations@[i / 32]@[i % 32]@[c],
            )
        }),
{
    let bits = domain.bits as nat;
    let outs = rows(evaluations@);
    lemma_chunk_bounds(domain.points@.len(), 32, (i / 32) as nat);
    assert(outs[i / 32] == evaluations@[i / 32]@);
    lemma_quotient_times_vanishing(*common_data, bits, outs, r@, c, i);
    assert(interpolates(
        r@[c].coeffs@,
        common_data.quotient_values(bits, outs, c),
        F::shift(),
        common_data.degree_bits as nat + bits,
    ));
}

/// Interpolation of a table: the polynomial of column `c` takes the value in row `i` at the point
/// of the shifted domain with that index, and has as many coefficients as there are rows.
pub proof fn law_interpolate_columns<F: Field>(
    table: &Vec<Vec<F>>,
    k: usize,
    r: Vec<PolynomialCoeffs<F>>,
    c: int,
    i: int,
)
    requires
        k <= F::adicity(),
        table@.len() == pow2(k as nat),
        forall|j: int| 0 <= j < table@.len() ==> (#[trigger] table@[j]).len() == table@[0].len(),
        call_ensures(interpolate_columns::<F>, (table, k), r),
        0 <= c < table@[0].len(),
        0 <= i < table@.len(),
    ensures
        r@.len() == table@[0].len(),
        r@[c].coeffs@.len() == table@.len(),
        eval(r@[c].coeffs@, F::shift().times(pow(root_of::<F>(k as nat), i as nat))) == norm(
            table@[i]@[c],
        ),
{
    assert(rows(table@)[i] == table@[i]@);
    assert(interpolates(
        r@[c].coeffs@,
        transposed(rows(table@), table@[0].len() as nat)[c],
        F::shift(),
        k as nat,
    ));
    assert(coset_point(F::shift(), k as nat, i as nat) == F::shift().times(
        pow(root_of::<F>(k as nat), i as nat),
    ));
}

/// The computation takes every evaluator that is total and gives, for each point of a batch, one
/// value for each challenge, once the commitments lie on the circuit's domain and hold one value
/// for each wire and for each permutation polynomial and partial product, whatever blinds them.
pub proof fn law_quotients_accepted<F: Field, C, H, I, E>(
    common_data: &CommonCircuitData<F>,
    prover_data: &ProverOnlyCircuitData<F, C, H>,
    public_inputs_hash: &I,
    wires_commitment: &PolynomialBatch<F, C>,
    zs_commitment: &PolynomialBatch<F, C>,
    betas: &Vec<F>,
    gammas: &Vec<F>,
    alphas: &Vec<F>,
    evaluator: E,
) where
    E: Fn(&QuotientBatch<F>, &ZeroPolyOnCoset<F>, &I, &Vec<F>, &Vec<F>, &Vec<F>) -> Vec<Vec<F>>,

    requires
        tables_fit(*prover_data, *common_data),
        wires_commitment.degree_log == common_data.degree_bits,
        wires_commitment.rate_bits == common_data.config.fri_config.rate_bits,
        wires_commitment.leaves@.len() == pow2(
            (common_data.degree_bits + common_data.config.fri_config.rate_bits) as nat,
        ),
        forall|i: int|
            0 <= i < wires_commitment.leaves@.len() ==> (
            #[trigger] wires_commitment.leaves@[i]).len() == common_data.config.num_wires
                + wires_commitment.salt_size,
        zs_commitment.degree_log == common_data.degree_bits,
        zs_commitment.rate_bits == common_data.config.fri_config.rate_bits,
        zs_commitment.leaves@.len() == pow2(
            (common_data.degree_bits + common_data.config.fri_config.rate_bits) as nat,
        ),
        forall|i: int|
            0 <= i < zs_commitment.leaves@.len() ==> (#[trigger] zs_commitment.leaves@[i]).len()
                == common_data.config.num_challenges * (1 + common_data.num_partial_products)
                + zs_commitment.salt_size,
        forall|batch: &QuotientBatch<F>, z_h: &ZeroPolyOnCoset<F>|
            #[trigger] call_requires(
                evaluator,
                (batch, z_h, public_inputs_hash, betas, gammas, alphas),
            ),
        forall|batch: &QuotientBatch<F>, z_h: &ZeroPolyOnCoset<F>, out: Vec<Vec<F>>|
            #[trigger] call_ensures(
                evaluator,
                (batch, z_h, public_inputs_hash, betas, gammas, alphas),
                out,
            ) ==> out@.len() == batch.indices@.len() && forall|j: int|
                0 <= j < out@.len() ==> (#[trigger] out@[j]).len()
                    == common_data.config.num_challenges,
    ensures
        call_requires(
            compute_quotient_polys::<F, C, H, I, E>,
            (
                common_data,
                prover_data,
                public_inputs_hash,
                wires_commitment,
                zs_commitment,
                betas,
                gammas,
                alphas,
                evaluator,
            ),
        ),
{
    let q = quotient_inputs(*common_data, *prover_data, *wires_commitment, *zs_commitment);
    assert(q.wf());
    assert(evaluates(q, public_inputs_hash, betas, gammas, alphas, evaluator));
}

} // verus!
