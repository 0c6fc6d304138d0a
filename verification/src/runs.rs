//! Whole runs of the prover: without zero knowledge, equal inputs lead to equal proofs.
use vstd::prelude::*;
use crate::agreement::{evaluators_agree, lemma_quotients_agree, same_inputs, same_on_domain};
use crate::circuit_data::{CommonCircuitData, ProverOnlyCircuitData};
use crate::field::{Field, TwoAdicRing, root_of};
use crate::oracle::PolynomialBatch;
use crate::permutation::PermutationInputs;
use crate::polynomial::{PolynomialCoeffs, PolynomialValues, coefficients, values_of};
use crate::prover::{
    AlphasRound, CommitRequest, OpeningProofRound, OpeningsRound, PermutationRound, PlonkOracle,
    ProofWithPublicInputs, QuotientRound, WiresRound, ZetaRound, ZsRound, commits_with,
    is_quotient_batch, is_zs_batch, permutation_values, proving_started, tables_fit, zs_width,
};
use crate::quotient::{
    QuotientBatch, QuotientInputs, evaluates, lemma_quotient_bits, lemma_step, on_circuit_domain,
    piece, quotient_inputs, quotients_computed,
};
use crate::util::{lemma_reversed_bound, rows};
use crate::witness::PartitionWitness;
use crate::zero_poly_coset::ZeroPolyOnCoset;

verus! {

/// The rounds of one run of the prover, with the requests between them and the replies to these.
pub struct ProverRun<F, C, I, E, O, P, V> {
    pub partition_witness: PartitionWitness<F>,
    pub wires_round: WiresRound<F>,
    pub wires_request: CommitRequest<PolynomialValues<F>>,
    pub permutation_round: PermutationRound<F, C, I>,
    pub zs_round: ZsRound<F, C, I>,
    pub zs_request: CommitRequest<PolynomialValues<F>>,
    pub alphas_round: AlphasRound<F, C, I>,
    pub alphas: Vec<F>,
    pub evaluator: V,
    pub quotient_polys: Seq<PolynomialCoeffs<F>>,
    pub quotient_round: QuotientRound<F, C>,
    pub quotient_request: CommitRequest<PolynomialCoeffs<F>>,
    pub zeta_round: ZetaRound<F, C>,
    pub openings_round: OpeningsRound<F, C, E>,
    pub opening_proof_round: OpeningProofRound<F, C, E, O>,
    pub result: ProofWithPublicInputs<F, C, O, P>,
}

impl<F: Field, C, I, E: TwoAdicRing, O, P, V> ProverRun<F, C, I, E, O, P, V> where
    V: Fn(&QuotientBatch<F>, &ZeroPolyOnCoset<F>, &I, &Vec<F>, &Vec<F>, &Vec<F>) -> Vec<Vec<F>>,
 {
    /// What the quotient polynomials are computed from.
    pub open spec fn quotient_inputs<H>(
        self,
        prover_data: ProverOnlyCircuitData<F, C, H>,
        common_data: CommonCircuitData<F>,
    ) -> QuotientInputs<F, C> {
        quotient_inputs(
            common_data,
            prover_data,
            self.alphas_round.wires_commitment,
            self.alphas_round.zs_partial_products_commitment,
        )
    }

    /// Every round follows on the one before it, and the result on the last one.
    pub open spec fn is_run<H>(
        self,
        prover_data: ProverOnlyCircuitData<F, C, H>,
        common_data: CommonCircuitData<F>,
    ) -> bool {
        let permutation = self.permutation_round;
        let zs = self.zs_round;
        let alphas = self.alphas_round;
        let q = self.quotient_inputs(prover_data, common_data);
        &&& tables_fit(prover_data, common_data)
        &&& proving_started(
            prover_data,
            common_data,
            self.partition_witness,
            self.wires_round,
            self.wires_request,
        )
        &&& permutation.wf(common_data)
        &&& permutation.follows(
            self.wires_round,
            permutation.public_inputs_hash,
            permutation.wires_commitment,
        )
        &&& zs.wf(common_data)
        &&& zs.follows(permutation, zs.betas, zs.gammas)
        &&& is_zs_batch(
            self.zs_request.polys@,
            permutation.witness,
            zs.betas@,
            zs.gammas@,
            prover_data,
            common_data,
        )
        &&& commits_with(common_data, PlonkOracle::ZsPartialProducts, self.zs_request)
        &&& alphas.wf(common_data)
        &&& alphas.follows(zs, alphas.zs_partial_products_commitment)
        &&& evaluates(
            q,
            &alphas.public_inputs_hash,
            &alphas.betas,
            &alphas.gammas,
            &self.alphas,
            self.evaluator,
        )
        &&& quotients_computed(
            q,
            &alphas.public_inputs_hash,
            &alphas.betas,
            &alphas.gammas,
            &self.alphas,
            self.evaluator,
            self.quotient_polys,
        )
        &&& alphas.quotients_split(
            common_data,
            self.quotient_polys,
            Ok((self.quotient_round, self.quotient_request)),
        )
        &&& self.zeta_round.follows(self.quotient_round, self.zeta_round.quotient_commitment)
        &&& self.openings_round.follows(self.zeta_round, self.openings_round.zeta)
        &&& self.openings_round.g == root_of::<E>(common_data.degree_bits as nat)
        &&& self.opening_proof_round.follows(
            self.openings_round,
            self.opening_proof_round.openings,
        )
        &&& self.result.follows(self.opening_proof_round, self.result.proof.opening_proof)
    }
}

/// The commitments hold the same rows and have the same cap.
pub open spec fn same_commitment<F, C>(a: PolynomialBatch<F, C>, b: PolynomialBatch<F, C>) -> bool {
    &&& rows(a.leaves@) == rows(b.leaves@)
    &&& a.cap == b.cap
    &&& a.degree_log == b.degree_log
    &&& a.rate_bits == b.rate_bits
    &&& a.salt_size == b.salt_size
}

/// The requests have the same parameters.
pub open spec fn same_parameters<T>(a: CommitRequest<T>, b: CommitRequest<T>) -> bool {
    &&& a.rate_bits == b.rate_bits
    &&& a.blinding == b.blinding
    &&& a.cap_height == b.cap_height
}

/// What the transcript absorbs before the challenges of the permutation argument is the same.
pub open spec fn same_wires_transcript<F, C, I>(
    a: PermutationRound<F, C, I>,
    b: PermutationRound<F, C, I>,
) -> bool {
    &&& a.public_inputs_hash == b.public_inputs_hash
    &&& a.wires_commitment.cap == b.wires_commitment.cap
}

/// Between two runs for one circuit, the caller replies in the same way to the same requests:
/// hashes depend on the public inputs, commitments without blinding on the polynomials and the
/// parameters, challenges on what the transcript absorbed, values of the constraints on the batch,
/// the hash and the challenges, and openings on the points and the commitments.
pub open spec fn replies_repeat<F: Field, C, I, E: TwoAdicRing, O, P, V>(
    a: ProverRun<F, C, I, E, O, P, V>,
    b: ProverRun<F, C, I, E, O, P, V>,
) -> bool where
    V: Fn(&QuotientBatch<F>, &ZeroPolyOnCoset<F>, &I, &Vec<F>, &Vec<F>, &Vec<F>) -> Vec<Vec<F>>,
 {
    let wires = same_wires_transcript(a.permutation_round, b.permutation_round);
    let zs = wires && a.alphas_round.zs_partial_products_commitment.cap
        == b.alphas_round.zs_partial_products_commitment.cap;
    let quotients = zs && a.zeta_round.quotient_commitment.cap
        == b.zeta_round.quotient_commitment.cap;
    &&& a.wires_round.public_inputs@ == b.wires_round.public_inputs@
        ==> a.permutation_round.public_inputs_hash == b.permutation_round.public_inputs_hash
    &&& values_of(a.wires_request.polys@) == values_of(b.wires_request.polys@)
        && same_parameters(a.wires_request, b.wires_request) && !a.wires_request.blinding
        ==> same_commitment(
        a.permutation_round.wires_commitment,
        b.permutation_round.wires_commitment,
    )
    &&& wires ==> a.zs_round.betas@ == b.zs_round.betas@ && a.zs_round.gammas@
        == b.zs_round.gammas@
    &&& values_of(a.zs_request.polys@) == values_of(b.zs_request.polys@) && same_parameters(
        a.zs_request,
        b.zs_request,
    ) && !a.zs_request.blinding ==> same_commitment(
        a.alphas_round.zs_partial_products_commitment,
        b.alphas_round.zs_partial_products_commitment,
    )
    &&& zs ==> a.alphas@ == b.alphas@
    &&& a.alphas_round.public_inputs_hash == b.alphas_round.public_inputs_hash
        && a.alphas_round.betas@ == b.alphas_round.betas@ && a.alphas_round.gammas@
        == b.alphas_round.gammas@ && a.alphas@ == b.alphas@ ==> evaluators_agree(
        &a.alphas_round.public_inputs_hash,
        &a.alphas_round.betas,
        &a.alphas_round.gammas,
        &a.alphas,
        a.evaluator,
        &b.alphas_round.public_inputs_hash,
        &b.alphas_round.betas,
        &b.alphas_round.gammas,
        &b.alphas,
        b.evaluator,
    )
    &&& coefficients(a.quotient_request.polys@) == coefficients(b.quotient_request.polys@)
        && same_parameters(a.quotient_request, b.quotient_request) && !a.quotient_request.blinding
        ==> same_commitment(a.zeta_round.quotient_commitment, b.zeta_round.quotient_commitment)
    &&& quotients ==> a.openings_round.zeta == b.openings_round.zeta
    &&& a.openings_round.zeta == b.openings_round.zeta && a.openings_round.g == b.openings_round.g
        && same_commitment(a.openings_round.wires_commitment, b.openings_round.wires_commitment)
        && same_commitment(
        a.openings_round.zs_partial_products_commitment,
        b.openings_round.zs_partial_products_commitment,
    ) && same_commitment(
        a.openings_round.quotient_commitment,
        b.openings_round.quotient_commitment,
    ) ==> a.opening_proof_round.openings == b.opening_proof_round.openings
}

/// The values that the two permutation arguments are about are the same.
pub open spec fn same_permutation<F: Field>(
    a: PermutationInputs<F>,
    b: PermutationInputs<F>,
) -> bool {
    &&& a.k_is == b.k_is
    &&& a.subgroup == b.subgroup
    &&& a.routed == b.routed
    &&& a.beta == b.beta
    &&& a.gamma == b.gamma
    &&& forall|i: int, j: int|
        0 <= i < a.subgroup.len() && 0 <= j < a.routed ==> #[trigger] (a.wires)(i, j) == (b.wires)(
            i,
            j,
        ) && (a.sigmas)(i, j) == (b.sigmas)(i, j)
}

/// The same values give the same quotients and the same `Z`.
proof fn lemma_same_z<F: Field>(
    a: PermutationInputs<F>,
    b: PermutationInputs<F>,
    size: nat,
    num_prods: nat,
    i: nat,
)
    requires
        same_permutation(a, b),
        i <= a.subgroup.len(),
    ensures
        a.z(size, num_prods, i) == b.z(size, num_prods, i),
        i < a.subgroup.len() ==> a.quotients(i as int) == b.quotients(i as int),
    decreases i,
{
    if i < a.subgroup.len() {
        assert forall|j: int| 0 <= j < a.routed implies a.numerators(i as int)[j] == b.numerators(
            i as int,
        )[j] && a.denominators(i as int)[j] == b.denominators(i as int)[j] by {
            assert((a.wires)(i as int, j) == (b.wires)(i as int, j));
        }
        assert(a.numerators(i as int) =~= b.numerators(i as int));
        assert(a.denominators(i as int) =~= b.denominators(i as int));
    }
    if i > 0 {
        lemma_same_z(a, b, size, num_prods, (i - 1) as nat);
    }
}

/// The same values give the same permutation polynomials and partial products.
pub proof fn lemma_same_permutation<F: Field>(
    a: PermutationInputs<F>,
    b: PermutationInputs<F>,
    size: nat,
    num_prods: nat,
)
    requires
        same_permutation(a, b),
    ensures
        a.polynomials(size, num_prods) == b.polynomials(size, num_prods),
{
    assert forall|i: int| 0 <= i < a.subgroup.len() implies a.all_rows(size, num_prods)[i]
        == b.all_rows(size, num_prods)[i] by {
        lemma_same_z(a, b, size, num_prods, i as nat);
    }
    assert(a.all_rows(size, num_prods) =~= b.all_rows(size, num_prods));
}

/// Batches of permutation polynomials for the same values are the same.
proof fn lemma_same_zs_batch<F: Field>(
    cd: CommonCircuitData<F>,
    a: Seq<PolynomialValues<F>>,
    b: Seq<PolynomialValues<F>>,
    values: spec_fn(int) -> Seq<Seq<F>>,
)
    requires
        a.len() == zs_width(cd),
        b.len() == zs_width(cd),
        forall|i: int|
            0 <= i < cd.config.num_challenges ==> (#[trigger] a[i]).values@ == values(
                i,
            )[cd.num_partial_products as int] && b[i].values@ == values(
                i,
            )[cd.num_partial_products as int],
        forall|i: int, c: int|
            0 <= i < cd.config.num_challenges && 0 <= c < cd.num_partial_products
                ==> a[cd.config.num_challenges + i * cd.num_partial_products + c].values@
                == #[trigger] values(i)[c] && b[cd.config.num_challenges + i
                * cd.num_partial_products + c].values@ == values(i)[c],
    ensures
        values_of(a) == values_of(b),
{
    let nc = cd.config.num_challenges as int;
    let np = cd.num_partial_products as int;
    assert(nc * (np + 1) == nc + nc * np) by (nonlinear_arith);
    assert forall|t: int| 0 <= t < a.len() implies values_of(a)[t] == values_of(b)[t] by {
        if t < nc {
            assert(a[t].values@ == values(t)[np]);
        } else {
            let s = t - nc;
            assert(0 < np) by (nonlinear_arith)
                requires
                    0 <= s < nc * np,
                    0 <= np,
                    0 <= nc,
            ;
            let i = s / np;
            let c = s % np;
            assert(0 <= i < nc && 0 <= c < np && s == i * np + c) by (nonlinear_arith)
                requires
                    i == s / np,
                    c == s % np,
                    0 <= s < nc * np,
                    0 < np,
            ;
            assert(a[nc + i * np + c].values@ == values(i)[c]);
        }
    }
    assert(values_of(a) =~= values_of(b));
}

/// The pieces of the same quotient polynomials are the same.
proof fn lemma_same_quotient_batch<F: Field>(
    cd: CommonCircuitData<F>,
    a: Seq<PolynomialCoeffs<F>>,
    b: Seq<PolynomialCoeffs<F>>,
    polys_a: Seq<PolynomialCoeffs<F>>,
    polys_b: Seq<PolynomialCoeffs<F>>,
)
    requires
        is_quotient_batch(a, cd, polys_a),
        is_quotient_batch(b, cd, polys_b),
        coefficients(polys_a) == coefficients(polys_b),
    ensures
        coefficients(a) == coefficients(b),
{
    let f = cd.quotient_degree_factor as int;
    assert(coefficients(polys_a).len() == polys_a.len());
    assert(coefficients(polys_b).len() == polys_b.len());
    let n = polys_a.len() as int;
    assert forall|t: int| 0 <= t < a.len() implies coefficients(a)[t] == coefficients(b)[t] by {
        assert(0 < f) by (nonlinear_arith)
            requires
                0 <= t < n * f,
                0 <= f,
                0 <= n,
        ;
        let c = t / f;
        let k = t % f;
        assert(0 <= c < n && 0 <= k < f && t == c * f + k) by (nonlinear_arith)
            requires
                c == t / f,
                k == t % f,
                0 <= t < n * f,
                0 < f,
        ;
        assert(coefficients(polys_a)[c] == polys_a[c].coeffs@);
        assert(coefficients(polys_b)[c] == polys_b[c].coeffs@);
        assert(a[c * f + k].coeffs@ == piece(cd, polys_a[c], k));
        assert(b[c * f + k].coeffs@ == piece(cd, polys_b[c], k));
    }
    assert(coefficients(a) =~= coefficients(b));
}

/// The same commitments hold the same rows at the points of the quotient's domain.
proof fn lemma_same_commitment_on_domain<F: Field, C>(
    bits: nat,
    cd: CommonCircuitData<F>,
    a: PolynomialBatch<F, C>,
    b: PolynomialBatch<F, C>,
    width: nat,
)
    requires
        cd.wf(),
        cd.has_quotient_bits(bits),
        on_circuit_domain(cd, a),
        a.wf(width),
        same_commitment(a, b),
    ensures
        same_on_domain(bits, cd, a, cd, b),
{
    let step = cd.step(bits);
    let k = (cd.degree_bits + cd.config.fri_config.rate_bits) as nat;
    lemma_quotient_bits(cd, bits);
    assert forall|i: int| 0 <= i < cd.lde_size(bits) implies #[trigger] a.lde_row(i, step)
        == b.lde_row(i, step) by {
        lemma_step::<F>(
            cd.degree_bits as nat,
            bits,
            cd.config.fri_config.rate_bits as nat,
            i as nat,
        );
        assert(0 <= i * step) by (nonlinear_arith)
            requires
                0 <= i,
                0 <= step,
        ;
        lemma_reversed_bound((i * step) as nat, k);
        let r = crate::util::reversed((i * step) as nat, k) as int;
        assert(rows(a.leaves@).len() == a.leaves@.len());
        assert(rows(a.leaves@)[r] == a.leaves@[r]@);
        assert(rows(b.leaves@).len() == b.leaves@.len());
        assert(rows(b.leaves@)[r] == b.leaves@[r]@);
    }
}

/// Without zero knowledge, two runs from the same witness agree, where the caller replies in the
/// same way to the same requests: the proofs have the same public inputs, the same commitments and
/// the same openings.
pub proof fn lemma_runs_agree<F: Field, C, H, I, E: TwoAdicRing, O, P, V>(
    prover_data: ProverOnlyCircuitData<F, C, H>,
    common_data: CommonCircuitData<F>,
    a: ProverRun<F, C, I, E, O, P, V>,
    b: ProverRun<F, C, I, E, O, P, V>,
) where
    V: Fn(&QuotientBatch<F>, &ZeroPolyOnCoset<F>, &I, &Vec<F>, &Vec<F>, &Vec<F>) -> Vec<Vec<F>>,

    requires
        !common_data.config.zero_knowledge,
        a.is_run(prover_data, common_data),
        b.is_run(prover_data, common_data),
        a.partition_witness == b.partition_witness,
        replies_repeat(a, b),
    ensures
        a.result.public_inputs@ == b.result.public_inputs@,
        a.result.proof.wires_cap == b.result.proof.wires_cap,
        a.result.proof.plonk_zs_partial_products_cap
            == b.result.proof.plonk_zs_partial_products_cap,
        a.result.proof.quotient_polys_cap == b.result.proof.quotient_polys_cap,
        a.result.proof.openings == b.result.proof.openings,
{
    let cd = common_data;
    // The first round.
    lemma_same_witness(prover_data, cd, a, b);
    // The permutation argument.
    let (wa, wb) = (a.permutation_round.witness, b.permutation_round.witness);
    let (ba, bb) = (a.zs_round.betas@, b.zs_round.betas@);
    let (ga, gb) = (a.zs_round.gammas@, b.zs_round.gammas@);
    assert(ba == bb && ga == gb);
    let values = |i: int| permutation_values(wa, ba, ga, prover_data, cd, i);
    assert forall|i: int| 0 <= i < cd.config.num_challenges implies #[trigger] values(i)
        == permutation_values(wb, bb, gb, prover_data, cd, i) by {
        lemma_same_permutation(
            crate::permutation::permutation_of(wa, ba[i], ga[i], prover_data, cd),
            crate::permutation::permutation_of(wb, bb[i], gb[i], prover_data, cd),
            cd.quotient_degree_factor as nat,
            cd.num_partial_products as nat,
        );
    }
    let (pa, pb) = (a.zs_request.polys@, b.zs_request.polys@);
    let nc = cd.config.num_challenges as int;
    let np = cd.num_partial_products as int;
    assert forall|i: int| 0 <= i < nc implies (#[trigger] pa[i]).values@ == values(i)[np]
        && pb[i].values@ == values(i)[np] by {
        assert(values(i) == permutation_values(wb, bb, gb, prover_data, cd, i));
        assert(pb[i].values@ == permutation_values(wb, bb, gb, prover_data, cd, i)[np]);
    }
    assert forall|i: int, c: int| 0 <= i < nc && 0 <= c < np implies pa[nc + i * np + c].values@
        == #[trigger] values(i)[c] && pb[nc + i * np + c].values@ == values(i)[c] by {
        assert(values(i) == permutation_values(wb, bb, gb, prover_data, cd, i));
        assert(pa[nc + i * np + c].values@ == permutation_values(
            wa,
            ba,
            ga,
            prover_data,
            cd,
            i,
        )[c]);
        assert(pb[nc + i * np + c].values@ == permutation_values(
            wb,
            bb,
            gb,
            prover_data,
            cd,
            i,
        )[c]);
    }
    lemma_same_zs_batch(cd, pa, pb, values);
    // The quotient polynomials.
    let (qa, qb) = (a.quotient_inputs(prover_data, cd), b.quotient_inputs(prover_data, cd));
    assert forall|bits: nat| #[trigger] cd.has_quotient_bits(bits) implies same_on_domain(
        bits,
        cd,
        qa.constants_sigmas,
        cd,
        qb.constants_sigmas,
    ) && same_on_domain(bits, cd, qa.wires, cd, qb.wires) && same_on_domain(
        bits,
        cd,
        qa.zs_partial_products,
        cd,
        qb.zs_partial_products,
    ) by {
        lemma_same_commitment_on_domain(bits, cd, qa.wires, qb.wires, cd.config.num_wires as nat);
        lemma_same_commitment_on_domain(
            bits,
            cd,
            qa.zs_partial_products,
            qb.zs_partial_products,
            zs_width(cd),
        );
    }
    assert(same_inputs(qa, qb));
    lemma_quotients_agree(
        qa,
        &a.alphas_round.public_inputs_hash,
        &a.alphas_round.betas,
        &a.alphas_round.gammas,
        &a.alphas,
        a.evaluator,
        a.quotient_polys,
        qb,
        &b.alphas_round.public_inputs_hash,
        &b.alphas_round.betas,
        &b.alphas_round.gammas,
        &b.alphas,
        b.evaluator,
        b.quotient_polys,
    );
    lemma_same_quotient_batch(
        cd,
        a.quotient_request.polys@,
        b.quotient_request.polys@,
        a.quotient_polys,
        b.quotient_polys,
    );
}

/// Runs from the same witness start in the same way.
proof fn lemma_same_witness<F: Field, C, H, I, E: TwoAdicRing, O, P, V>(
    prover_data: ProverOnlyCircuitData<F, C, H>,
    common_data: CommonCircuitData<F>,
    a: ProverRun<F, C, I, E, O, P, V>,
    b: ProverRun<F, C, I, E, O, P, V>,
) where
    V: Fn(&QuotientBatch<F>, &ZeroPolyOnCoset<F>, &I, &Vec<F>, &Vec<F>, &Vec<F>) -> Vec<Vec<F>>,

    requires
        a.is_run(prover_data, common_data),
        b.is_run(prover_data, common_data),
        a.partition_witness == b.partition_witness,
    ensures
        a.wires_round.public_inputs@ == b.wires_round.public_inputs@,
        values_of(a.wires_request.polys@) == values_of(b.wires_request.polys@),
        forall|i: int, j: int|
            0 <= i < common_data.degree_spec() && 0 <= j < common_data.config.num_wires
                ==> #[trigger] a.wires_round.witness.wire(i, j) == b.wires_round.witness.wire(i, j),
{
    let (wa, wb) = (a.wires_round.witness, b.wires_round.witness);
    assert forall|i: int, j: int|
        0 <= i < common_data.degree_spec() && 0 <= j
            < common_data.config.num_wires implies #[trigger] wa.wire(i, j) == wb.wire(i, j) by {
        assert(wb.wire(i, j) == b.partition_witness.wire_or_zero(i, j));
    }
    assert forall|j: int| 0 <= j < common_data.config.num_wires implies rows(wa.wire_values@)[j]
        == rows(wb.wire_values@)[j] by {
        let (ca, cb) = (wa.wire_values@[j]@, wb.wire_values@[j]@);
        assert(wa.wire_values@[j].len() == common_data.degree_spec());
        assert(wb.wire_values@[j].len() == common_data.degree_spec());
        assert forall|i: int| 0 <= i < ca.len() implies ca[i] == cb[i] by {
            assert(wa.wire(i, j) == wb.wire(i, j));
        }
        assert(ca =~= cb);
    }
    assert(rows(wa.wire_values@) =~= rows(wb.wire_values@));
}

} // verus!
