//! Laws of the rounds: what is asked for between them, what they hand on, and what the transcript
//! absorbs.
use vstd::arithmetic::power2::pow2;
use vstd::prelude::*;
use crate::circuit_data::{CommonCircuitData, ProverOnlyCircuitData};
use crate::field::{Field, TwoAdicRing, lemma_root_of, root_of};
use crate::oracle::PolynomialBatch;
use crate::polynomial::{PolynomialCoeffs, PolynomialValues, values_of};
use crate::prover::{
    AlphasRound, CommitRequest, OpeningProofRound, OpeningsRound, PermutationRound, PlonkOracle,
    ProofWithPublicInputs, ProverError, QuotientRound, TranscriptStep, WiresRound, ZetaRound,
    ZsRound, full_transcript, lemma_opening_points, prove, prove_with_partition_witness,
    proving_started, tables_fit, witness_fits,
};
use crate::quotient::{QuotientBatch, evaluates, quotient_inputs, quotients_computed};
use crate::ring::{norm, pow};
use crate::util::rows;
use crate::witness::{PartitionWitness, Target};
use crate::zero_poly_coset::ZeroPolyOnCoset;

verus! {

/// The batch is what was asked for: a commitment to as many polynomials as the request holds, of
/// the given degree and with the rate of the request.
pub open spec fn answers<F, C, T>(
    batch: PolynomialBatch<F, C>,
    request: CommitRequest<T>,
    degree_bits: usize,
) -> bool {
    &&& batch.degree_log == degree_bits
    &&& batch.rate_bits == request.rate_bits
    &&& batch.leaves@.len() == pow2((degree_bits + request.rate_bits) as nat)
    &&& forall|i: int|
        0 <= i < batch.leaves@.len() ==> (#[trigger] batch.leaves@[i]).len()
            == request.polys@.len() + batch.salt_size
}

/// Commitments to a batch are blinded where the circuit asks for zero knowledge, but for the one
/// that belongs to the circuit itself.
pub proof fn law_blinding(oracle: &PlonkOracle, r: bool)
    requires
        call_ensures(PlonkOracle::blinding, (oracle,), r),
    ensures
        *oracle is ConstantsSigmas ==> !r,
        *oracle is Wires || *oracle is ZsPartialProducts || *oracle is Quotient ==> r,
{
}

/// The commitment to the wires is asked for with the circuit's rate, cap height and blinding; it
/// holds one polynomial for each wire; and the next round takes it, whatever the hash is.
pub proof fn law_wires_request<F: Field, C, H, I>(
    prover_data: &ProverOnlyCircuitData<F, C, H>,
    common_data: &CommonCircuitData<F>,
    w: PartitionWitness<F>,
    r: (WiresRound<F>, CommitRequest<PolynomialValues<F>>),
    hash: I,
    batch: PolynomialBatch<F, C>,
)
    requires
        tables_fit(*prover_data, *common_data),
        witness_fits(*prover_data, *common_data, w),
        call_ensures(prove_with_partition_witness::<F, C, H>, (prover_data, common_data, w), r),
    ensures
        r.1.polys@.len() == common_data.config.num_wires,
        r.1.rate_bits == common_data.config.fri_config.rate_bits,
        r.1.cap_height == common_data.config.fri_config.cap_height,
        r.1.blinding == common_data.config.zero_knowledge,
        answers(batch, r.1, common_data.degree_bits) ==> call_requires(
            WiresRound::<F>::wires_committed::<C, I>,
            (r.0, common_data, hash, batch),
        ),
{
    assert(values_of(r.1.polys@).len() == rows(r.0.witness.wire_values@).len());
    if answers(batch, r.1, common_data.degree_bits) {
        assert(batch.wf(common_data.config.num_wires as nat));
    }
}

/// The commitment to the permutation polynomials is asked for with the circuit's rate, cap height
/// and blinding; it holds one permutation polynomial and all partial products for each challenge;
/// the next round takes it; and nothing else changes.
pub proof fn law_permutation_request<F: Field, C, H, I>(
    before: PermutationRound<F, C, I>,
    prover_data: &ProverOnlyCircuitData<F, C, H>,
    common_data: &CommonCircuitData<F>,
    betas: Vec<F>,
    gammas: Vec<F>,
    r: Result<(ZsRound<F, C, I>, CommitRequest<PolynomialValues<F>>), ProverError>,
    batch: PolynomialBatch<F, C>,
)
    requires
        tables_fit(*prover_data, *common_data),
        before.wf(*common_data),
        betas@.len() == common_data.config.num_challenges,
        gammas@.len() == common_data.config.num_challenges,
        call_ensures(
            PermutationRound::<F, C, I>::permutation_challenged::<H>,
            (before, prover_data, common_data, betas, gammas),
            r,
        ),
    ensures
        r matches Err(e) ==> e == ProverError::ZeroDenominator,
        r matches Ok((round, request)) ==> {
            &&& request.polys@.len() == common_data.config.num_challenges * (1
                + common_data.num_partial_products)
            &&& request.rate_bits == common_data.config.fri_config.rate_bits
            &&& request.cap_height == common_data.config.fri_config.cap_height
            &&& request.blinding == common_data.config.zero_knowledge
            &&& answers(batch, request, common_data.degree_bits) ==> call_requires(
                ZsRound::<F, C, I>::zs_committed,
                (round, common_data, batch),
            )
            &&& round.public_inputs == before.public_inputs
            &&& round.public_inputs_hash == before.public_inputs_hash
            &&& round.wires_commitment == before.wires_commitment
            &&& round.betas == betas
            &&& round.gammas == gammas
            &&& round.transcript@ == before.transcript@
        },
{
    if let Ok((round, request)) = r {
        if answers(batch, request, common_data.degree_bits) {
            assert(batch.wf(request.polys@.len()));
        }
    }
}

/// The commitment to the pieces of the quotients is asked for with the circuit's rate, cap height
/// and blinding; it holds as many pieces of each quotient as its degree exceeds the rows by; the
/// next round takes it; and nothing else changes.
pub proof fn law_quotient_request<F: Field, C, I>(
    before: AlphasRound<F, C, I>,
    common_data: &CommonCircuitData<F>,
    polys: Vec<PolynomialCoeffs<F>>,
    r: Result<(QuotientRound<F, C>, CommitRequest<PolynomialCoeffs<F>>), ProverError>,
    batch: PolynomialBatch<F, C>,
)
    requires
        common_data.wf(),
        before.wf(*common_data),
        call_ensures(
            AlphasRound::<F, C, I>::split_quotients,
            (before, common_data, polys),
            r,
        ),
    ensures
        r matches Err(e) ==> e == ProverError::QuotientFailed,
        r matches Ok((round, request)) ==> {
            &&& request.polys@.len() == polys@.len() * common_data.quotient_degree_factor
            &&& request.rate_bits == common_data.config.fri_config.rate_bits
            &&& request.cap_height == common_data.config.fri_config.cap_height
            &&& request.blinding == common_data.config.zero_knowledge
            &&& call_requires(
                QuotientRound::<F, C>::quotients_committed,
                (round, common_data, batch),
            )
            &&& round.public_inputs == before.public_inputs
            &&& round.wires_commitment == before.wires_commitment
            &&& round.zs_partial_products_commitment == before.zs_partial_products_commitment
            &&& round.transcript@ == before.transcript@
        },
{
}

/// The commitment that is asked for once the challenges are drawn holds the pieces of one quotient
/// for each challenge, and lies on the domain of the commitments before it.
pub proof fn law_alphas_request<F: Field, C, H, I, E>(
    before: AlphasRound<F, C, I>,
    prover_data: &ProverOnlyCircuitData<F, C, H>,
    common_data: &CommonCircuitData<F>,
    alphas: &Vec<F>,
    evaluator: E,
    r: Result<(QuotientRound<F, C>, CommitRequest<PolynomialCoeffs<F>>), ProverError>,
) where
    E: Fn(&QuotientBatch<F>, &ZeroPolyOnCoset<F>, &I, &Vec<F>, &Vec<F>, &Vec<F>) -> Vec<Vec<F>>,

    requires
        tables_fit(*prover_data, *common_data),
        before.wf(*common_data),
        alphas@.len() == common_data.config.num_challenges,
        evaluates(
            quotient_inputs(
                *common_data,
                *prover_data,
                before.wires_commitment,
                before.zs_partial_products_commitment,
            ),
            &before.public_inputs_hash,
            &before.betas,
            &before.gammas,
            alphas,
            evaluator,
        ),
        call_ensures(
            AlphasRound::<F, C, I>::alphas_drawn::<H, E>,
            (before, prover_data, common_data, alphas, evaluator),
            r,
        ),
    ensures
        r matches Err(e) ==> e == ProverError::QuotientFailed,
        r matches Ok((round, request)) ==> {
            &&& request.polys@.len() == common_data.config.num_challenges
                * common_data.quotient_degree_factor
            &&& request.rate_bits == before.wires_commitment.rate_bits
            &&& request.rate_bits == before.zs_partial_products_commitment.rate_bits
            &&& request.rate_bits == common_data.config.fri_config.rate_bits
            &&& request.cap_height == common_data.config.fri_config.cap_height
            &&& request.blinding == common_data.config.zero_knowledge
            &&& round.public_inputs == before.public_inputs
            &&& round.wires_commitment == before.wires_commitment
            &&& round.zs_partial_products_commitment == before.zs_partial_products_commitment
            &&& round.transcript@ == before.transcript@
        },
{
    let q = quotient_inputs(
        *common_data,
        *prover_data,
        before.wires_commitment,
        before.zs_partial_products_commitment,
    );
    let polys = choose|polys: Seq<PolynomialCoeffs<F>>|
        quotients_computed(
            q,
            &before.public_inputs_hash,
            &before.betas,
            &before.gammas,
            alphas,
            evaluator,
            polys,
        ) && #[trigger] before.quotients_split(*common_data, polys, r);
    assert(polys.len() == common_data.config.num_challenges);
}

/// The first steps of the transcript: the circuit, the public inputs and the wires are absorbed,
/// and then both lists of challenges of the permutation argument are drawn. All else is handed on.
pub proof fn law_wires_committed<F: Field, C, I>(
    before: WiresRound<F>,
    common_data: &CommonCircuitData<F>,
    hash: I,
    batch: PolynomialBatch<F, C>,
    r: PermutationRound<F, C, I>,
)
    requires
        call_requires(
            WiresRound::<F>::wires_committed::<C, I>,
            (before, common_data, hash, batch),
        ),
        call_ensures(
            WiresRound::<F>::wires_committed::<C, I>,
            (before, common_data, hash, batch),
            r,
        ),
    ensures
        r.transcript@ == seq![
            TranscriptStep::ObserveCircuitDigest,
            TranscriptStep::ObservePublicInputsHash,
            TranscriptStep::ObserveWiresCap,
            TranscriptStep::DrawBetas(common_data.config.num_challenges),
            TranscriptStep::DrawGammas(common_data.config.num_challenges),
        ],
        r.public_inputs == before.public_inputs,
        r.witness == before.witness,
        r.public_inputs_hash == hash,
        r.wires_commitment == batch,
{
    assert(r.transcript@ =~= full_transcript(common_data.config.num_challenges).take(5));
}

/// The next steps: the permutation polynomials are absorbed, and then the challenges that combine
/// the constraints are drawn. All else is handed on.
pub proof fn law_zs_committed<F: Field, C, I>(
    before: ZsRound<F, C, I>,
    common_data: &CommonCircuitData<F>,
    batch: PolynomialBatch<F, C>,
    r: AlphasRound<F, C, I>,
)
    requires
        before.wf(*common_data),
        call_ensures(ZsRound::<F, C, I>::zs_committed, (before, common_data, batch), r),
    ensures
        r.transcript@ == before.transcript@ + seq![
            TranscriptStep::ObserveZsPartialProductsCap,
            TranscriptStep::DrawAlphas(common_data.config.num_challenges),
        ],
        r.public_inputs == before.public_inputs,
        r.public_inputs_hash == before.public_inputs_hash,
        r.wires_commitment == before.wires_commitment,
        r.zs_partial_products_commitment == batch,
        r.betas == before.betas,
        r.gammas == before.gammas,
{
    let full = full_transcript(common_data.config.num_challenges);
    assert(before.transcript@ =~= full.take(5));
    assert(r.transcript@ =~= full.take(7));
}

/// The next steps: the pieces of the quotients are absorbed, and then the opening point is drawn.
/// All else is handed on.
pub proof fn law_quotients_committed<F: Field, C>(
    before: QuotientRound<F, C>,
    common_data: &CommonCircuitData<F>,
    batch: PolynomialBatch<F, C>,
    r: ZetaRound<F, C>,
)
    requires
        before.wf(*common_data),
        call_ensures(
            QuotientRound::<F, C>::quotients_committed,
            (before, common_data, batch),
            r,
        ),
    ensures
        r.transcript@ == before.transcript@ + seq![
            TranscriptStep::ObserveQuotientCap,
            TranscriptStep::DrawZeta,
        ],
        r.public_inputs == before.public_inputs,
        r.wires_commitment == before.wires_commitment,
        r.zs_partial_products_commitment == before.zs_partial_products_commitment,
        r.quotient_commitment == batch,
{
    let full = full_transcript(common_data.config.num_challenges);
    assert(before.transcript@ =~= full.take(7));
    assert(r.transcript@ =~= full.take(9));
}

/// The opening point is refused exactly if it lies in the subgroup of the rows. Otherwise the
/// generator of the rows goes with it, so that neither the point nor its multiple by the generator
/// is a power of the generator. All else is handed on.
pub proof fn law_zeta_drawn<F: Field, C, E: TwoAdicRing>(
    before: ZetaRound<F, C>,
    common_data: &CommonCircuitData<F>,
    zeta: E,
    r: Result<OpeningsRound<F, C, E>, ProverError>,
    i: nat,
)
    requires
        before.wf(*common_data),
        common_data.degree_bits <= E::adicity(),
        call_ensures(ZetaRound::<F, C>::zeta_drawn::<E>, (before, common_data, zeta), r),
    ensures
        r is Ok <==> pow(zeta, pow2(common_data.degree_bits as nat)) != E::one(),
        r matches Err(e) ==> e == ProverError::OpeningPointInSubgroup,
        r matches Ok(round) ==> {
            &&& round.zeta == zeta
            &&& round.g == root_of::<E>(common_data.degree_bits as nat)
            &&& pow(round.g, pow2(common_data.degree_bits as nat)) == E::one()
            &&& common_data.degree_bits > 0 ==> pow(
                round.g,
                pow2((common_data.degree_bits - 1) as nat),
            ) == E::one().negated()
            &&& norm(zeta) != pow(round.g, i)
            &&& round.g.times(zeta) != pow(round.g, i)
            &&& round.public_inputs == before.public_inputs
            &&& round.wires_commitment == before.wires_commitment
            &&& round.zs_partial_products_commitment == before.zs_partial_products_commitment
            &&& round.quotient_commitment == before.quotient_commitment
            &&& round.transcript@ == before.transcript@
        },
{
    E::law_root();
    lemma_root_of::<E>(common_data.degree_bits as nat);
    if r is Ok {
        lemma_opening_points(common_data.degree_bits as nat, zeta);
    }
}

/// The last step: the openings are absorbed. All else is handed on, so that the whole transcript is
/// as it stands here.
pub proof fn law_opened<F: Field, C, E, O>(
    before: OpeningsRound<F, C, E>,
    common_data: &CommonCircuitData<F>,
    openings: O,
    r: OpeningProofRound<F, C, E, O>,
)
    requires
        before.wf(*common_data),
        call_ensures(
            OpeningsRound::<F, C, E>::opened::<O>,
            (before, common_data, openings),
            r,
        ),
    ensures
        ({
            let n = common_data.config.num_challenges;
            r.transcript@ == seq![
                TranscriptStep::ObserveCircuitDigest,
                TranscriptStep::ObservePublicInputsHash,
                TranscriptStep::ObserveWiresCap,
                TranscriptStep::DrawBetas(n),
                TranscriptStep::DrawGammas(n),
                TranscriptStep::ObserveZsPartialProductsCap,
                TranscriptStep::DrawAlphas(n),
                TranscriptStep::ObserveQuotientCap,
                TranscriptStep::DrawZeta,
                TranscriptStep::ObserveOpenings,
            ]
        }),
        r.transcript@ == before.transcript@.push(TranscriptStep::ObserveOpenings),
        r.public_inputs == before.public_inputs,
        r.wires_commitment == before.wires_commitment,
        r.zs_partial_products_commitment == before.zs_partial_products_commitment,
        r.quotient_commitment == before.quotient_commitment,
        r.zeta == before.zeta,
        r.openings == openings,
{
    let full = full_transcript(common_data.config.num_challenges);
    assert(before.transcript@ =~= full.take(9));
}

/// The commitments are opened in the order in which they were made, the circuit's own one first.
pub proof fn law_oracles<'a, F: Field, C, E, O, H>(
    openings: &'a OpeningsRound<F, C, E>,
    proof_round: &'a OpeningProofRound<F, C, E, O>,
    prover_data: &'a ProverOnlyCircuitData<F, C, H>,
    r: Vec<&'a PolynomialBatch<F, C>>,
    q: Vec<&'a PolynomialBatch<F, C>>,
)
    requires
        call_ensures(OpeningsRound::<F, C, E>::oracles::<H>, (openings, prover_data), r),
        call_ensures(
            OpeningProofRound::<F, C, E, O>::oracles::<H>,
            (proof_round, prover_data),
            q,
        ),
    ensures
        r@.len() == 4,
        *r@[0] == prover_data.constants_sigmas_commitment,
        *r@[1] == openings.wires_commitment,
        *r@[2] == openings.zs_partial_products_commitment,
        *r@[3] == openings.quotient_commitment,
        q@.len() == 4,
        *q@[0] == prover_data.constants_sigmas_commitment,
        *q@[1] == proof_round.wires_commitment,
        *q@[2] == proof_round.zs_partial_products_commitment,
        *q@[3] == proof_round.quotient_commitment,
{
}

/// A proof holds the caps of the three commitments, the openings and their proof, and goes with
/// the public inputs.
pub proof fn law_proved<F: Field, C, E, O, P>(
    before: OpeningProofRound<F, C, E, O>,
    opening_proof: P,
    r: ProofWithPublicInputs<F, C, O, P>,
)
    requires
        call_ensures(
            OpeningProofRound::<F, C, E, O>::proved::<P>,
            (before, opening_proof),
            r,
        ),
    ensures
        r.public_inputs == before.public_inputs,
        r.proof.wires_cap == before.wires_commitment.cap,
        r.proof.plonk_zs_partial_products_cap == before.zs_partial_products_commitment.cap,
        r.proof.quotient_polys_cap == before.quotient_commitment.cap,
        r.proof.openings == before.openings,
        r.proof.opening_proof == opening_proof,
{
}

/// Partial inputs are proved like a witness that the generators gave for them: there is one such
/// that public input `i`, the wire in the given row and column, and the request are its own.
pub proof fn law_prove<F: Field, C, H, W, G>(
    prover_data: &ProverOnlyCircuitData<F, C, H>,
    common_data: &CommonCircuitData<F>,
    inputs: W,
    generators: G,
    r: (WiresRound<F>, CommitRequest<PolynomialValues<F>>),
    i: int,
    row: int,
    column: int,
) where G: FnOnce(W, &ProverOnlyCircuitData<F, C, H>, &CommonCircuitData<F>) -> PartitionWitness<F>,
    requires
        tables_fit(*prover_data, *common_data),
        call_requires(generators, (inputs, prover_data, common_data)),
        forall|w: PartitionWitness<F>|
            call_ensures(generators, (inputs, prover_data, common_data), w) ==> witness_fits(
                *prover_data,
                *common_data,
                w,
            ),
        call_ensures(
            prove::<F, C, H, W, G>,
            (prover_data, common_data, inputs, generators),
            r,
        ),
        0 <= i < prover_data.public_inputs@.len(),
        0 <= row < pow2(common_data.degree_bits as nat),
        0 <= column < common_data.config.num_wires,
    ensures
        r.0.public_inputs@.len() == prover_data.public_inputs@.len(),
        r.1.rate_bits == common_data.config.fri_config.rate_bits,
        r.1.cap_height == common_data.config.fri_config.cap_height,
        r.1.blinding == common_data.config.zero_knowledge,
        r.1.polys@.len() == common_data.config.num_wires,
        r.0.witness.wire_values@[column]@ == r.1.polys@[column].values@,
        exists|w: PartitionWitness<F>| #[trigger]
            call_ensures(generators, (inputs, prover_data, common_data), w) && ({
                let place = w.representative_map@[row * common_data.config.num_wires
                    + column] as int;
                let known = match prover_data.public_inputs@[i] {
                    Target::Wire { row, column } => w.representative_map@[row
                        * common_data.config.num_wires + column] as int,
                    Target::Virtual { index } => w.representative_map@[w.degree
                        * common_data.config.num_wires + index] as int,
                };
                &&& w.values@[known] == Some(r.0.public_inputs@[i])
                &&& r.1.polys@[column].values@[row] == (match w.values@[place] {
                    Some(x) => x,
                    None => F::zero(),
                })
            }),
{
    let w = choose|w: PartitionWitness<F>|
        call_ensures(generators, (inputs, prover_data, common_data), w)
            && #[trigger] proving_started(*prover_data, *common_data, w, r.0, r.1);
    let witness = r.0.witness;
    assert(proving_started(*prover_data, *common_data, w, r.0, r.1));
    assert(call_ensures(generators, (inputs, prover_data, common_data), w));
    assert(witness_fits(*prover_data, *common_data, w));
    assert(w.has_target(prover_data.public_inputs@[i]));
    assert(witness.wire(row, column) == w.wire_or_zero(row, column));
    assert(witness.wire_values@[column].len() == w.degree);
    assert(values_of(r.1.polys@).len() == rows(witness.wire_values@).len());
    assert(values_of(r.1.polys@)[column] == rows(witness.wire_values@)[column]);
}

} // verus!
