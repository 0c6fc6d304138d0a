//! The rounds of the prover.
//!
//! A proof is made in rounds. Between two of them the caller commits to polynomials and runs the
//! transcript from which challenges are drawn; the rounds hold everything else and say what is to
//! be committed to and what the transcript absorbs. Each round consumes the one before it, so the
//! order of the protocol is the order of the types.
use vstd::arithmetic::power2::{lemma_pow2_pos, pow2};
use vstd::prelude::*;
use crate::circuit_data::{CommonCircuitData, ProverOnlyCircuitData};
use crate::field::{
    Field, TwoAdicRing, exp_power_of_2, lemma_root_of, primitive_root_of_unity, root_of,
};
use crate::oracle::PolynomialBatch;
use crate::permutation::{
    all_wires_permutation_partial_products, are_challenges_invertible, challenges_invertible,
    last_items_first, lemma_last_items_first, permutation_of, permutation_shapes, wrap_values,
};
use crate::polynomial::{PolynomialCoeffs, PolynomialValues, values_of};
use crate::quotient::{
    QuotientBatch, compute_quotient_polys, evaluates, has_quotient_degree, on_circuit_domain, piece,
    quotient_inputs, quotients_computed, split_quotient_polys,
};
use crate::ring::{
    lemma_neutral, lemma_pow_norm, lemma_pow_one, lemma_pow_pow, lemma_pow_times, norm, pow,
};
use crate::util::rows;
use crate::witness::{MatrixWitness, PartitionWitness};
use crate::zero_poly_coset::ZeroPolyOnCoset;

verus! {

/// The batches of polynomials that a proof commits to.
#[derive(Clone, Copy, Debug)]
pub enum PlonkOracle {
    ConstantsSigmas,
    Wires,
    ZsPartialProducts,
    Quotient,
}

impl PlonkOracle {
    /// Whether commitments to the batch are blinded where the circuit asks for zero knowledge.
    pub open spec fn blinded(self) -> bool {
        !(self is ConstantsSigmas)
    }

    /// Tells whether commitments to the batch are blinded where the circuit asks for zero
    /// knowledge.
    pub fn blinding(&self) -> (r: bool)
        ensures
            r == self.blinded(),
    {
        match self {
            PlonkOracle::ConstantsSigmas => false,
            PlonkOracle::Wires => true,
            PlonkOracle::ZsPartialProducts => true,
            PlonkOracle::Quotient => true,
        }
    }
}

/// A request to commit to a batch of polynomials.
pub struct CommitRequest<T> {
    pub polys: Vec<T>,
    pub rate_bits: usize,
    pub blinding: bool,
    pub cap_height: usize,
}

/// A step of the transcript that prover and verifier share.
#[derive(Clone, Copy, Debug, PartialEq, Eq, Structural)]
pub enum TranscriptStep {
    ObserveCircuitDigest,
    ObservePublicInputsHash,
    ObserveWiresCap,
    DrawBetas(usize),
    DrawGammas(usize),
    ObserveZsPartialProductsCap,
    DrawAlphas(usize),
    ObserveQuotientCap,
    DrawZeta,
    ObserveOpenings,
}

/// Why no proof could be made.
#[derive(Clone, Copy, Debug, PartialEq, Eq, Structural)]
pub enum ProverError {
    /// A denominator of the permutation argument is zero for the drawn challenges.
    ZeroDenominator,
    /// The vanishing polynomial does not divide the combined constraints.
    QuotientFailed,
    /// The opening point lies in the subgroup of the rows.
    OpeningPointInSubgroup,
}

/// The commitments, openings and opening proof that make up a proof.
pub struct Proof<C, O, P> {
    pub wires_cap: C,
    pub plonk_zs_partial_products_cap: C,
    pub quotient_polys_cap: C,
    pub openings: O,
    pub opening_proof: P,
}

/// A proof with the public inputs that it is about.
pub struct ProofWithPublicInputs<F, C, O, P> {
    pub proof: Proof<C, O, P>,
    pub public_inputs: Vec<F>,
}

impl<F, C, O, P> ProofWithPublicInputs<F, C, O, P> {
    /// The proof is made of what the last round holds and the given proof of the openings.
    pub open spec fn follows<E>(
        self,
        before: OpeningProofRound<F, C, E, O>,
        opening_proof: P,
    ) -> bool {
        &&& self.public_inputs == before.public_inputs
        &&& self.proof.wires_cap == before.wires_commitment.cap
        &&& self.proof.plonk_zs_partial_products_cap == before.zs_partial_products_commitment.cap
        &&& self.proof.quotient_polys_cap == before.quotient_commitment.cap
        &&& self.proof.openings == before.openings
        &&& self.proof.opening_proof == opening_proof
    }
}

/// The wires are known; their commitment and the hash of the public inputs are due.
pub struct WiresRound<F> {
    pub public_inputs: Vec<F>,
    pub witness: MatrixWitness<F>,
}

/// The wires are committed to; the challenges of the permutation argument are due.
pub struct PermutationRound<F, C, I> {
    pub public_inputs: Vec<F>,
    pub witness: MatrixWitness<F>,
    pub public_inputs_hash: I,
    pub wires_commitment: PolynomialBatch<F, C>,
    pub transcript: Vec<TranscriptStep>,
}

/// The permutation polynomials are known; their commitment is due.
pub struct ZsRound<F, C, I> {
    pub public_inputs: Vec<F>,
    pub public_inputs_hash: I,
    pub wires_commitment: PolynomialBatch<F, C>,
    pub betas: Vec<F>,
    pub gammas: Vec<F>,
    pub transcript: Vec<TranscriptStep>,
}

/// The permutation polynomials are committed to; the challenges that combine the constraints are
/// due.
pub struct AlphasRound<F, C, I> {
    pub public_inputs: Vec<F>,
    pub public_inputs_hash: I,
    pub wires_commitment: PolynomialBatch<F, C>,
    pub zs_partial_products_commitment: PolynomialBatch<F, C>,
    pub betas: Vec<F>,
    pub gammas: Vec<F>,
    pub transcript: Vec<TranscriptStep>,
}

/// The quotient polynomials are known; their commitment is due.
pub struct QuotientRound<F, C> {
    pub public_inputs: Vec<F>,
    pub wires_commitment: PolynomialBatch<F, C>,
    pub zs_partial_products_commitment: PolynomialBatch<F, C>,
    pub transcript: Vec<TranscriptStep>,
}

/// All polynomials are committed to; the opening point is due.
pub struct ZetaRound<F, C> {
    pub public_inputs: Vec<F>,
    pub wires_commitment: PolynomialBatch<F, C>,
    pub zs_partial_products_commitment: PolynomialBatch<F, C>,
    pub quotient_commitment: PolynomialBatch<F, C>,
    pub transcript: Vec<TranscriptStep>,
}

/// The opening points are known; the openings are due.
pub struct OpeningsRound<F, C, E> {
    pub public_inputs: Vec<F>,
    pub wires_commitment: PolynomialBatch<F, C>,
    pub zs_partial_products_commitment: PolynomialBatch<F, C>,
    pub quotient_commitment: PolynomialBatch<F, C>,
    /// The point at which all polynomials are opened.
    pub zeta: E,
    /// The generator of the rows: the permutation polynomials are opened at its multiple of
    /// `zeta`, too.
    pub g: E,
    pub transcript: Vec<TranscriptStep>,
}

/// The openings are known; the proof of the openings is due.
pub struct OpeningProofRound<F, C, E, O> {
    pub public_inputs: Vec<F>,
    pub wires_commitment: PolynomialBatch<F, C>,
    pub zs_partial_products_commitment: PolynomialBatch<F, C>,
    pub quotient_commitment: PolynomialBatch<F, C>,
    pub zeta: E,
    pub openings: O,
    pub transcript: Vec<TranscriptStep>,
}

/// All steps of the transcript before the proof of the openings, for `n` challenges.
pub open spec fn full_transcript(n: usize) -> Seq<TranscriptStep> {
    seq![
        TranscriptStep::ObserveCircuitDigest,
        TranscriptStep::ObservePublicInputsHash,
        TranscriptStep::ObserveWiresCap,
        TranscriptStep::DrawBetas(n),
        TranscriptStep::DrawGammas(n),
        TranscriptStep::ObserveZsPartialProductsCap,
        TranscriptStep::DrawAlphas(n),
        TranscriptStep::ObserveQuotientCap,
        TranscriptStep::DrawZeta,
        TranscriptStep::ObserveOpenings,
    ]
}

/// The prover's tables have the dimensions of the circuit.
pub open spec fn tables_fit<F: Field, C, H>(
    prover_data: ProverOnlyCircuitData<F, C, H>,
    common_data: CommonCircuitData<F>,
) -> bool {
    &&& common_data.wf()
    &&& prover_data.subgroup@.len() == common_data.degree_spec()
    &&& prover_data.sigmas@.len() == common_data.degree_spec()
    &&& forall|i: int|
        0 <= i < prover_data.sigmas@.len() ==> (#[trigger] prover_data.sigmas@[i]).len()
            == common_data.config.num_routed_wires
    &&& on_circuit_domain(common_data, prover_data.constants_sigmas_commitment)
    &&& prover_data.constants_sigmas_commitment.wf(
        (common_data.num_constants + common_data.config.num_routed_wires) as nat,
    )
}

/// The witness belongs to the circuit and knows the public inputs.
pub open spec fn witness_fits<F: Field, C, H>(
    prover_data: ProverOnlyCircuitData<F, C, H>,
    common_data: CommonCircuitData<F>,
    w: PartitionWitness<F>,
) -> bool {
    &&& w.wf()
    &&& w.degree == common_data.degree_spec()
    &&& w.num_wires == common_data.config.num_wires
    &&& forall|i: int|
        0 <= i < prover_data.public_inputs@.len() ==> w.has_target(
            #[trigger] prover_data.public_inputs@[i],
        ) && w.lookup(prover_data.public_inputs@[i]) is Some
}

/// The request commits with the circuit's parameters.
pub open spec fn commits_with<F: Field, T>(
    common_data: CommonCircuitData<F>,
    oracle: PlonkOracle,
    request: CommitRequest<T>,
) -> bool {
    &&& request.rate_bits == common_data.config.fri_config.rate_bits
    &&& request.blinding == (common_data.config.zero_knowledge && oracle.blinded())
    &&& request.cap_height == common_data.config.fri_config.cap_height
}

/// Builds a request with the circuit's parameters.
fn commit_request<F: Field, T>(
    common_data: &CommonCircuitData<F>,
    oracle: PlonkOracle,
    polys: Vec<T>,
) -> (r: CommitRequest<T>)
    ensures
        r.polys == polys,
        commits_with(*common_data, oracle, r),
{
    CommitRequest {
        polys,
        rate_bits: common_data.config.fri_config.rate_bits,
        blinding: common_data.config.zero_knowledge && oracle.blinding(),
        cap_height: common_data.config.fri_config.cap_height,
    }
}

/// Returns a copy of the columns of a witness.
fn copy_columns<F: Field>(witness: &MatrixWitness<F>) -> (r: Vec<Vec<F>>)
    ensures
        rows(r@) == rows(witness.wire_values@),
{
    let n: usize = witness.wire_values.len();
    let mut r: Vec<Vec<F>> = Vec::new();
    for j in 0..n
        invariant
            n == witness.wire_values.len(),
            r.len() == j,
            forall|k: int| 0 <= k < j ==> (#[trigger] r@[k])@ == witness.wire_values@[k]@,
    {
        let m: usize = witness.wire_values[j].len();
        let mut column: Vec<F> = Vec::new();
        for i in 0..m
            invariant
                n == witness.wire_values.len(),
                j < n,
                m == witness.wire_values@[j as int].len(),
                column@ == witness.wire_values@[j as int]@.take(i as int),
        {
            column.push(witness.wire_values[j][i]);
            assert(column@ =~= witness.wire_values@[j as int]@.take(i + 1));
        }
        assert(column@ =~= witness.wire_values@[j as int]@);
        r.push(column);
    }
    assert(rows(r@) =~= rows(witness.wire_values@));
    r
}

/// What the first round holds and asks for.
pub open spec fn proving_started<F: Field, C, H>(
    prover_data: ProverOnlyCircuitData<F, C, H>,
    common_data: CommonCircuitData<F>,
    w: PartitionWitness<F>,
    round: WiresRound<F>,
    request: CommitRequest<PolynomialValues<F>>,
) -> bool {
    &&& round.public_inputs@ == Seq::new(
        prover_data.public_inputs@.len(),
        |i: int| w.lookup(prover_data.public_inputs@[i])->0,
    )
    &&& round.witness.is_table(common_data.degree_spec(), common_data.config.num_wires as nat)
    &&& forall|i: int, j: int|
        0 <= i < common_data.degree_spec() && 0 <= j < common_data.config.num_wires
            ==> #[trigger] round.witness.wire(i, j) == w.wire_or_zero(i, j)
    &&& values_of(request.polys@) == rows(round.witness.wire_values@)
    &&& commits_with(common_data, PlonkOracle::Wires, request)
}

/// Starts a proof from a witness: reads the public inputs, fills in all wires, and asks for the
/// hash of the former and a commitment to the latter.
pub fn prove_with_partition_witness<F: Field, C, H>(
    prover_data: &ProverOnlyCircuitData<F, C, H>,
    common_data: &CommonCircuitData<F>,
    partition_witness: PartitionWitness<F>,
) -> (r: (WiresRound<F>, CommitRequest<PolynomialValues<F>>))
    requires
        tables_fit(*prover_data, *common_data),
        witness_fits(*prover_data, *common_data, partition_witness),
    ensures
        proving_started(*prover_data, *common_data, partition_witness, r.0, r.1),
{
    let public_inputs: Vec<F> = partition_witness.get_targets(&prover_data.public_inputs);
    let witness: MatrixWitness<F> = partition_witness.full_witness();
    let polys: Vec<PolynomialValues<F>> = wrap_values(copy_columns(&witness));
    let request: CommitRequest<PolynomialValues<F>> = commit_request(
        common_data,
        PlonkOracle::Wires,
        polys,
    );
    (WiresRound { public_inputs, witness }, request)
}

/// Starts a proof from partial inputs: the given generators complete them to a witness.
pub fn prove<F: Field, C, H, W, G>(
    prover_data: &ProverOnlyCircuitData<F, C, H>,
    common_data: &CommonCircuitData<F>,
    inputs: W,
    generators: G,
) -> (r: (WiresRound<F>, CommitRequest<PolynomialValues<F>>)) where
    G: FnOnce(W, &ProverOnlyCircuitData<F, C, H>, &CommonCircuitData<F>) -> PartitionWitness<F>,

    requires
        tables_fit(*prover_data, *common_data),
        call_requires(generators, (inputs, prover_data, common_data)),
        forall|w: PartitionWitness<F>|
            call_ensures(generators, (inputs, prover_data, common_data), w) ==> witness_fits(
                *prover_data,
                *common_data,
                w,
            ),
    ensures
        exists|w: PartitionWitness<F>|
            call_ensures(generators, (inputs, prover_data, common_data), w)
                && #[trigger] proving_started(*prover_data, *common_data, w, r.0, r.1),
{
    let partition_witness: PartitionWitness<F> = generators(inputs, prover_data, common_data);
    prove_with_partition_witness(prover_data, common_data, partition_witness)
}

/// The transcript after its first `k` steps.
pub open spec fn transcript_at(transcript: Seq<TranscriptStep>, n: usize, k: int) -> bool {
    transcript == full_transcript(n).take(k)
}

/// The batch was committed to on the circuit's domain and holds `width` polynomials.
pub open spec fn is_circuit_batch<F: Field, C>(
    common_data: CommonCircuitData<F>,
    batch: PolynomialBatch<F, C>,
    width: nat,
) -> bool {
    &&& on_circuit_domain(common_data, batch)
    &&& batch.wf(width)
}

/// The number of permutation polynomials and partial products for all challenges.
pub open spec fn zs_width<F: Field>(common_data: CommonCircuitData<F>) -> nat {
    (common_data.config.num_challenges * (common_data.num_partial_products + 1)) as nat
}

impl<F: Field> WiresRound<F> {
    /// The witness has the dimensions of the circuit.
    pub open spec fn wf(self, common_data: CommonCircuitData<F>) -> bool {
        self.witness.covers(common_data.degree_spec(), common_data.config.num_wires as nat)
    }

    /// Takes the hash of the public inputs and the commitment to the wires. The transcript absorbs
    /// the circuit, the public inputs and the wires before the challenges of the permutation
    /// argument are drawn.
    pub fn wires_committed<C, I>(
        self,
        common_data: &CommonCircuitData<F>,
        public_inputs_hash: I,
        wires_commitment: PolynomialBatch<F, C>,
    ) -> (r: PermutationRound<F, C, I>)
        requires
            self.wf(*common_data),
            is_circuit_batch(
                *common_data,
                wires_commitment,
                common_data.config.num_wires as nat,
            ),
        ensures
            r.wf(*common_data),
            r.follows(self, public_inputs_hash, wires_commitment),
    {
        let n: usize = common_data.config.num_challenges;
        let mut transcript: Vec<TranscriptStep> = Vec::new();
        transcript.push(TranscriptStep::ObserveCircuitDigest);
        transcript.push(TranscriptStep::ObservePublicInputsHash);
        transcript.push(TranscriptStep::ObserveWiresCap);
        transcript.push(TranscriptStep::DrawBetas(n));
        transcript.push(TranscriptStep::DrawGammas(n));
        assert(transcript@ =~= full_transcript(n).take(5));
        PermutationRound {
            public_inputs: self.public_inputs,
            witness: self.witness,
            public_inputs_hash,
            wires_commitment,
            transcript,
        }
    }
}

/// The values of the permutation polynomial and the partial products of challenge `i`: entry `c`
/// is the `c`-th partial product, and entry `num_partial_products` the permutation polynomial.
pub open spec fn permutation_values<F: Field, C, H>(
    witness: MatrixWitness<F>,
    betas: Seq<F>,
    gammas: Seq<F>,
    prover_data: ProverOnlyCircuitData<F, C, H>,
    common_data: CommonCircuitData<F>,
    i: int,
) -> Seq<Seq<F>> {
    permutation_of(witness, betas[i], gammas[i], prover_data, common_data).polynomials(
        common_data.quotient_degree_factor as nat,
        common_data.num_partial_products as nat,
    )
}

/// The batch holds the permutation polynomials of all challenges first, and then the partial
/// products, challenge by challenge.
pub open spec fn is_zs_batch<F: Field, C, H>(
    polys: Seq<PolynomialValues<F>>,
    witness: MatrixWitness<F>,
    betas: Seq<F>,
    gammas: Seq<F>,
    prover_data: ProverOnlyCircuitData<F, C, H>,
    common_data: CommonCircuitData<F>,
) -> bool {
    let nc = common_data.config.num_challenges as int;
    let np = common_data.num_partial_products as int;
    &&& polys.len() == zs_width(common_data)
    &&& forall|i: int|
        0 <= i < nc ==> (#[trigger] polys[i]).values@ == permutation_values(
            witness,
            betas,
            gammas,
            prover_data,
            common_data,
            i,
        )[np]
    &&& forall|i: int, c: int|
        0 <= i < nc && 0 <= c < np ==> polys[nc + i * np + c].values@
            == #[trigger] permutation_values(witness, betas, gammas, prover_data, common_data, i)[c]
}

impl<F: Field, C, I> PermutationRound<F, C, I> {
    /// Witness, commitment and transcript belong to the circuit.
    pub open spec fn wf(self, common_data: CommonCircuitData<F>) -> bool {
        &&& self.witness.covers(common_data.degree_spec(), common_data.config.num_wires as nat)
        &&& is_circuit_batch(
            common_data,
            self.wires_commitment,
            common_data.config.num_wires as nat,
        )
        &&& transcript_at(self.transcript@, common_data.config.num_challenges, 5)
    }

    /// The round comes after `before`, with the given replies.
    pub open spec fn follows(
        self,
        before: WiresRound<F>,
        public_inputs_hash: I,
        wires_commitment: PolynomialBatch<F, C>,
    ) -> bool {
        &&& self.public_inputs == before.public_inputs
        &&& self.witness == before.witness
        &&& self.public_inputs_hash == public_inputs_hash
        &&& self.wires_commitment == wires_commitment
    }

    /// Takes the challenges of the permutation argument, computes the permutation polynomials and
    /// partial products, and asks for a commitment to them.
    pub fn permutation_challenged<H>(
        self,
        prover_data: &ProverOnlyCircuitData<F, C, H>,
        common_data: &CommonCircuitData<F>,
        betas: Vec<F>,
        gammas: Vec<F>,
    ) -> (r: Result<(ZsRound<F, C, I>, CommitRequest<PolynomialValues<F>>), ProverError>)
        requires
            tables_fit(*prover_data, *common_data),
            self.wf(*common_data),
            betas@.len() == common_data.config.num_challenges,
            gammas@.len() == common_data.config.num_challenges,
        ensures
            r is Ok <==> challenges_invertible(
                self.witness,
                betas@,
                gammas@,
                *prover_data,
                *common_data,
            ),
            r is Err ==> r->Err_0 == ProverError::ZeroDenominator,
            r matches Ok((round, request)) ==> {
                &&& round.wf(*common_data)
                &&& round.follows(self, betas, gammas)
                &&& is_zs_batch(
                    request.polys@,
                    self.witness,
                    betas@,
                    gammas@,
                    *prover_data,
                    *common_data,
                )
                &&& commits_with(*common_data, PlonkOracle::ZsPartialProducts, request)
            },
    {
        let ghost np = common_data.num_partial_products as nat;
        let ghost nc = common_data.config.num_challenges as int;
        proof {
            lemma_pow2_pos(common_data.degree_bits as nat);
            assert(permutation_shapes(self.witness, *prover_data, *common_data));
        }
        if !are_challenges_invertible(&self.witness, &betas, &gammas, prover_data, common_data) {
            return Err(ProverError::ZeroDenominator);
        }
        let all: Vec<Vec<PolynomialValues<F>>> = all_wires_permutation_partial_products(
            &self.witness,
            &betas,
            &gammas,
            prover_data,
            common_data,
        );
        let ghost lists = all@;
        proof {
            assert forall|i: int| 0 <= i < lists.len() implies (#[trigger] lists[i]).len() == np + 1
                && forall|c: int|
                0 <= c < np + 1 ==> (#[trigger] lists[i]@[c]).values@ == permutation_values(
                    self.witness,
                    betas@,
                    gammas@,
                    *prover_data,
                    *common_data,
                    i,
                )[c] by {
                let values = permutation_values(
                    self.witness,
                    betas@,
                    gammas@,
                    *prover_data,
                    *common_data,
                    i,
                );
                assert(values_of(lists[i]@) == values);
                assert(values_of(lists[i]@).len() == lists[i].len());
                assert forall|c: int| 0 <= c < np + 1 implies (#[trigger] lists[i]@[c]).values@
                    == values[c] by {
                    assert(values_of(lists[i]@)[c] == lists[i]@[c].values@);
                }
            }
            lemma_last_items_first(lists, np);
        }
        let zs_partial_products: Vec<PolynomialValues<F>> = last_items_first(all);
        proof {
            let polys = zs_partial_products@;
            assert forall|i: int, c: int| 0 <= i < nc && 0 <= c < np implies polys[nc + i * np
                + c].values@ == #[trigger] permutation_values(
                self.witness,
                betas@,
                gammas@,
                *prover_data,
                *common_data,
                i,
            )[c] by {
                assert(lists[i].len() == np + 1);
                assert(polys[nc + i * np + c] == lists[i]@[c]);
            }
            assert forall|i: int| 0 <= i < nc implies (#[trigger] polys[i]).values@
                == permutation_values(
                self.witness,
                betas@,
                gammas@,
                *prover_data,
                *common_data,
                i,
            )[np as int] by {
                assert(lists[i].len() == np + 1);
                assert(polys[i] == lists[i]@[np as int]);
            }
        }
        let request: CommitRequest<PolynomialValues<F>> = commit_request(
            common_data,
            PlonkOracle::ZsPartialProducts,
            zs_partial_products,
        );
        let round: ZsRound<F, C, I> = ZsRound {
            public_inputs: self.public_inputs,
            public_inputs_hash: self.public_inputs_hash,
            wires_commitment: self.wires_commitment,
            betas,
            gammas,
            transcript: self.transcript,
        };
        Ok((round, request))
    }
}

impl<F: Field, C, I> ZsRound<F, C, I> {
    /// Commitment, challenges and transcript belong to the circuit.
    pub open spec fn wf(self, common_data: CommonCircuitData<F>) -> bool {
        &&& is_circuit_batch(
            common_data,
            self.wires_commitment,
            common_data.config.num_wires as nat,
        )
        &&& self.betas@.len() == common_data.config.num_challenges
        &&& self.gammas@.len() == common_data.config.num_challenges
        &&& transcript_at(self.transcript@, common_data.config.num_challenges, 5)
    }

    /// The round comes after `before`, with the given challenges.
    pub open spec fn follows(
        self,
        before: PermutationRound<F, C, I>,
        betas: Vec<F>,
        gammas: Vec<F>,
    ) -> bool {
        &&& self.public_inputs == before.public_inputs
        &&& self.public_inputs_hash == before.public_inputs_hash
        &&& self.wires_commitment == before.wires_commitment
        &&& self.betas == betas
        &&& self.gammas == gammas
    }

    /// Takes the commitment to the permutation polynomials. The transcript absorbs it before the
    /// challenges that combine the constraints are drawn.
    pub fn zs_committed(
        self,
        common_data: &CommonCircuitData<F>,
        zs_partial_products_commitment: PolynomialBatch<F, C>,
    ) -> (r: AlphasRound<F, C, I>)
        requires
            self.wf(*common_data),
            is_circuit_batch(
                *common_data,
                zs_partial_products_commitment,
                zs_width(*common_data),
            ),
        ensures
            r.wf(*common_data),
            r.follows(self, zs_partial_products_commitment),
    {
        let n: usize = common_data.config.num_challenges;
        let mut transcript: Vec<TranscriptStep> = self.transcript;
        transcript.push(TranscriptStep::ObserveZsPartialProductsCap);
        transcript.push(TranscriptStep::DrawAlphas(n));
        assert(transcript@ =~= full_transcript(n).take(7));
        AlphasRound {
            public_inputs: self.public_inputs,
            public_inputs_hash: self.public_inputs_hash,
            wires_commitment: self.wires_commitment,
            zs_partial_products_commitment,
            betas: self.betas,
            gammas: self.gammas,
            transcript,
        }
    }
}

/// Every polynomial has the degree that a quotient of a satisfied circuit has.
pub open spec fn all_have_quotient_degree<F: Field>(
    common_data: CommonCircuitData<F>,
    quotient_polys: Seq<PolynomialCoeffs<F>>,
) -> bool {
    forall|c: int|
        0 <= c < quotient_polys.len() ==> has_quotient_degree(
            common_data,
            #[trigger] quotient_polys[c],
        )
}

/// The batch holds the pieces of the quotient polynomials, challenge by challenge.
pub open spec fn is_quotient_batch<F: Field>(
    polys: Seq<PolynomialCoeffs<F>>,
    common_data: CommonCircuitData<F>,
    quotient_polys: Seq<PolynomialCoeffs<F>>,
) -> bool {
    let f = common_data.quotient_degree_factor as int;
    &&& polys.len() == quotient_polys.len() * f
    &&& forall|c: int, k: int|
        0 <= c < quotient_polys.len() && 0 <= k < f ==> polys[c * f + k].coeffs@
            == #[trigger] piece(common_data, quotient_polys[c], k)
}

impl<F: Field, C, I> AlphasRound<F, C, I> {
    /// Commitments, challenges and transcript belong to the circuit.
    pub open spec fn wf(self, common_data: CommonCircuitData<F>) -> bool {
        &&& is_circuit_batch(
            common_data,
            self.wires_commitment,
            common_data.config.num_wires as nat,
        )
        &&& is_circuit_batch(
            common_data,
            self.zs_partial_products_commitment,
            zs_width(common_data),
        )
        &&& self.betas@.len() == common_data.config.num_challenges
        &&& self.gammas@.len() == common_data.config.num_challenges
        &&& transcript_at(self.transcript@, common_data.config.num_challenges, 7)
    }

    /// The round comes after `before`, with the given commitment.
    pub open spec fn follows(
        self,
        before: ZsRound<F, C, I>,
        zs_partial_products_commitment: PolynomialBatch<F, C>,
    ) -> bool {
        &&& self.public_inputs == before.public_inputs
        &&& self.public_inputs_hash == before.public_inputs_hash
        &&& self.wires_commitment == before.wires_commitment
        &&& self.zs_partial_products_commitment == zs_partial_products_commitment
        &&& self.betas == before.betas
        &&& self.gammas == before.gammas
    }

    /// The round and the request that follow on the given quotient polynomials.
    pub open spec fn quotients_split(
        self,
        common_data: CommonCircuitData<F>,
        quotient_polys: Seq<PolynomialCoeffs<F>>,
        r: Result<(QuotientRound<F, C>, CommitRequest<PolynomialCoeffs<F>>), ProverError>,
    ) -> bool {
        &&& r is Ok <==> all_have_quotient_degree(common_data, quotient_polys)
        &&& r is Err ==> r->Err_0 == ProverError::QuotientFailed
        &&& r matches Ok((round, request)) ==> {
            &&& round.wf(common_data)
            &&& round.public_inputs == self.public_inputs
            &&& round.wires_commitment == self.wires_commitment
            &&& round.zs_partial_products_commitment == self.zs_partial_products_commitment
            &&& is_quotient_batch(request.polys@, common_data, quotient_polys)
            &&& commits_with(common_data, PlonkOracle::Quotient, request)
        }
    }

    /// Takes the quotient polynomials, splits them into pieces, and asks for a commitment to
    /// these.
    pub fn split_quotients(
        self,
        common_data: &CommonCircuitData<F>,
        quotient_polys: Vec<PolynomialCoeffs<F>>,
    ) -> (r: Result<(QuotientRound<F, C>, CommitRequest<PolynomialCoeffs<F>>), ProverError>)
        requires
            common_data.wf(),
            self.wf(*common_data),
        ensures
            self.quotients_split(*common_data, quotient_polys@, r),
    {
        match split_quotient_polys(common_data, quotient_polys) {
            None => Err(ProverError::QuotientFailed),
            Some(all_quotient_poly_chunks) => {
                let request: CommitRequest<PolynomialCoeffs<F>> = commit_request(
                    common_data,
                    PlonkOracle::Quotient,
                    all_quotient_poly_chunks,
                );
                let round: QuotientRound<F, C> = QuotientRound {
                    public_inputs: self.public_inputs,
                    wires_commitment: self.wires_commitment,
                    zs_partial_products_commitment: self.zs_partial_products_commitment,
                    transcript: self.transcript,
                };
                Ok((round, request))
            },
        }
    }

    /// Takes the challenges that combine the constraints, computes the quotient polynomials with
    /// the given evaluator of the combined constraints, and asks for a commitment to their pieces.
    pub fn alphas_drawn<H, E>(
        self,
        prover_data: &ProverOnlyCircuitData<F, C, H>,
        common_data: &CommonCircuitData<F>,
        alphas: &Vec<F>,
        evaluator: E,
    ) -> (r: Result<(QuotientRound<F, C>, CommitRequest<PolynomialCoeffs<F>>), ProverError>) where
        E: Fn(&QuotientBatch<F>, &ZeroPolyOnCoset<F>, &I, &Vec<F>, &Vec<F>, &Vec<F>) -> Vec<Vec<F>>,

        requires
            tables_fit(*prover_data, *common_data),
            self.wf(*common_data),
            alphas@.len() == common_data.config.num_challenges,
            evaluates(
                quotient_inputs(
                    *common_data,
                    *prover_data,
                    self.wires_commitment,
                    self.zs_partial_products_commitment,
                ),
                &self.public_inputs_hash,
                &self.betas,
                &self.gammas,
                alphas,
                evaluator,
            ),
        ensures
            exists|polys: Seq<PolynomialCoeffs<F>>|
                quotients_computed(
                    quotient_inputs(
                        *common_data,
                        *prover_data,
                        self.wires_commitment,
                        self.zs_partial_products_commitment,
                    ),
                    &self.public_inputs_hash,
                    &self.betas,
                    &self.gammas,
                    alphas,
                    evaluator,
                    polys,
                ) && #[trigger] self.quotients_split(*common_data, polys, r),
    {
        let quotient_polys: Vec<PolynomialCoeffs<F>> = compute_quotient_polys(
            common_data,
            prover_data,
            &self.public_inputs_hash,
            &self.wires_commitment,
            &self.zs_partial_products_commitment,
            &self.betas,
            &self.gammas,
            alphas,
            evaluator,
        );
        self.split_quotients(common_data, quotient_polys)
    }
}

impl<F: Field, C> QuotientRound<F, C> {
    /// The transcript belongs to the circuit.
    pub open spec fn wf(self, common_data: CommonCircuitData<F>) -> bool {
        transcript_at(self.transcript@, common_data.config.num_challenges, 7)
    }

    /// Takes the commitment to the quotient polynomials. The transcript absorbs it before the
    /// opening point is drawn.
    pub fn quotients_committed(
        self,
        common_data: &CommonCircuitData<F>,
        quotient_commitment: PolynomialBatch<F, C>,
    ) -> (r: ZetaRound<F, C>)
        requires
            self.wf(*common_data),
        ensures
            r.wf(*common_data),
            r.follows(self, quotient_commitment),
    {
        let mut transcript: Vec<TranscriptStep> = self.transcript;
        transcript.push(TranscriptStep::ObserveQuotientCap);
        transcript.push(TranscriptStep::DrawZeta);
        assert(transcript@ =~= full_transcript(common_data.config.num_challenges).take(9));
        ZetaRound {
            public_inputs: self.public_inputs,
            wires_commitment: self.wires_commitment,
            zs_partial_products_commitment: self.zs_partial_products_commitment,
            quotient_commitment,
            transcript,
        }
    }
}

impl<F: Field, C> ZetaRound<F, C> {
    /// The transcript belongs to the circuit.
    pub open spec fn wf(self, common_data: CommonCircuitData<F>) -> bool {
        transcript_at(self.transcript@, common_data.config.num_challenges, 9)
    }

    /// The round comes after `before`, with the given commitment.
    pub open spec fn follows(
        self,
        before: QuotientRound<F, C>,
        quotient_commitment: PolynomialBatch<F, C>,
    ) -> bool {
        &&& self.public_inputs == before.public_inputs
        &&& self.wires_commitment == before.wires_commitment
        &&& self.zs_partial_products_commitment == before.zs_partial_products_commitment
        &&& self.quotient_commitment == quotient_commitment
    }

    /// Takes the opening point and asks for the openings, unless the point lies in the subgroup of
    /// the rows: to open there would reveal values of the witness.
    pub fn zeta_drawn<E: TwoAdicRing>(self, common_data: &CommonCircuitData<F>, zeta: E) -> (r:
        Result<OpeningsRound<F, C, E>, ProverError>)
        requires
            self.wf(*common_data),
            common_data.degree_bits <= E::adicity(),
        ensures
            r is Ok <==> pow(zeta, common_data.degree_spec()) != E::one(),
            r is Err ==> r->Err_0 == ProverError::OpeningPointInSubgroup,
            r matches Ok(round) ==> {
                &&& round.wf(*common_data)
                &&& round.follows(self, zeta)
                &&& round.g == root_of::<E>(common_data.degree_bits as nat)
            },
    {
        let g: E = primitive_root_of_unity(common_data.degree_bits);
        let zeta_n: E = exp_power_of_2(zeta, common_data.degree_bits);
        proof {
            E::law_constants();
            lemma_neutral(E::one());
        }
        if zeta_n.equals(E::one_element()) {
            return Err(ProverError::OpeningPointInSubgroup);
        }
        let round: OpeningsRound<F, C, E> = OpeningsRound {
            public_inputs: self.public_inputs,
            wires_commitment: self.wires_commitment,
            zs_partial_products_commitment: self.zs_partial_products_commitment,
            quotient_commitment: self.quotient_commitment,
            zeta,
            g,
            transcript: self.transcript,
        };
        Ok(round)
    }
}

impl<F: Field, C, E> OpeningsRound<F, C, E> {
    /// The transcript belongs to the circuit.
    pub open spec fn wf(self, common_data: CommonCircuitData<F>) -> bool {
        transcript_at(self.transcript@, common_data.config.num_challenges, 9)
    }

    /// The round comes after `before`, with the given opening point.
    pub open spec fn follows(self, before: ZetaRound<F, C>, zeta: E) -> bool {
        &&& self.public_inputs == before.public_inputs
        &&& self.wires_commitment == before.wires_commitment
        &&& self.zs_partial_products_commitment == before.zs_partial_products_commitment
        &&& self.quotient_commitment == before.quotient_commitment
        &&& self.zeta == zeta
    }

    /// Returns the commitments that are opened, in the order of their oracles.
    pub fn oracles<'a, H>(&'a self, prover_data: &'a ProverOnlyCircuitData<F, C, H>) -> (r: Vec<
        &'a PolynomialBatch<F, C>,
    >)
        ensures
            r@ == seq![
                &prover_data.constants_sigmas_commitment,
                &self.wires_commitment,
                &self.zs_partial_products_commitment,
                &self.quotient_commitment,
            ],
    {
        let mut r: Vec<&'a PolynomialBatch<F, C>> = Vec::new();
        r.push(&prover_data.constants_sigmas_commitment);
        r.push(&self.wires_commitment);
        r.push(&self.zs_partial_products_commitment);
        r.push(&self.quotient_commitment);
        r
    }

    /// Takes the openings. The transcript absorbs them before they are proved.
    pub fn opened<O>(self, common_data: &CommonCircuitData<F>, openings: O) -> (r:
        OpeningProofRound<F, C, E, O>)
        requires
            self.wf(*common_data),
        ensures
            r.wf(*common_data),
            r.follows(self, openings),
    {
        let mut transcript: Vec<TranscriptStep> = self.transcript;
        transcript.push(TranscriptStep::ObserveOpenings);
        assert(transcript@ =~= full_transcript(common_data.config.num_challenges));
        OpeningProofRound {
            public_inputs: self.public_inputs,
            wires_commitment: self.wires_commitment,
            zs_partial_products_commitment: self.zs_partial_products_commitment,
            quotient_commitment: self.quotient_commitment,
            zeta: self.zeta,
            openings,
            transcript,
        }
    }
}

impl<F: Field, C, E, O> OpeningProofRound<F, C, E, O> {
    /// The transcript has taken all its steps.
    pub open spec fn wf(self, common_data: CommonCircuitData<F>) -> bool {
        self.transcript@ == full_transcript(common_data.config.num_challenges)
    }

    /// The round comes after `before`, with the given openings.
    pub open spec fn follows(self, before: OpeningsRound<F, C, E>, openings: O) -> bool {
        &&& self.public_inputs == before.public_inputs
        &&& self.wires_commitment == before.wires_commitment
        &&& self.zs_partial_products_commitment == before.zs_partial_products_commitment
        &&& self.quotient_commitment == before.quotient_commitment
        &&& self.zeta == before.zeta
        &&& self.openings == openings
    }

    /// Returns the commitments that are opened, in the order of their oracles.
    pub fn oracles<'a, H>(&'a self, prover_data: &'a ProverOnlyCircuitData<F, C, H>) -> (r: Vec<
        &'a PolynomialBatch<F, C>,
    >)
        ensures
            r@ == seq![
                &prover_data.constants_sigmas_commitment,
                &self.wires_commitment,
                &self.zs_partial_products_commitment,
                &self.quotient_commitment,
            ],
    {
        let mut r: Vec<&'a PolynomialBatch<F, C>> = Vec::new();
        r.push(&prover_data.constants_sigmas_commitment);
        r.push(&self.wires_commitment);
        r.push(&self.zs_partial_products_commitment);
        r.push(&self.quotient_commitment);
        r
    }

    /// Takes the proof of the openings and assembles the whole proof.
    pub fn proved<P>(self, opening_proof: P) -> (r: ProofWithPublicInputs<F, C, O, P>)
        ensures
            r.follows(self, opening_proof),
    {
        ProofWithPublicInputs {
            proof: Proof {
                wires_cap: self.wires_commitment.cap,
                plonk_zs_partial_products_cap: self.zs_partial_products_commitment.cap,
                quotient_polys_cap: self.quotient_commitment.cap,
                openings: self.openings,
                opening_proof,
            },
            public_inputs: self.public_inputs,
        }
    }
}

/// Neither opening point lies in the subgroup of the rows: the next point has the same power as
/// the point itself, so it suffices to test the latter.
pub proof fn lemma_opening_points<E: TwoAdicRing>(degree_bits: nat, zeta: E)
    requires
        degree_bits <= E::adicity(),
        pow(zeta, pow2(degree_bits)) != E::one(),
    ensures
        pow(root_of::<E>(degree_bits).times(zeta), pow2(degree_bits)) == pow(
            zeta,
            pow2(degree_bits),
        ),
        forall|i: nat| norm(zeta) != #[trigger] pow(root_of::<E>(degree_bits), i),
        forall|i: nat|
            root_of::<E>(degree_bits).times(zeta) != #[trigger] pow(root_of::<E>(degree_bits), i),
{
    let g = root_of::<E>(degree_bits);
    let n = pow2(degree_bits);
    lemma_root_of::<E>(degree_bits);
    lemma_pow_times(g, zeta, n);
    lemma_neutral(pow(zeta, n));
    lemma_pow_norm(zeta, n);
    assert forall|i: nat|
        norm(zeta) != #[trigger] pow(g, i) && g.times(zeta) != pow(g, i) by {
        lemma_pow_pow(g, i, n);
        lemma_pow_pow(g, n, i);
        assert(i * n == n * i) by (nonlinear_arith);
        lemma_pow_one::<E>(i);
        assert(pow(pow(g, i), n) == E::one());
    }
}

/// Every challenge is drawn after everything that it has to depend on was absorbed.
pub proof fn lemma_transcript_order(n: usize, k: int)
    requires
        0 <= k < full_transcript(n).len(),
    ensures
        ({
            let t = full_transcript(n);
            let before = t.take(k);
            let instance = before.contains(TranscriptStep::ObserveCircuitDigest)
                && before.contains(TranscriptStep::ObservePublicInputsHash);
            let wires = before.contains(TranscriptStep::ObserveWiresCap);
            let zs = before.contains(TranscriptStep::ObserveZsPartialProductsCap);
            let quotients = before.contains(TranscriptStep::ObserveQuotientCap);
            &&& t[k] is DrawBetas || t[k] is DrawGammas ==> instance && wires
            &&& t[k] is DrawAlphas ==> instance && wires && zs
            &&& t[k] is DrawZeta ==> instance && wires && zs && quotients
        }),
{
    let t = full_transcript(n);
    let before = t.take(k);
    if k > 2 {
        assert(before[0] == TranscriptStep::ObserveCircuitDigest);
        assert(before[1] == TranscriptStep::ObservePublicInputsHash);
        assert(before[2] == TranscriptStep::ObserveWiresCap);
    }
    if k > 5 {
        assert(before[5] == TranscriptStep::ObserveZsPartialProductsCap);
    }
    if k > 7 {
        assert(before[7] == TranscriptStep::ObserveQuotientCap);
    }
}

} // verus!
