use plonky2_prover::checks::{batch_matches, tables_match, witness_matches};
use plonky2_prover::circuit_data::{
    CircuitConfig, CommonCircuitData, FriConfig, ProverOnlyCircuitData, SelectorsInfo,
};
use plonky2_prover::extension::QuadraticExtension;
use plonky2_prover::field::{
    exp_power_of_2, primitive_root_of_unity, two_adic_subgroup, Field, TwoAdicRing,
};
use plonky2_prover::goldilocks::GoldilocksField;
use plonky2_prover::oracle::PolynomialBatch;
use plonky2_prover::polynomial::{PolynomialCoeffs, PolynomialValues};
use plonky2_prover::prime::ORDER;
use plonky2_prover::prover::{
    prove, prove_with_partition_witness, AlphasRound, CommitRequest, PermutationRound, PlonkOracle,
    ProverError, TranscriptStep, ZetaRound,
};
use plonky2_prover::quotient::QuotientBatch;
use plonky2_prover::ring::Ring;
use plonky2_prover::util::reverse_bits;
use plonky2_prover::witness::{PartitionWitness, Target};
use plonky2_prover::zero_poly_coset::ZeroPolyOnCoset;

type F = GoldilocksField;
type Tables = ProverOnlyCircuitData<F, String, u8>;

const DEGREE_BITS: usize = 2;
const RATE_BITS: usize = 1;

fn elements(xs: &[u64]) -> Vec<F> {
    xs.iter().map(|x| GoldilocksField(*x)).collect()
}

fn numbers(xs: &[F]) -> Vec<u64> {
    xs.iter().map(|x| x.to_canonical_u64()).collect()
}

fn eval(coeffs: &[F], x: F) -> F {
    coeffs
        .iter()
        .rev()
        .fold(GoldilocksField(0), |acc, c| acc.mul(x).add(*c))
}

fn common(zero_knowledge: bool) -> CommonCircuitData<F> {
    CommonCircuitData {
        config: CircuitConfig {
            num_wires: 4,
            num_routed_wires: 3,
            num_challenges: 2,
            zero_knowledge,
            fri_config: FriConfig {
                rate_bits: RATE_BITS,
                cap_height: 1,
            },
        },
        degree_bits: DEGREE_BITS,
        quotient_degree_factor: 2,
        num_gate_constraints: 0,
        num_constants: 1,
        num_public_inputs: 2,
        k_is: elements(&[1, 7, 49]),
        num_partial_products: 1,
        gates: vec![],
        selectors_info: SelectorsInfo {
            selector_indices: vec![],
            groups: vec![],
        },
    }
}

/// Commits to polynomials without blinding; the commitment is a name.
fn commit(name: &str, polys: &[Vec<F>]) -> PolynomialBatch<F, String> {
    let k = DEGREE_BITS + RATE_BITS;
    let w = primitive_root_of_unity::<F>(k);
    let mut leaves = vec![vec![]; 1 << k];
    let mut x = F::coset_shift();
    for i in 0..1 << k {
        leaves[reverse_bits(i, k)] = polys.iter().map(|p| eval(p, x)).collect();
        x = x.mul(w);
    }
    PolynomialBatch {
        leaves,
        cap: name.to_string(),
        degree_log: DEGREE_BITS,
        rate_bits: RATE_BITS,
        salt_size: 0,
    }
}

fn commit_values(
    name: &str,
    request: CommitRequest<PolynomialValues<F>>,
) -> PolynomialBatch<F, String> {
    let one = F::one_element();
    let polys: Vec<Vec<F>> = request
        .polys
        .iter()
        .map(|p| p.coset_ifft(one).coeffs)
        .collect();
    commit(name, &polys)
}

fn tables() -> Tables {
    let subgroup = two_adic_subgroup::<F>(DEGREE_BITS);
    ProverOnlyCircuitData {
        sigmas: subgroup
            .iter()
            .map(|x| elements(&[1, 7, 49]).iter().map(|k| k.mul(*x)).collect())
            .collect(),
        subgroup,
        public_inputs: vec![
            Target::Wire { row: 1, column: 2 },
            Target::Virtual { index: 0 },
        ],
        constants_sigmas_commitment: commit("constants", &vec![elements(&[1, 2, 3, 4]); 4]),
        circuit_digest: 9,
    }
}

/// A witness with a value in every third place, and a copy of the first wire in a place of its
/// own.
fn witness() -> PartitionWitness<F> {
    let mut representative_map: Vec<usize> = (0..16).collect();
    representative_map.push(0);
    PartitionWitness {
        values: (0..16)
            .map(|i| {
                if i % 3 == 0 {
                    Some(GoldilocksField(100 + i))
                } else {
                    None
                }
            })
            .collect(),
        representative_map,
        num_wires: 4,
        degree: 4,
    }
}

fn permutation_round(
    common: &CommonCircuitData<F>,
    tables: &Tables,
) -> PermutationRound<F, String, u16> {
    let (round, request) = prove_with_partition_witness(tables, common, witness());
    round.wires_committed(common, 7u16, commit_values("wires", request))
}

fn alphas_round(common: &CommonCircuitData<F>, tables: &Tables) -> AlphasRound<F, String, u16> {
    let round = permutation_round(common, tables);
    let (round, request) = round
        .permutation_challenged(tables, common, elements(&[3, 5]), elements(&[7, 11]))
        .ok()
        .unwrap();
    round.zs_committed(common, commit_values("zs", request))
}

fn zeta_round(common: &CommonCircuitData<F>, tables: &Tables) -> ZetaRound<F, String> {
    let polys = vec![
        PolynomialCoeffs::new(elements(&[1, 2, 3, 4, 5, 6, 7, 8])),
        PolynomialCoeffs::new(elements(&[8, 7, 6, 5, 4, 3, 2, 1])),
    ];
    let (round, request) = alphas_round(common, tables)
        .split_quotients(common, polys)
        .ok()
        .unwrap();
    let pieces: Vec<Vec<F>> = request.polys.into_iter().map(|p| p.coeffs).collect();
    round.quotients_committed(common, commit("quotients", &pieces))
}

#[test]
fn the_toy_circuit_is_well_formed() {
    let (common, tables) = (common(false), tables());
    assert!(tables_match(&tables, &common));
    assert!(witness_matches(&tables, &common, &witness()));
    assert!(batch_matches(&common, &tables.constants_sigmas_commitment, 4));
}

#[test]
fn the_first_round_reads_the_witness() {
    let (round, request) = prove_with_partition_witness(&tables(), &common(true), witness());
    assert_eq!(numbers(&round.public_inputs), vec![106, 100]);
    let columns: Vec<Vec<u64>> = round.witness.wire_values.iter().map(|c| numbers(c)).collect();
    assert_eq!(
        columns,
        vec![
            vec![100, 0, 0, 112],
            vec![0, 0, 109, 0],
            vec![0, 106, 0, 0],
            vec![103, 0, 0, 115]
        ]
    );
    let committed: Vec<Vec<u64>> = request.polys.iter().map(|p| numbers(&p.values)).collect();
    assert_eq!(committed, columns);
    assert_eq!(
        (request.rate_bits, request.blinding, request.cap_height),
        (RATE_BITS, true, 1)
    );
}

#[test]
fn generators_complete_the_inputs() {
    let (common, tables) = (common(false), tables());
    let (round, request) = prove(&tables, &common, 106u64, |input, tables, common| {
        assert_eq!(tables.circuit_digest, 9);
        assert_eq!(common.num_public_inputs, 2);
        let mut w = witness();
        w.values[6] = Some(GoldilocksField(input + 1));
        w
    });
    assert_eq!(numbers(&round.public_inputs), vec![107, 100]);
    assert!(!request.blinding);
}

#[test]
fn blinding_of_the_oracles() {
    assert!(!PlonkOracle::ConstantsSigmas.blinding());
    assert!(PlonkOracle::Wires.blinding());
    assert!(PlonkOracle::ZsPartialProducts.blinding());
    assert!(PlonkOracle::Quotient.blinding());
}

#[test]
fn permutation_polynomials_come_before_partial_products() {
    let (common, tables) = (common(true), tables());
    let round = permutation_round(&common, &tables);
    let (round, request) = round
        .permutation_challenged(&tables, &common, elements(&[3, 5]), elements(&[7, 11]))
        .ok()
        .unwrap();
    assert_eq!(numbers(&round.betas), vec![3, 5]);
    assert_eq!(numbers(&round.gammas), vec![7, 11]);
    assert_eq!(round.wires_commitment.cap, "wires");
    // Nothing is copied, so all of them are constantly one.
    assert_eq!(request.polys.len(), 4);
    for poly in &request.polys {
        assert_eq!(numbers(&poly.values), vec![1; 4]);
    }
    assert!(request.blinding);
}

#[test]
fn permutation_polynomials_of_a_copied_wire() {
    let common = common(false);
    let mut tables = tables();
    // The wires (0, 0) and (3, 1) are exchanged; they hold 100 and 0.
    let image = tables.sigmas[0][0];
    tables.sigmas[0][0] = tables.sigmas[3][1];
    tables.sigmas[3][1] = image;
    let round = permutation_round(&common, &tables);
    let (beta, gamma) = (GoldilocksField(3), GoldilocksField(7));
    let (_, request) = round
        .permutation_challenged(&tables, &common, elements(&[3, 5]), elements(&[7, 11]))
        .ok()
        .unwrap();
    // Row 0: wire 100, identity 1, image 7 g^3.
    let numerator = GoldilocksField(100).add(beta).add(gamma);
    let denominator = GoldilocksField(100)
        .add(beta.mul(tables.sigmas[0][0]))
        .add(gamma);
    let quotient = numerator.mul(denominator.try_inverse().unwrap()).0;
    assert_eq!(
        numbers(&request.polys[0].values),
        vec![1, quotient, quotient, quotient]
    );
    let first_partial_products = numbers(&request.polys[2].values);
    assert_eq!(first_partial_products[..3], [quotient, quotient, quotient]);
    assert_ne!(first_partial_products[3], quotient);
}

#[test]
fn a_zero_denominator_ends_the_proof() {
    let (common, tables) = (common(false), tables());
    // The wire (0, 0) holds 100 and is its own image, so 100 + 1 + gamma is zero for gamma = -101.
    let r = permutation_round(&common, &tables).permutation_challenged(
        &tables,
        &common,
        elements(&[1, 5]),
        elements(&[ORDER - 101, 11]),
    );
    assert_eq!(r.err(), Some(ProverError::ZeroDenominator));
}

#[test]
fn quotients_are_computed_and_split() {
    let (common, tables) = (common(true), tables());
    let t = [
        elements(&[1, 2, 3, 4, 5, 6, 7, 8]),
        elements(&[8, 7, 6, 5, 4, 3, 2, 1]),
    ];
    let evaluator = |batch: &QuotientBatch<F>,
                     z_h: &ZeroPolyOnCoset<F>,
                     hash: &u16,
                     betas: &Vec<F>,
                     gammas: &Vec<F>,
                     alphas: &Vec<F>| {
        assert_eq!(*hash, 7);
        assert_eq!(
            (numbers(betas), numbers(gammas), numbers(alphas)),
            (vec![3, 5], vec![7, 11], vec![13, 17])
        );
        // The permutation polynomials are constantly one.
        assert!(batch.local_zs.iter().all(|zs| numbers(zs) == vec![1, 1]));
        batch
            .indices
            .iter()
            .zip(&batch.shifted_xs)
            .map(|(i, x)| t.iter().map(|t| eval(t, *x).mul(z_h.eval(*i))).collect())
            .collect()
    };
    let (round, request) = alphas_round(&common, &tables)
        .alphas_drawn(&tables, &common, &elements(&[13, 17]), evaluator)
        .ok()
        .unwrap();
    let pieces: Vec<Vec<u64>> = request.polys.iter().map(|p| numbers(&p.coeffs)).collect();
    assert_eq!(
        pieces,
        vec![
            vec![1, 2, 3, 4],
            vec![5, 6, 7, 8],
            vec![8, 7, 6, 5],
            vec![4, 3, 2, 1]
        ]
    );
    assert!(request.blinding);
    assert_eq!(round.zs_partial_products_commitment.cap, "zs");
}

#[test]
fn quotients_of_too_high_a_degree_end_the_proof() {
    let (common, tables) = (common(true), tables());
    let mut coeffs = elements(&[1, 2, 3, 4, 5, 6, 7, 8]);
    coeffs.push(GoldilocksField(1));
    let r = alphas_round(&common, &tables)
        .split_quotients(&common, vec![PolynomialCoeffs::new(coeffs)]);
    assert_eq!(r.err(), Some(ProverError::QuotientFailed));
}

#[test]
fn opening_points_in_the_subgroup_are_refused() {
    let (common, tables) = (common(true), tables());
    let g = primitive_root_of_unity::<QuadraticExtension>(DEGREE_BITS);
    let mut x = QuadraticExtension::one_element();
    for _ in 0..4 {
        let r = zeta_round(&common, &tables).zeta_drawn(&common, x);
        assert_eq!(r.err(), Some(ProverError::OpeningPointInSubgroup));
        x = x.mul(g);
    }
    // A representation of one that is not canonical.
    let one = QuadraticExtension(GoldilocksField(ORDER + 1), GoldilocksField(ORDER));
    let r = zeta_round(&common, &tables).zeta_drawn(&common, one);
    assert_eq!(r.err(), Some(ProverError::OpeningPointInSubgroup));
}

#[test]
fn both_opening_points_have_the_same_power() {
    let zeta = QuadraticExtension(GoldilocksField(5), GoldilocksField(6));
    let g = primitive_root_of_unity::<QuadraticExtension>(DEGREE_BITS);
    let a = exp_power_of_2(zeta, DEGREE_BITS);
    let b = exp_power_of_2(g.mul(zeta), DEGREE_BITS);
    assert!(a.equals(b));
    assert!(!a.equals(QuadraticExtension::one_element()));
    assert!(DEGREE_BITS <= QuadraticExtension::two_adicity());
}

#[test]
fn a_whole_proof() {
    let (common, tables) = (common(true), tables());
    let zeta = QuadraticExtension(GoldilocksField(5), GoldilocksField(6));
    let round = zeta_round(&common, &tables)
        .zeta_drawn(&common, zeta)
        .ok()
        .unwrap();
    assert!(round.zeta.equals(zeta));
    assert_eq!(round.g.0 .0, 281474976710656);
    assert_eq!(round.g.1 .0, 0);
    let caps: Vec<&str> = round
        .oracles(&tables)
        .iter()
        .map(|b| b.cap.as_str())
        .collect();
    assert_eq!(caps, vec!["constants", "wires", "zs", "quotients"]);
    let round = round.opened(&common, "openings");
    assert_eq!(
        round.transcript,
        vec![
            TranscriptStep::ObserveCircuitDigest,
            TranscriptStep::ObservePublicInputsHash,
            TranscriptStep::ObserveWiresCap,
            TranscriptStep::DrawBetas(2),
            TranscriptStep::DrawGammas(2),
            TranscriptStep::ObserveZsPartialProductsCap,
            TranscriptStep::DrawAlphas(2),
            TranscriptStep::ObserveQuotientCap,
            TranscriptStep::DrawZeta,
            TranscriptStep::ObserveOpenings,
        ]
    );
    assert_eq!(round.oracles(&tables).len(), 4);
    let made = round.proved("opening proof");
    assert_eq!(numbers(&made.public_inputs), vec![106, 100]);
    assert_eq!(made.proof.wires_cap, "wires");
    assert_eq!(made.proof.plonk_zs_partial_products_cap, "zs");
    assert_eq!(made.proof.quotient_polys_cap, "quotients");
    assert_eq!(made.proof.openings, "openings");
    assert_eq!(made.proof.opening_proof, "opening proof");
}

#[test]
fn the_transcript_grows_with_the_rounds() {
    let (common, tables) = (common(true), tables());
    assert_eq!(permutation_round(&common, &tables).transcript.len(), 5);
    assert_eq!(alphas_round(&common, &tables).transcript.len(), 7);
    assert_eq!(zeta_round(&common, &tables).transcript.len(), 9);
}

#[test]
fn malformed_circuits_are_noticed() {
    let tables = tables();
    let spoiled = |spoil: fn(&mut CommonCircuitData<F>)| {
        let mut c = common(false);
        spoil(&mut c);
        !c.is_well_formed()
    };
    assert!(common(false).is_well_formed());
    assert!(spoiled(|c| c.config.num_routed_wires = 5));
    assert!(spoiled(|c| c.k_is = vec![]));
    assert!(spoiled(|c| c.quotient_degree_factor = 0));
    assert!(spoiled(|c| c.quotient_degree_factor = 3));
    assert!(spoiled(|c| c.num_partial_products = 2));
    assert!(spoiled(|c| c.degree_bits = 32));
    assert!(spoiled(|c| c.config.fri_config.rate_bits = 0));
    assert!(spoiled(|c| c.num_constants = usize::MAX));
    assert!(spoiled(|c| c.config.num_challenges = usize::MAX));
    assert!(!tables_match(&tables, &{
        let mut c = common(false);
        c.degree_bits = 3;
        c
    }));
    let mut w = witness();
    w.values[6] = None;
    assert!(!witness_matches(&tables, &common(false), &w));
    assert!(!w.knows_target(Target::Wire { row: 1, column: 2 }));
    assert!(w.knows_target(Target::Virtual { index: 0 }));
    assert!(!w.knows_target(Target::Virtual { index: 1 }));
    assert!(!w.knows_target(Target::Wire { row: 4, column: 0 }));
    w.representative_map[3] = 16;
    assert!(!w.is_well_formed());
    assert!(!batch_matches(&common(false), &tables.constants_sigmas_commitment, 3));
    let mut batch = commit("uneven", &[elements(&[1])]);
    assert!(batch.has_rows());
    batch.leaves[5].push(GoldilocksField(0));
    assert!(!batch.has_rows());
    batch.leaves.pop();
    assert!(!batch.has_rows());
}

#[test]
fn two_runs_without_zero_knowledge_agree() {
    let (common, tables) = (common(false), tables());
    let run = || {
        let alphas = alphas_round(&common, &tables);
        let (round, request) = alphas
            .alphas_drawn(
                &tables,
                &common,
                &elements(&[13, 17]),
                |batch: &QuotientBatch<F>,
                 z_h: &ZeroPolyOnCoset<F>,
                 _hash: &u16,
                 betas: &Vec<F>,
                 gammas: &Vec<F>,
                 alphas: &Vec<F>| {
                    batch
                        .indices
                        .iter()
                        .zip(&batch.shifted_xs)
                        .map(|(i, x)| {
                            (0..2)
                                .map(|c| {
                                    let t = [alphas[c], betas[c], gammas[c]];
                                    eval(&t, *x).mul(z_h.eval(*i))
                                })
                                .collect()
                        })
                        .collect()
                },
            )
            .ok()
            .unwrap();
        assert!(!request.blinding);
        let pieces: Vec<Vec<u64>> = request.polys.iter().map(|p| numbers(&p.coeffs)).collect();
        (
            numbers(&round.public_inputs),
            round.wires_commitment.cap,
            round.zs_partial_products_commitment.cap,
            pieces,
        )
    };
    let first = run();
    assert_eq!(first.3[0], vec![13, 3, 7, 0]);
    assert_eq!(run(), first);
}
