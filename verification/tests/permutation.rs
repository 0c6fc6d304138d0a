use plonky2_prover::circuit_data::{
    CircuitConfig, CommonCircuitData, FriConfig, ProverOnlyCircuitData, SelectorsInfo,
};
use plonky2_prover::field::two_adic_subgroup;
use plonky2_prover::goldilocks::GoldilocksField;
use plonky2_prover::oracle::PolynomialBatch;
use plonky2_prover::partial_products::{partial_products_and_z_gx, quotient_chunk_products};
use plonky2_prover::permutation::{
    all_wires_permutation_partial_products, are_challenges_invertible, is_invertible,
    is_row_invertible, last_items_first, quotient_chunk_row,
    wires_permutation_partial_products_and_zs,
};
use plonky2_prover::polynomial::PolynomialValues;
use plonky2_prover::prime::ORDER;
use plonky2_prover::ring::Ring;
use plonky2_prover::witness::MatrixWitness;

type F = GoldilocksField;

fn elements(xs: &[u64]) -> Vec<F> {
    xs.iter().map(|x| GoldilocksField(*x)).collect()
}

fn numbers(xs: &[F]) -> Vec<u64> {
    xs.iter().map(|x| x.to_canonical_u64()).collect()
}

fn values(polys: &[PolynomialValues<F>]) -> Vec<Vec<u64>> {
    polys.iter().map(|p| numbers(&p.values)).collect()
}

fn common(degree_bits: usize, num_challenges: usize) -> CommonCircuitData<F> {
    CommonCircuitData {
        config: CircuitConfig {
            num_wires: 3,
            num_routed_wires: 3,
            num_challenges,
            zero_knowledge: false,
            fri_config: FriConfig {
                rate_bits: 1,
                cap_height: 0,
            },
        },
        degree_bits,
        quotient_degree_factor: 2,
        num_gate_constraints: 0,
        num_constants: 0,
        num_public_inputs: 0,
        k_is: elements(&[1, 7, 49]),
        num_partial_products: 1,
        gates: vec![],
        selectors_info: SelectorsInfo {
            selector_indices: vec![],
            groups: vec![],
        },
    }
}

fn tables(degree_bits: usize, sigmas: Vec<Vec<F>>) -> ProverOnlyCircuitData<F, (), ()> {
    ProverOnlyCircuitData {
        sigmas,
        subgroup: two_adic_subgroup(degree_bits),
        public_inputs: vec![],
        constants_sigmas_commitment: PolynomialBatch {
            leaves: vec![],
            cap: (),
            degree_log: degree_bits,
            rate_bits: 1,
            salt_size: 0,
        },
        circuit_digest: (),
    }
}

/// The images of the wires when every wire is its own copy.
fn identity_sigmas(degree_bits: usize) -> Vec<Vec<F>> {
    two_adic_subgroup::<F>(degree_bits)
        .iter()
        .map(|x| elements(&[1, 7, 49]).iter().map(|k| k.mul(*x)).collect())
        .collect()
}

#[test]
fn chunk_products() {
    let chunks = quotient_chunk_products(&elements(&[2, 3, 5, 7, 11]), 2);
    assert_eq!(numbers(&chunks), vec![6, 35, 11]);
    assert!(quotient_chunk_products::<F>(&vec![], 4).is_empty());
}

#[test]
fn running_products() {
    let r = partial_products_and_z_gx(GoldilocksField(2), &elements(&[3, 5, 7]));
    assert_eq!(numbers(&r), vec![6, 30, 210]);
}

#[test]
fn partial_products_and_z() {
    let common = common(1, 1);
    let tables = tables(1, vec![elements(&[10, 11, 12]), elements(&[13, 14, 15])]);
    let witness = MatrixWitness {
        wire_values: vec![elements(&[1, 4]), elements(&[2, 5]), elements(&[3, 6])],
    };
    let (beta, gamma) = (GoldilocksField(2), GoldilocksField(3));
    let polys =
        wires_permutation_partial_products_and_zs(&witness, beta, gamma, &tables, &common);
    assert_eq!(
        values(&polys),
        vec![
            vec![4953292389009471716, 5032080390552987056],
            vec![1, 14711847739310890706]
        ]
    );
}

#[test]
fn z_is_one_where_nothing_moves() {
    let common = common(2, 1);
    let tables = tables(2, identity_sigmas(2));
    let witness = MatrixWitness {
        wire_values: vec![
            elements(&[1, 2, 3, 4]),
            elements(&[5, 6, 7, 8]),
            elements(&[9, 10, 11, 12]),
        ],
    };
    let all = all_wires_permutation_partial_products(
        &witness,
        &elements(&[11]),
        &elements(&[13]),
        &tables,
        &common,
    );
    assert_eq!(all.len(), 1);
    assert_eq!(values(&all[0]), vec![vec![1; 4], vec![1; 4]]);
}

/// The value that `Z` reaches after the last row, when two wires are exchanged.
fn z_after_exchange(a: u64, b: u64) -> u64 {
    let common = common(2, 1);
    let mut sigmas = identity_sigmas(2);
    let first = sigmas[1][0];
    sigmas[1][0] = sigmas[3][2];
    sigmas[3][2] = first;
    let tables = tables(2, sigmas);
    let witness = MatrixWitness {
        wire_values: vec![
            elements(&[1, a, 3, 4]),
            elements(&[5, 6, 7, 8]),
            elements(&[9, 10, 11, b]),
        ],
    };
    let (beta, gamma) = (GoldilocksField(11), GoldilocksField(13));
    let polys =
        wires_permutation_partial_products_and_zs(&witness, beta, gamma, &tables, &common);
    let z = &polys[1].values;
    assert_eq!(z[0].0, 1);
    // Each row multiplies by the quotients of the row.
    for i in 0..3 {
        let chunks = quotient_chunk_row(&witness, beta, gamma, &tables, &common, i);
        let product = chunks.iter().fold(z[i], |acc, c| acc.mul(*c));
        assert_eq!(product.0, z[i + 1].0);
    }
    let chunks = quotient_chunk_row(&witness, beta, gamma, &tables, &common, 3);
    chunks.iter().fold(z[3], |acc, c| acc.mul(*c)).0
}

#[test]
fn z_returns_to_one_if_copies_agree() {
    assert_eq!(z_after_exchange(20, 20), 1);
    assert_ne!(z_after_exchange(20, 21), 1);
}

#[test]
fn zero_denominators_are_noticed() {
    let common = common(1, 2);
    let mut sigmas = identity_sigmas(1);
    sigmas[1][2] = GoldilocksField(5);
    let tables = tables(1, sigmas);
    let witness = MatrixWitness {
        wire_values: vec![elements(&[1, 2]), elements(&[3, 4]), elements(&[5, 6])],
    };
    // 6 + 1 * 5 + gamma is zero for gamma = -11.
    let (beta, gamma) = (GoldilocksField(1), GoldilocksField(ORDER - 11));
    assert!(is_row_invertible(&witness, beta, gamma, &tables, &common, 0));
    assert!(!is_row_invertible(&witness, beta, gamma, &tables, &common, 1));
    assert!(!is_invertible(&witness, beta, gamma, &tables, &common));
    let other = GoldilocksField(20);
    assert!(is_invertible(&witness, beta, other, &tables, &common));
    let invertible = |gammas: &[u64]| {
        are_challenges_invertible(
            &witness,
            &elements(&[1, 1]),
            &elements(gammas),
            &tables,
            &common,
        )
    };
    assert!(!invertible(&[20, ORDER - 11]));
    assert!(!invertible(&[ORDER - 11, 20]));
    assert!(invertible(&[20, 30]));
    let all = all_wires_permutation_partial_products(
        &witness,
        &elements(&[1, 1]),
        &elements(&[20, 30]),
        &tables,
        &common,
    );
    assert_eq!(all.len(), 2);
}

#[test]
fn spare_factors_and_values_are_not_read() {
    let mut common = common(1, 1);
    let tables = tables(1, vec![elements(&[10, 11, 12]), elements(&[13, 14, 15])]);
    let exact = MatrixWitness {
        wire_values: vec![elements(&[1, 4]), elements(&[2, 5]), elements(&[3, 6])],
    };
    let spare = MatrixWitness {
        wire_values: vec![
            elements(&[1, 4, 99]),
            elements(&[2, 5]),
            elements(&[3, 6, 98]),
            elements(&[]),
        ],
    };
    let (beta, gamma) = (GoldilocksField(2), GoldilocksField(3));
    let a = wires_permutation_partial_products_and_zs(&exact, beta, gamma, &tables, &common);
    common.k_is.push(GoldilocksField(343));
    let b = wires_permutation_partial_products_and_zs(&spare, beta, gamma, &tables, &common);
    assert_eq!(values(&a), values(&b));
}

#[test]
fn last_items_come_first() {
    let all = vec![vec![1, 2, 3], vec![4, 5, 6]];
    assert_eq!(last_items_first(all), vec![3, 6, 1, 2, 4, 5]);
    assert!(last_items_first::<u8>(vec![]).is_empty());
}
