use plonky2_prover::circuit_data::{
    CircuitConfig, CommonCircuitData, FriConfig, ProverOnlyCircuitData, SelectorsInfo,
};
use plonky2_prover::field::{primitive_root_of_unity, Field};
use plonky2_prover::goldilocks::GoldilocksField;
use plonky2_prover::gpu::compute_quotient_polys_gpu;
use plonky2_prover::oracle::PolynomialBatch;
use plonky2_prover::polynomial::PolynomialCoeffs;
use plonky2_prover::quotient::{
    compute_quotient_polys, quotient_batch, split_quotient_polys, QuotientBatch, QuotientDomain,
};
use plonky2_prover::ring::{subtract, Ring};
use plonky2_prover::util::reverse_bits;
use plonky2_prover::zero_poly_coset::ZeroPolyOnCoset;

type F = GoldilocksField;

fn elements(xs: &[u64]) -> Vec<F> {
    xs.iter().map(|x| GoldilocksField(*x)).collect()
}

fn numbers(xs: &[F]) -> Vec<u64> {
    xs.iter().map(|x| x.to_canonical_u64()).collect()
}

fn eval(coeffs: &[F], x: F) -> F {
    coeffs
        .iter()
        .rev()
        .fold(GoldilocksField(0), |acc, c| acc.mul(x).add(*c))
}

fn common(degree_bits: usize) -> CommonCircuitData<F> {
    common_at(degree_bits, 3)
}

fn common_at(degree_bits: usize, rate_bits: usize) -> CommonCircuitData<F> {
    CommonCircuitData {
        config: CircuitConfig {
            num_wires: 4,
            num_routed_wires: 3,
            num_challenges: 2,
            zero_knowledge: true,
            fri_config: FriConfig {
                rate_bits,
                cap_height: 0,
            },
        },
        degree_bits,
        quotient_degree_factor: 2,
        num_gate_constraints: 0,
        num_constants: 1,
        num_public_inputs: 0,
        k_is: elements(&[1, 7, 49]),
        num_partial_products: 1,
        gates: vec![],
        selectors_info: SelectorsInfo {
            selector_indices: vec![],
            groups: vec![],
        },
    }
}

/// Some polynomials of the circuit's degree, told apart by `seed`.
fn some_polys(degree_bits: usize, count: u64, seed: u64) -> Vec<Vec<F>> {
    (0..count)
        .map(|p| {
            (0..1u64 << degree_bits)
                .map(|i| GoldilocksField(seed + 100 * p + i * i))
                .collect()
        })
        .collect()
}

/// Commits to polynomials, with two blinding values in each row.
fn commit(degree_bits: usize, polys: &[Vec<F>]) -> PolynomialBatch<F, ()> {
    commit_at(degree_bits, 3, polys)
}

fn commit_at(degree_bits: usize, rate_bits: usize, polys: &[Vec<F>]) -> PolynomialBatch<F, ()> {
    let k = degree_bits + rate_bits;
    let w = primitive_root_of_unity::<F>(k);
    let mut leaves = vec![vec![]; 1 << k];
    let mut x = F::coset_shift();
    for i in 0..1 << k {
        let mut row: Vec<F> = polys.iter().map(|p| eval(p, x)).collect();
        row.extend(elements(&[123, 456]));
        leaves[reverse_bits(i, k)] = row;
        x = x.mul(w);
    }
    PolynomialBatch {
        leaves,
        cap: (),
        degree_log: degree_bits,
        rate_bits,
        salt_size: 2,
    }
}

fn tables(
    degree_bits: usize,
    commitment: PolynomialBatch<F, ()>,
) -> ProverOnlyCircuitData<F, (), ()> {
    ProverOnlyCircuitData {
        sigmas: vec![elements(&[1, 2, 3]); 1 << degree_bits],
        subgroup: vec![],
        public_inputs: vec![],
        constants_sigmas_commitment: commitment,
        circuit_digest: (),
    }
}

#[test]
fn the_domain_of_the_quotient() {
    let domain = QuotientDomain::new(&common(2));
    assert_eq!(domain.bits, 1);
    assert_eq!(domain.step, 4);
    assert_eq!(domain.next_step, 2);
    assert_eq!(domain.points.len(), 8);
    assert_eq!(domain.points[0].0, 1);
}

#[test]
fn batches_hold_the_values_of_the_committed_polynomials() {
    let degree_bits = 5;
    let common = common(degree_bits);
    let cs_polys = some_polys(degree_bits, 4, 1);
    let wire_polys = some_polys(degree_bits, 4, 2);
    let zs_polys = some_polys(degree_bits, 4, 3);
    let (cs, wires, zs) = (
        commit(degree_bits, &cs_polys),
        commit(degree_bits, &wire_polys),
        commit(degree_bits, &zs_polys),
    );
    let domain = QuotientDomain::new(&common);
    assert_eq!(domain.points.len(), 64);
    let g = primitive_root_of_unity::<F>(degree_bits);
    for b in 0..2 {
        let batch = quotient_batch(&domain, &common, &cs, &wires, &zs, b);
        assert_eq!(batch.indices, (32 * b..32 * b + 32).collect::<Vec<_>>());
        for j in 0..32 {
            let x = batch.shifted_xs[j];
            assert_eq!(x.0, F::coset_shift().mul(domain.points[32 * b + j]).0);
            assert_eq!(batch.local_constants[j].0, eval(&cs_polys[0], x).0);
            for c in 0..3 {
                assert_eq!(batch.s_sigmas[j][c].0, eval(&cs_polys[1 + c], x).0);
            }
            for c in 0..4 {
                assert_eq!(batch.local_wires[c * 32 + j].0, eval(&wire_polys[c], x).0);
            }
            for c in 0..2 {
                assert_eq!(batch.local_zs[j][c].0, eval(&zs_polys[c], x).0);
                assert_eq!(batch.next_zs[j][c].0, eval(&zs_polys[c], g.mul(x)).0);
                assert_eq!(batch.partial_products[j][c].0, eval(&zs_polys[2 + c], x).0);
            }
            assert_eq!(batch.s_sigmas[j].len(), 3);
            assert_eq!(batch.partial_products[j].len(), 2);
        }
        assert_eq!(batch.local_wires.len(), 128);
    }
}

/// Runs the computation on constraints that are `quotients[c]` times the vanishing polynomial,
/// plus a remainder.
fn run(degree_bits: usize, quotients: &[Vec<F>; 2], remainder: u64) -> Vec<PolynomialCoeffs<F>> {
    let common = common(degree_bits);
    let wires = commit(degree_bits, &some_polys(degree_bits, 4, 2));
    let zs = commit(degree_bits, &some_polys(degree_bits, 4, 3));
    let tables = tables(degree_bits, commit(degree_bits, &some_polys(degree_bits, 4, 1)));
    let evaluator = |batch: &QuotientBatch<F>,
                     z_h: &ZeroPolyOnCoset<F>,
                     hash: &u64,
                     betas: &Vec<F>,
                     gammas: &Vec<F>,
                     alphas: &Vec<F>| {
        assert_eq!(*hash, 77);
        assert_eq!(
            (numbers(betas), numbers(gammas), numbers(alphas)),
            (vec![1, 2], vec![3, 4], vec![5, 6])
        );
        batch
            .indices
            .iter()
            .zip(&batch.shifted_xs)
            .map(|(i, x)| {
                quotients
                    .iter()
                    .map(|t| eval(t, *x).mul(z_h.eval(*i)).add(GoldilocksField(remainder)))
                    .collect()
            })
            .collect()
    };
    let cpu = compute_quotient_polys(
        &common,
        &tables,
        &77u64,
        &wires,
        &zs,
        &elements(&[1, 2]),
        &elements(&[3, 4]),
        &elements(&[5, 6]),
        evaluator,
    );
    let gpu = compute_quotient_polys_gpu(
        &common,
        &tables,
        &77u64,
        &wires,
        &zs,
        &elements(&[1, 2]),
        &elements(&[3, 4]),
        &elements(&[5, 6]),
        evaluator,
    );
    for (a, b) in cpu.iter().zip(&gpu) {
        assert_eq!(numbers(&a.coeffs), numbers(&b.coeffs));
    }
    cpu
}

#[test]
fn quotients_are_recovered() {
    let quotients = [
        elements(&[1, 2, 3, 4, 5, 6, 7, 8]),
        elements(&[9, 0, 0, 0, 0, 0, 0, 1]),
    ];
    let polys = run(2, &quotients, 0);
    assert_eq!(numbers(&polys[0].coeffs), vec![1, 2, 3, 4, 5, 6, 7, 8]);
    assert_eq!(numbers(&polys[1].coeffs), vec![9, 0, 0, 0, 0, 0, 0, 1]);
    let pieces = split_quotient_polys(&common(2), polys).unwrap();
    let parts: Vec<Vec<u64>> = pieces.iter().map(|p| numbers(&p.coeffs)).collect();
    assert_eq!(
        parts,
        vec![
            vec![1, 2, 3, 4],
            vec![5, 6, 7, 8],
            vec![9, 0, 0, 0],
            vec![0, 0, 0, 1]
        ]
    );
}

#[test]
fn quotients_over_several_batches() {
    let t: Vec<F> = (1..65).map(GoldilocksField).collect();
    let polys = run(5, &[t.clone(), t], 0);
    assert_eq!(numbers(&polys[0].coeffs), (1..65).collect::<Vec<u64>>());
    assert_eq!(numbers(&polys[1].coeffs), (1..65).collect::<Vec<u64>>());
}

#[test]
fn the_quotient_times_the_vanishing_polynomial_gives_the_constraints() {
    let t = elements(&[1, 2, 3, 4, 5, 6, 7, 8]);
    let polys = run(2, &[t.clone(), t.clone()], 3);
    let domain = QuotientDomain::new(&common(2));
    for (i, point) in domain.points.iter().enumerate() {
        let x = F::coset_shift().mul(*point);
        let z = domain.z_h_on_coset.eval(i);
        let constraint = eval(&t, x).mul(z).add(GoldilocksField(3));
        assert_eq!(eval(&polys[0].coeffs, x).mul(z).0, constraint.0);
    }
}

#[test]
fn a_quotient_of_too_high_a_degree_is_refused() {
    // With a factor of three the quotient's domain has four times as many points as rows.
    let mut common = common(1);
    common.quotient_degree_factor = 3;
    let short = PolynomialCoeffs::new(elements(&[1, 2, 3, 4, 5, 6, 0, 0]));
    let long = PolynomialCoeffs::new(elements(&[1, 2, 3, 4, 5, 6, 1, 0]));
    let parts: Vec<Vec<u64>> = split_quotient_polys(&common, vec![short])
        .unwrap()
        .iter()
        .map(|p| numbers(&p.coeffs))
        .collect();
    assert_eq!(parts, vec![vec![1, 2], vec![3, 4], vec![5, 6]]);
    let short = PolynomialCoeffs::new(elements(&[1, 2, 3, 4, 5, 6, 0, 0]));
    assert!(split_quotient_polys(&common, vec![short, long]).is_none());
    assert!(split_quotient_polys(&common, vec![]).unwrap().is_empty());
}

#[test]
fn constraints_that_are_not_divisible_have_no_quotient() {
    let mut common = common(1);
    common.quotient_degree_factor = 3;
    common.config.num_routed_wires = 4;
    common.k_is = elements(&[1, 7, 49, 343]);
    let domain = QuotientDomain::new(&common);
    let evaluations = |remainder: u64| -> Vec<Vec<Vec<F>>> {
        let rows = (0..8)
            .map(|i| {
                let x = F::coset_shift().mul(domain.points[i]);
                let t = eval(&elements(&[1, 2, 3, 4, 5, 6]), x);
                let v = t
                    .mul(subtract(x.mul(x), GoldilocksField(1)))
                    .add(GoldilocksField(remainder));
                vec![v, v]
            })
            .collect();
        vec![rows]
    };
    let exact =
        plonky2_prover::quotient::finish_quotient_polys(&domain, &common, &evaluations(0));
    assert_eq!(numbers(&exact[0].coeffs), vec![1, 2, 3, 4, 5, 6, 0, 0]);
    assert!(split_quotient_polys(&common, exact).is_some());
    let rest = plonky2_prover::quotient::finish_quotient_polys(&domain, &common, &evaluations(1));
    assert!(split_quotient_polys(&common, rest).is_none());
}

#[test]
fn the_rate_does_not_matter() {
    let degree_bits = 2;
    let run = |rate_bits: usize| -> Vec<Vec<u64>> {
        let common = common_at(degree_bits, rate_bits);
        let commit = |seed| commit_at(degree_bits, rate_bits, &some_polys(degree_bits, 4, seed));
        let tables = tables(degree_bits, commit(1));
        let polys = compute_quotient_polys(
            &common,
            &tables,
            &(),
            &commit(2),
            &commit(3),
            &elements(&[1, 2]),
            &elements(&[3, 4]),
            &elements(&[5, 6]),
            |batch: &QuotientBatch<F>,
             _z_h: &ZeroPolyOnCoset<F>,
             _hash: &(),
             betas: &Vec<F>,
             gammas: &Vec<F>,
             alphas: &Vec<F>| {
                let n = batch.indices.len();
                (0..n)
                    .map(|j| {
                        (0..2)
                            .map(|c| {
                                let wires = batch.local_wires[c * n + j].mul(alphas[c]);
                                let zs = batch.local_zs[j][c].mul(betas[c]);
                                let next = batch.next_zs[j][c].mul(gammas[c]);
                                wires.add(zs).add(next).add(batch.local_constants[j])
                            })
                            .collect()
                    })
                    .collect()
            },
        );
        polys.iter().map(|p| numbers(&p.coeffs)).collect()
    };
    let expected = run(1);
    assert_eq!(expected[0].len(), 8);
    assert_ne!(expected[0], expected[1]);
    assert_eq!(run(2), expected);
    assert_eq!(run(3), expected);
}
