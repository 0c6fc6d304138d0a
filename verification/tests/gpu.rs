use plonky2_prover::circuit_data::{
    CircuitConfig, CommonCircuitData, FriConfig, GateRange, GateRef, ProverOnlyCircuitData,
    SelectorsInfo,
};
use plonky2_prover::gates::{
    find_gate_type, first_unknown_gate, parse_gate_named_u32, quotient_gate_info,
    zeknox_quotient_gate_infos, zeknox_quotient_gate_type_id, GateInfo,
};
use plonky2_prover::goldilocks::GoldilocksField;
use plonky2_prover::gpu::{
    compute_quotient_polys_gpu_gl64, gpu_quotient_hash_limbs_gl64, leaves_flat, parse_usize,
    prover_config, take_gpu_id, to_canonical, GpuQuotientError, ProverConfig,
};
use plonky2_prover::oracle::PolynomialBatch;
use plonky2_prover::prime::ORDER;

type F = GoldilocksField;
type Tables = ProverOnlyCircuitData<F, (), ()>;

fn elements(xs: &[u64]) -> Vec<F> {
    xs.iter().map(|x| GoldilocksField(*x)).collect()
}

fn numbers(xs: &[F]) -> Vec<u64> {
    xs.iter().map(|x| x.0).collect()
}

fn gate(id: &str, num_constraints: usize) -> GateRef {
    GateRef {
        id: id.to_string(),
        num_constraints,
    }
}

fn common() -> CommonCircuitData<F> {
    CommonCircuitData {
        config: CircuitConfig {
            num_wires: 4,
            num_routed_wires: 3,
            num_challenges: 2,
            zero_knowledge: false,
            fri_config: FriConfig {
                rate_bits: 2,
                cap_height: 1,
            },
        },
        degree_bits: 1,
        quotient_degree_factor: 2,
        num_gate_constraints: 5,
        num_constants: 1,
        num_public_inputs: 6,
        k_is: elements(&[1, 7, ORDER + 49]),
        num_partial_products: 1,
        gates: vec![
            gate("ArithmeticGate { num_ops: 20 }", 20),
            gate("ConstantGate { num_consts: 2 }", 2),
            gate("PublicInputGate", 4),
        ],
        selectors_info: SelectorsInfo {
            selector_indices: vec![0, 1],
            groups: vec![GateRange { start: 0, end: 2 }],
        },
    }
}

fn batch(width: usize, rate_bits: usize) -> PolynomialBatch<F, ()> {
    PolynomialBatch {
        leaves: (0..1 << (1 + rate_bits))
            .map(|i| (0..width).map(|j| GoldilocksField((10 * i + j) as u64)).collect())
            .collect(),
        cap: (),
        degree_log: 1,
        rate_bits,
        salt_size: 0,
    }
}

fn tables(constants: PolynomialBatch<F, ()>) -> Tables {
    ProverOnlyCircuitData {
        sigmas: vec![],
        subgroup: vec![],
        public_inputs: vec![],
        constants_sigmas_commitment: constants,
        circuit_digest: (),
    }
}

#[test]
fn gate_types() {
    let type_of = |id: &str| find_gate_type(&gate(id, 0));
    assert_eq!(type_of("ArithmeticGate { num_ops: 20 }"), Some(0));
    assert_eq!(type_of("ArithmeticExtensionGate { num_ops: 10 }"), Some(1));
    assert_eq!(type_of("ConstantGate { num_consts: 2 }"), Some(2));
    assert_eq!(type_of("PublicInputGate"), Some(3));
    assert_eq!(type_of("PoseidonGate(PhantomData)<WIDTH=12>"), Some(4));
    assert_eq!(type_of("BaseSumGate { num_limbs: 63 } + Base: 2"), Some(5));
    assert_eq!(type_of("RandomAccessGate{bits: 4}"), Some(6));
    assert_eq!(type_of("NoopGate"), Some(7));
    assert_eq!(type_of("ReducingGate { num_coeffs: 3 }"), None);
    assert_eq!(type_of("NoopGate2"), None);
    assert_eq!(type_of(" NoopGate"), None);
    assert_eq!(type_of(""), None);
    assert_eq!(type_of("PoseidonMdsGate"), None);
    let known = gate("BaseSumGate { num_limbs: 63 } + Base: 2", 0);
    assert_eq!(zeknox_quotient_gate_type_id(&known), 5);
}

#[test]
fn named_numbers() {
    let parse = parse_gate_named_u32;
    assert_eq!(parse("ArithmeticGate { num_ops: 20 }", "num_ops"), Some(20));
    assert_eq!(parse("ArithmeticGate { num_ops: 20 }", "num_consts"), None);
    assert_eq!(parse("num_ops: 007x", "num_ops"), Some(7));
    assert_eq!(parse("num_ops: x, num_ops: 3", "num_ops"), None);
    assert_eq!(parse("num_ops:3, num_ops: 4", "num_ops"), Some(4));
    assert_eq!(parse("max_num_ops: 5", "num_ops"), Some(5));
    assert_eq!(parse("a: 4294967295", "a"), Some(u32::MAX));
    assert_eq!(parse("a: 4294967296", "a"), None);
    assert_eq!(parse("a: 99999999999999999999999999", "a"), None);
    assert_eq!(parse("a: ", "a"), None);
    assert_eq!(parse("a: -1", "a"), None);
    assert_eq!(parse("x: 8", ""), Some(8));
    assert_eq!(parse("", "a"), None);
    assert_eq!(parse("\u{3b1}: \u{3b2} a: 12\u{3b3}", "a"), Some(12));
}

#[test]
fn gate_infos() {
    let infos = zeknox_quotient_gate_infos(&common());
    let zero = GateInfo {
        gate_type: 0,
        selector_index: 0,
        group_start: 0,
        group_end: 0,
        num_selectors: 1,
        num_constraints: 0,
        wire_0: 0,
        wire_1: 0,
        wire_2: 0,
        wire_3: 0,
        const_0: 0,
        const_1: 0,
        aux_0: 0,
        aux_1: 0,
    };
    let arithmetic = GateInfo {
        group_end: 2,
        num_constraints: 20,
        wire_1: 1,
        wire_2: 2,
        wire_3: 3,
        const_1: 1,
        aux_0: 20,
        ..zero
    };
    let constant = GateInfo {
        gate_type: 2,
        selector_index: 1,
        num_constraints: 2,
        aux_0: 2,
        ..zero
    };
    let public_input = GateInfo {
        gate_type: 3,
        num_constraints: 4,
        wire_1: 1,
        wire_2: 2,
        wire_3: 3,
        aux_0: 4,
        ..zero
    };
    assert_eq!(infos, vec![arithmetic, constant, public_input]);
    assert_eq!(quotient_gate_info(&common(), 1), constant);
}

#[test]
fn gate_infos_without_numbers() {
    let mut common = common();
    common.gates = vec![
        gate("ArithmeticGate", 1),
        gate("ConstantGate", 1),
        gate("NoopGate", 0),
    ];
    let infos = zeknox_quotient_gate_infos(&common);
    let aux: Vec<u32> = infos.iter().map(|i| i.aux_0).collect();
    assert_eq!(aux, vec![0, 0, 0]);
    assert_eq!(infos[2].gate_type, 7);
    assert_eq!(infos[2].wire_1, 0);
}

#[test]
fn unknown_gates_are_reported() {
    let mut common = common();
    common.gates.insert(1, gate("LookupGate", 0));
    common.gates.push(gate("ReducingGate", 0));
    assert_eq!(first_unknown_gate(&common), Some(1));
    common.gates.clear();
    assert_eq!(first_unknown_gate(&common), None);
    assert!(zeknox_quotient_gate_infos(&common).is_empty());
}

#[test]
fn numbers_of_devices() {
    assert_eq!(parse_usize("2"), Some(2));
    assert_eq!(parse_usize("+08"), Some(8));
    assert_eq!(parse_usize("0"), Some(0));
    assert_eq!(parse_usize(""), None);
    assert_eq!(parse_usize("+"), None);
    assert_eq!(parse_usize("++1"), None);
    assert_eq!(parse_usize("-1"), None);
    assert_eq!(parse_usize("1 "), None);
    assert_eq!(parse_usize("x1"), None);
    assert_eq!(parse_usize(&usize::MAX.to_string()), Some(usize::MAX));
    assert_eq!(parse_usize("99999999999999999999999"), None);
    for text in ["17", "+5", "-0", "", "1_0", "18446744073709551615", "18446744073709551616"] {
        assert_eq!(parse_usize(text), text.parse::<usize>().ok());
    }
}

#[test]
fn devices_take_turns() {
    let mut next = 0;
    let ids: Vec<usize> = (0..7).map(|_| take_gpu_id(&mut next, 3)).collect();
    assert_eq!(ids, vec![0, 1, 2, 0, 1, 2, 0]);
    let mut next = 5;
    assert_eq!(take_gpu_id(&mut next, 3), 5);
    assert_eq!(next, 0);
    let ids: Vec<usize> = (0..3).map(|_| take_gpu_id(&mut next, 1)).collect();
    assert_eq!(ids, vec![0, 0, 0]);
}

#[test]
fn hash_limbs() {
    let limbs = gpu_quotient_hash_limbs_gl64(&elements(&[1, ORDER, ORDER + 3, 4]));
    assert_eq!(limbs, Ok([1, 0, 3, 4]));
    let short = gpu_quotient_hash_limbs_gl64(&elements(&[1, 2, 3]));
    assert_eq!(short, Err(GpuQuotientError::HashLimbs(3)));
    let long = gpu_quotient_hash_limbs_gl64(&elements(&[1, 2, 3, 4, 5]));
    assert_eq!(long, Err(GpuQuotientError::HashLimbs(5)));
    assert_eq!(to_canonical(&elements(&[ORDER + 1, 2])), vec![1, 2]);
}

#[test]
fn rows_are_concatenated() {
    let rows = vec![vec![1, 2], vec![3], vec![], vec![4, 5]];
    assert_eq!(leaves_flat(&rows), vec![1, 2, 3, 4, 5]);
}

#[test]
fn dimensions_are_truncated() {
    let config = prover_config(&common());
    let expected = ProverConfig {
        degree_bits: 1,
        num_wires: 4,
        num_routed_wires: 3,
        num_challenges: 2,
        num_partial_products: 1,
        quotient_degree_factor: 2,
        rate_bits: 2,
        cap_height: 1,
        num_gate_constraints: 5,
        num_constants: 1,
        num_public_inputs: 6,
    };
    assert_eq!(config, expected);
    let mut common = common();
    common.num_gate_constraints = usize::MAX;
    assert_eq!(prover_config(&common).num_gate_constraints, u32::MAX);
}

#[test]
fn the_stages_of_a_computation() {
    let common = common();
    assert!(common.has_device_sizes());
    let tables = tables(batch(4, 2));
    let (wires, zs) = (batch(5, 2), batch(6, 2));
    let hash = elements(&[1, 2, 3, ORDER + 4]);
    let (betas, gammas, alphas) = (
        elements(&[1, 2]),
        elements(&[3, 4]),
        elements(&[5, ORDER + 6]),
    );
    let stage = compute_quotient_polys_gpu_gl64(
        &common, &tables, &hash, &wires, &zs, &betas, &gammas, &alphas,
    )
    .ok()
    .unwrap();
    assert_eq!(stage.lde_q_expected, 4);
    assert_eq!(stage.lg_ntt_domain, 3);
    let mut next = 1;
    let stage = stage.select_gpu(Some("2"), &mut next).ok().unwrap();
    assert_eq!((stage.gpu_id, next), (1, 0));
    assert_eq!(stage.coset_shift, 7);
    assert_eq!(stage.lg_ntt_domain, 3);
    let stage = stage.tables_prepared().ok().unwrap();
    assert_eq!(stage.gpu_id, 1);
    assert_eq!(stage.constants_sigmas_flat.len(), 32);
    assert_eq!(
        numbers(&stage.wires_flat)[..10],
        [0, 1, 2, 3, 4, 10, 11, 12, 13, 14]
    );
    assert_eq!(stage.zs_partial_products_flat.len(), 48);
    let launch = stage.uploaded().ok().unwrap();
    assert_eq!(launch.gpu_id, 1);
    assert_eq!(
        (
            launch.constants_sigmas_leaf_size,
            launch.wires_leaf_size,
            launch.zs_partial_products_leaf_size
        ),
        (4, 5, 6)
    );
    assert_eq!(launch.config, prover_config(&common));
    assert_eq!(launch.gates, zeknox_quotient_gate_infos(&common));
    assert_eq!(launch.num_gates, 3);
    assert_eq!(launch.k_is, vec![1, 7, 49]);
    assert_eq!(launch.public_inputs_hash, [1, 2, 3, 4]);
    assert_eq!(launch.betas, vec![1, 2]);
    assert_eq!(launch.gammas, vec![3, 4]);
    assert_eq!(launch.alphas, vec![5, 6]);
    assert_eq!(launch.out_elems, 8);
    let stage = launch.computed(4).ok().unwrap();
    assert_eq!(stage.out_elems, 8);
    let polys = stage.collected(&elements(&[1, 2, 3, 4, 5, 6, 7, 8]));
    let coeffs: Vec<Vec<u64>> = polys.iter().map(|p| numbers(&p.coeffs)).collect();
    assert_eq!(coeffs, vec![vec![1, 2, 3, 4], vec![5, 6, 7, 8]]);
}

/// The error with which the first stage refuses the given numbers of challenges.
fn refused(common: &CommonCircuitData<F>, counts: [usize; 3]) -> Option<GpuQuotientError> {
    let tables = tables(batch(4, 2));
    let (wires, zs) = (batch(5, 2), batch(6, 2));
    let challenges = counts.map(|n| vec![GoldilocksField(1); n]);
    compute_quotient_polys_gpu_gl64(
        common,
        &tables,
        &elements(&[1, 2, 3, 4]),
        &wires,
        &zs,
        &challenges[0],
        &challenges[1],
        &challenges[2],
    )
    .err()
}

#[test]
fn inputs_that_do_not_fit_are_refused() {
    let mut common = common();
    assert_eq!(refused(&common, [2, 2, 2]), None);
    for counts in [[1, 2, 2], [2, 3, 2], [2, 2, 0]] {
        assert_eq!(
            refused(&common, counts),
            Some(GpuQuotientError::ChallengeCount)
        );
    }
    common.quotient_degree_factor = 4;
    assert_eq!(refused(&common, [2, 2, 2]), None);
    common.quotient_degree_factor = 5;
    assert_eq!(
        refused(&common, [2, 2, 2]),
        Some(GpuQuotientError::DegreeExceedsRate)
    );
    assert_eq!(
        refused(&common, [2, 2, 1]),
        Some(GpuQuotientError::ChallengeCount)
    );
}

#[test]
fn sizes_that_do_not_fit_are_noticed() {
    let mut common = common();
    common.degree_bits = usize::BITS as usize - 1;
    assert!(!common.has_device_sizes());
    common.degree_bits = usize::BITS as usize - 3;
    assert!(common.has_device_sizes());
    common.config.num_challenges = 4;
    assert!(!common.has_device_sizes());
    common.quotient_degree_factor = 100;
    assert!(common.has_device_sizes());
    common.degree_bits = usize::MAX;
    assert!(!common.has_device_sizes());
}

/// What the stages after the first one report.
fn later_error(
    constants_rate: usize,
    zs_rate: usize,
    num_gpus: Option<&str>,
    hash: &[u64],
    gates: Vec<GateRef>,
    reported: usize,
) -> Option<GpuQuotientError> {
    let mut common = common();
    common.gates = gates;
    let tables = tables(batch(4, constants_rate));
    let (wires, zs) = (batch(5, 2), batch(6, zs_rate));
    let hash = elements(hash);
    let challenges = elements(&[1, 2]);
    let stage = compute_quotient_polys_gpu_gl64(
        &common,
        &tables,
        &hash,
        &wires,
        &zs,
        &challenges,
        &challenges,
        &challenges,
    )
    .ok()
    .unwrap();
    let mut next = 0;
    let stage = match stage.select_gpu(num_gpus, &mut next) {
        Ok(stage) => stage,
        Err(e) => {
            assert_eq!(next, 0);
            return Some(e);
        }
    };
    let stage = match stage.tables_prepared() {
        Ok(stage) => stage,
        Err(e) => return Some(e),
    };
    let launch = match stage.uploaded() {
        Ok(launch) => launch,
        Err(e) => return Some(e),
    };
    launch.computed(reported).err()
}

#[test]
fn errors_of_the_later_stages() {
    let hash = [1, 2, 3, 4];
    let known = || vec![gate("NoopGate", 0)];
    assert_eq!(later_error(2, 2, Some("4"), &hash, known(), 4), None);
    assert_eq!(later_error(2, 2, Some("4"), &hash, vec![], 4), None);
    assert_eq!(
        later_error(2, 2, None, &hash, known(), 4),
        Some(GpuQuotientError::NumGpusUnset)
    );
    assert_eq!(
        later_error(2, 2, Some("two"), &hash, known(), 4),
        Some(GpuQuotientError::NumGpusInvalid)
    );
    assert_eq!(
        later_error(2, 2, Some("0"), &hash, known(), 4),
        Some(GpuQuotientError::NumGpusZero)
    );
    assert_eq!(
        later_error(3, 3, Some("1"), &hash, known(), 4),
        Some(GpuQuotientError::ConstantsSigmasDomain)
    );
    assert_eq!(
        later_error(2, 3, Some("1"), &hash, known(), 4),
        Some(GpuQuotientError::ZsDomain)
    );
    let unknown = || vec![gate("NoopGate", 0), gate("LookupGate", 0)];
    assert_eq!(
        later_error(2, 2, Some("1"), &[1, 2], unknown(), 4),
        Some(GpuQuotientError::UnsupportedGate(1))
    );
    assert_eq!(
        later_error(2, 2, Some("1"), &[1, 2], known(), 4),
        Some(GpuQuotientError::HashLimbs(2))
    );
    assert_eq!(
        later_error(2, 2, Some("1"), &hash, known(), 8),
        Some(GpuQuotientError::QuotientSize {
            got: 8,
            expected: 4
        })
    );
}
