//! The quotient polynomials on a device.
//!
//! The device computes in several steps, and each of them can fail outside of this library. What
//! happens between the steps stands here: each stage says what the device is to do next, and
//! takes what it reported.
use vstd::arithmetic::power2::{lemma_pow2_pos, pow2};
use vstd::prelude::*;
use crate::agreement::{evaluators_agree, lemma_quotients_determined};
use crate::circuit_data::{CommonCircuitData, ProverOnlyCircuitData};
use crate::field::Field;
use crate::gates::{
    GateInfo, characters, decimal, first_unknown_gate, gate_info_of, gates_known, is_first_unknown,
    leading_digits, parse_decimal, skip_digits, zeknox_quotient_gate_infos,
};
use crate::goldilocks::GoldilocksField;
use crate::oracle::PolynomialBatch;
use crate::polynomial::{PolynomialCoeffs, coefficients};
use crate::quotient::{
    QuotientBatch, compute_quotient_polys, evaluates, quotient_inputs, quotients_computed,
};
use crate::util::{is_log2_ceil, lemma_pow2_monotone, log2_ceil, power_of_two};
use crate::zero_poly_coset::ZeroPolyOnCoset;

verus! {

/// The number of field elements of a hash.
pub const NUM_HASH_OUT_ELTS: usize = 4;

/// Why the device could not compute the quotient polynomials.
#[derive(Clone, Copy, Debug, PartialEq, Eq, Structural)]
pub enum GpuQuotientError {
    /// The numbers of challenges differ from the circuit's.
    ChallengeCount,
    /// The constraints have a higher degree than the rate allows.
    DegreeExceedsRate,
    /// The number of devices is not given.
    NumGpusUnset,
    /// The number of devices is not a number.
    NumGpusInvalid,
    /// The number of devices is zero.
    NumGpusZero,
    /// The constants were committed to on another domain than the wires.
    ConstantsSigmasDomain,
    /// The permutation polynomials were committed to on another domain than the wires.
    ZsDomain,
    /// The device does not know gates like the one with this index.
    UnsupportedGate(usize),
    /// The hash of the public inputs has this number of elements.
    HashLimbs(usize),
    /// The device reported this size of the quotients, in place of the expected one.
    QuotientSize { got: usize, expected: usize },
}

/// The dimensions of a circuit, as the device takes them.
#[derive(Clone, Copy, Debug, PartialEq, Eq, Structural)]
pub struct ProverConfig {
    pub degree_bits: u32,
    pub num_wires: u32,
    pub num_routed_wires: u32,
    pub num_challenges: u32,
    pub num_partial_products: u32,
    pub quotient_degree_factor: u32,
    pub rate_bits: u32,
    pub cap_height: u32,
    pub num_gate_constraints: u32,
    pub num_constants: u32,
    pub num_public_inputs: u32,
}

/// The dimensions of the circuit, truncated to the device's integers.
pub open spec fn prover_config_of<F>(common_data: CommonCircuitData<F>) -> ProverConfig {
    let config = common_data.config;
    ProverConfig {
        degree_bits: common_data.degree_bits as u32,
        num_wires: config.num_wires as u32,
        num_routed_wires: config.num_routed_wires as u32,
        num_challenges: config.num_challenges as u32,
        num_partial_products: common_data.num_partial_products as u32,
        quotient_degree_factor: common_data.quotient_degree_factor as u32,
        rate_bits: config.fri_config.rate_bits as u32,
        cap_height: config.fri_config.cap_height as u32,
        num_gate_constraints: common_data.num_gate_constraints as u32,
        num_constants: common_data.num_constants as u32,
        num_public_inputs: common_data.num_public_inputs as u32,
    }
}

/// Returns the dimensions of the circuit, truncated to the device's integers.
pub fn prover_config<F>(common_data: &CommonCircuitData<F>) -> (r: ProverConfig)
    ensures
        r == prover_config_of(*common_data),
{
    let config = &common_data.config;
    ProverConfig {
        degree_bits: common_data.degree_bits as u32,
        num_wires: config.num_wires as u32,
        num_routed_wires: config.num_routed_wires as u32,
        num_challenges: config.num_challenges as u32,
        num_partial_products: common_data.num_partial_products as u32,
        quotient_degree_factor: common_data.quotient_degree_factor as u32,
        rate_bits: config.fri_config.rate_bits as u32,
        cap_height: config.fri_config.cap_height as u32,
        num_gate_constraints: common_data.num_gate_constraints as u32,
        num_constants: common_data.num_constants as u32,
        num_public_inputs: common_data.num_public_inputs as u32,
    }
}

/// The number that a text stands for: decimal digits after an optional plus sign.
pub open spec fn parsed_usize(s: Seq<char>) -> Option<nat> {
    let digits = if s.len() > 0 && s[0] == '+' {
        s.drop_first()
    } else {
        s
    };
    if digits.len() > 0 && leading_digits(digits) == digits && decimal(digits) <= usize::MAX {
        Some(decimal(digits))
    } else {
        None
    }
}

/// Returns the number that a text stands for.
pub fn parse_usize(text: &str) -> (r: Option<usize>)
    ensures
        r is Some <==> parsed_usize(text@) is Some,
        r is Some ==> r->0 == parsed_usize(text@)->0,
{
    let s: Vec<char> = characters(text);
    let start: usize = if s.len() > 0 && s[0] == '+' {
        1
    } else {
        0
    };
    let ghost digits = s@.skip(start as int);
    proof {
        if start == 1 {
            assert(s@.drop_first() =~= digits);
        } else {
            assert(s@ =~= digits);
        }
    }
    let stop: usize = skip_digits(&s, start);
    if stop != s.len() || stop == start {
        proof {
            if stop != s.len() {
                assert(leading_digits(digits).len() < digits.len());
            }
        }
        return None;
    }
    assert(s@.subrange(start as int, stop as int) =~= digits);
    match parse_decimal(&s, start, stop, usize::MAX as u64) {
        Some(value) => Some(value as usize),
        None => None,
    }
}

/// The device that is used next, after the one with the given number.
pub open spec fn gpu_after(id: int, num_gpus: int) -> int {
    if id + 1 >= num_gpus {
        0
    } else {
        id + 1
    }
}

/// The device that is used after `k` others.
pub open spec fn gpu_after_uses(id: int, num_gpus: int, k: nat) -> int
    decreases k,
{
    if k == 0 {
        id
    } else {
        gpu_after(gpu_after_uses(id, num_gpus, (k - 1) as nat), num_gpus)
    }
}

/// Devices are used in turn.
pub proof fn lemma_gpus_take_turns(id: int, num_gpus: int, k: nat)
    requires
        0 <= id < num_gpus,
    ensures
        gpu_after_uses(id, num_gpus, k) == (id + k) % num_gpus,
        0 <= gpu_after_uses(id, num_gpus, k) < num_gpus,
    decreases k,
{
    if k == 0 {
        vstd::arithmetic::div_mod::lemma_small_mod(id as nat, num_gpus as nat);
    } else {
        lemma_gpus_take_turns(id, num_gpus, (k - 1) as nat);
        let before = (id + k - 1) % num_gpus;
        vstd::arithmetic::div_mod::lemma_add_mod_noop(id + k - 1, 1, num_gpus);
        if num_gpus == 1 {
            assert((id + k) % num_gpus == 0);
        } else {
            vstd::arithmetic::div_mod::lemma_small_mod(1, num_gpus as nat);
            if before + 1 == num_gpus {
                vstd::arithmetic::div_mod::lemma_mod_self_0(num_gpus);
            } else {
                vstd::arithmetic::div_mod::lemma_small_mod(
                    (before + 1) as nat,
                    num_gpus as nat,
                );
            }
        }
    }
}

/// Takes the next device in turn.
pub fn take_gpu_id(next_gpu: &mut usize, num_gpus: usize) -> (id: usize)
    requires
        *old(next_gpu) < usize::MAX,
    ensures
        id == *old(next_gpu),
        *final(next_gpu) == gpu_after(id as int, num_gpus as int),
{
    let id: usize = *next_gpu;
    *next_gpu = id + 1;
    if *next_gpu >= num_gpus {
        *next_gpu = 0;
    }
    id
}

/// The canonical representatives of field elements.
pub open spec fn canonical(s: Seq<GoldilocksField>) -> Seq<u64> {
    Seq::new(s.len(), |i: int| s[i].residue() as u64)
}

/// Returns the canonical representatives of field elements.
pub fn to_canonical(s: &Vec<GoldilocksField>) -> (r: Vec<u64>)
    ensures
        r@ == canonical(s@),
{
    let n: usize = s.len();
    let mut r: Vec<u64> = Vec::new();
    for i in 0..n
        invariant
            n == s@.len(),
            r@ == canonical(s@.take(i as int)),
    {
        r.push(s[i].to_canonical_u64());
        assert(r@ =~= canonical(s@.take(i + 1)));
    }
    assert(s@.take(n as int) =~= s@);
    r
}

/// Returns the elements of a hash as the device takes them.
pub fn gpu_quotient_hash_limbs_gl64(hash: &Vec<GoldilocksField>) -> (r: Result<
    [u64; NUM_HASH_OUT_ELTS],
    GpuQuotientError,
>)
    ensures
        r is Ok <==> hash@.len() == NUM_HASH_OUT_ELTS,
        r matches Ok(limbs) ==> limbs@ == canonical(hash@),
        r matches Err(e) ==> e == GpuQuotientError::HashLimbs(hash@.len() as usize),
{
    if hash.len() != NUM_HASH_OUT_ELTS {
        return Err(GpuQuotientError::HashLimbs(hash.len()));
    }
    let limbs: [u64; 4] = [
        hash[0].to_canonical_u64(),
        hash[1].to_canonical_u64(),
        hash[2].to_canonical_u64(),
        hash[3].to_canonical_u64(),
    ];
    assert(limbs@ =~= canonical(hash@));
    Ok(limbs)
}

/// What the quotient polynomials are computed from.
pub struct GpuQuotientInputs<'a, C, H> {
    pub common_data: &'a CommonCircuitData<GoldilocksField>,
    pub prover_data: &'a ProverOnlyCircuitData<GoldilocksField, C, H>,
    /// The elements of the hash of the public inputs.
    pub public_inputs_hash: &'a Vec<GoldilocksField>,
    pub wires_commitment: &'a PolynomialBatch<GoldilocksField, C>,
    pub zs_partial_products_commitment: &'a PolynomialBatch<GoldilocksField, C>,
    pub betas: &'a Vec<GoldilocksField>,
    pub gammas: &'a Vec<GoldilocksField>,
    pub alphas: &'a Vec<GoldilocksField>,
}

/// The inputs fit the circuit; the device is to be woken up, and one is to be chosen.
pub struct GpuQuotient<'a, C, H> {
    pub inputs: GpuQuotientInputs<'a, C, H>,
    /// The number of coefficients of each quotient polynomial.
    pub lde_q_expected: usize,
    /// The binary logarithm of the size of the committed domains.
    pub lg_ntt_domain: usize,
}

/// A device is chosen; its tables are to be prepared.
pub struct GpuSelected<'a, C, H> {
    pub inputs: GpuQuotientInputs<'a, C, H>,
    pub lde_q_expected: usize,
    pub lg_ntt_domain: usize,
    pub gpu_id: usize,
    /// The factor by which domains are moved off the subgroup.
    pub coset_shift: u64,
}

/// The tables are prepared; the committed rows are to be copied to the device.
pub struct GpuUpload<'a, C, H> {
    pub inputs: GpuQuotientInputs<'a, C, H>,
    pub lde_q_expected: usize,
    pub gpu_id: usize,
    /// The rows of the constants, the wires and the permutation polynomials, one after the other.
    pub constants_sigmas_flat: Vec<GoldilocksField>,
    pub wires_flat: Vec<GoldilocksField>,
    pub zs_partial_products_flat: Vec<GoldilocksField>,
}

/// The rows are copied; the computation is to be started with these arguments.
pub struct GpuLaunch {
    pub gpu_id: usize,
    pub num_challenges: usize,
    pub lde_q_expected: usize,
    /// The lengths of the rows.
    pub constants_sigmas_leaf_size: u64,
    pub wires_leaf_size: u64,
    pub zs_partial_products_leaf_size: u64,
    pub config: ProverConfig,
    pub gates: Vec<GateInfo>,
    pub num_gates: u32,
    pub k_is: Vec<u64>,
    pub public_inputs_hash: [u64; NUM_HASH_OUT_ELTS],
    pub betas: Vec<u64>,
    pub gammas: Vec<u64>,
    pub alphas: Vec<u64>,
    /// The number of elements that the device returns.
    pub out_elems: usize,
}

/// The computation is done; its result is to be copied from the device.
pub struct GpuReadback {
    pub num_challenges: usize,
    pub lde_q_expected: usize,
    pub out_elems: usize,
}

/// The rows of a batch, one after the other.
pub open spec fn concatenated<T>(all: Seq<Vec<T>>) -> Seq<T>
    decreases all.len(),
{
    if all.len() == 0 {
        Seq::empty()
    } else {
        concatenated(all.drop_last()) + all.last()@
    }
}

/// The entries of concatenated rows of equal length.
pub proof fn lemma_concatenated<T>(all: Seq<Vec<T>>, width: nat)
    requires
        forall|i: int| 0 <= i < all.len() ==> (#[trigger] all[i]).len() == width,
    ensures
        concatenated(all).len() == all.len() * width,
        forall|i: int, j: int|
            0 <= i < all.len() && 0 <= j < width ==> concatenated(all)[i * width + j]
                == #[trigger] all[i]@[j],
    decreases all.len(),
{
    let n = all.len();
    if n > 0 {
        let m = (n - 1) as nat;
        let t = all.drop_last();
        assert forall|i: int| 0 <= i < t.len() implies (#[trigger] t[i]).len() == width by {
            assert(t[i] == all[i]);
        }
        lemma_concatenated(t, width);
        assert(n * width == m * width + width) by (nonlinear_arith)
            requires
                n == m + 1,
        ;
        assert forall|i: int, j: int| 0 <= i < n && 0 <= j < width implies concatenated(all)[i
            * width + j] == #[trigger] all[i]@[j] by {
            if i < m {
                assert(t[i]@[j] == all[i]@[j]);
                assert(0 <= i * width && i * width + width <= m * width) by (nonlinear_arith)
                    requires
                        0 <= i,
                        i + 1 <= m,
                ;
            }
        }
    } else {
        assert(n * width == 0) by (nonlinear_arith)
            requires
                n == 0,
        ;
    }
}

/// Returns the rows of a batch, one after the other.
pub fn leaves_flat<T: Copy>(leaves: &Vec<Vec<T>>) -> (r: Vec<T>)
    ensures
        r@ == concatenated(leaves@),
{
    let n: usize = leaves.len();
    let mut r: Vec<T> = Vec::new();
    for i in 0..n
        invariant
            n == leaves@.len(),
            r@ == concatenated(leaves@.take(i as int)),
    {
        let ghost before = r@;
        let m: usize = leaves[i].len();
        for j in 0..m
            invariant
                n == leaves@.len(),
                i < n,
                m == leaves@[i as int].len(),
                r@ == before + leaves@[i as int]@.take(j as int),
        {
            r.push(leaves[i][j]);
            assert(r@ =~= before + leaves@[i as int]@.take(j + 1));
        }
        proof {
            let t = leaves@.take(i + 1);
            assert(t.drop_last() =~= leaves@.take(i as int));
            assert(leaves@[i as int]@.take(m as int) =~= leaves@[i as int]@);
        }
    }
    assert(leaves@.take(n as int) =~= leaves@);
    r
}

/// The sizes that the device works with fit into machine words.
pub open spec fn device_sizes_fit<F>(common_data: CommonCircuitData<F>) -> bool {
    &&& common_data.degree_bits + common_data.config.fri_config.rate_bits <= usize::MAX
    &&& forall|bits: nat|
        is_log2_ceil(common_data.quotient_degree_factor as nat, bits) && bits
            <= common_data.config.fri_config.rate_bits ==> #[trigger] pow2(
            (common_data.degree_bits + bits) as nat,
        ) <= usize::MAX && common_data.config.num_challenges * pow2(
            (common_data.degree_bits + bits) as nat,
        ) <= usize::MAX
}

/// The constraints have no higher degree than the rate allows.
pub open spec fn degree_within_rate<F>(common_data: CommonCircuitData<F>) -> bool {
    common_data.quotient_degree_factor <= pow2(common_data.config.fri_config.rate_bits as nat)
}

/// The numbers of challenges are the circuit's.
pub open spec fn challenges_counted<F>(
    common_data: CommonCircuitData<F>,
    betas: Seq<F>,
    gammas: Seq<F>,
    alphas: Seq<F>,
) -> bool {
    &&& betas.len() == common_data.config.num_challenges
    &&& gammas.len() == common_data.config.num_challenges
    &&& alphas.len() == common_data.config.num_challenges
}

impl<'a, C, H> GpuQuotientInputs<'a, C, H> {
    /// The size is that of the quotient's domain, and what the device returns fits into memory.
    pub open spec fn is_size(self, lde_q_expected: usize) -> bool {
        &&& exists|bits: nat|
            is_log2_ceil(self.common_data.quotient_degree_factor as nat, bits) && lde_q_expected
                == #[trigger] pow2((self.common_data.degree_bits + bits) as nat)
        &&& self.common_data.config.num_challenges * lde_q_expected <= usize::MAX
    }

    /// Each commitment holds rows of equal length, at least one.
    pub open spec fn has_rows(self) -> bool {
        &&& rows_agree(self.prover_data.constants_sigmas_commitment)
        &&& rows_agree(*self.wires_commitment)
        &&& rows_agree(*self.zs_partial_products_commitment)
    }

    /// The constants were committed to on the domain of the wires.
    pub open spec fn constants_share_domain(self) -> bool {
        let constants = self.prover_data.constants_sigmas_commitment;
        &&& constants.degree_log == self.wires_commitment.degree_log
        &&& constants.rate_bits == self.wires_commitment.rate_bits
    }

    /// The permutation polynomials were committed to on the domain of the wires.
    pub open spec fn zs_share_domain(self) -> bool {
        let zs = *self.zs_partial_products_commitment;
        &&& self.wires_commitment.degree_log == zs.degree_log
        &&& self.wires_commitment.rate_bits == zs.rate_bits
    }
}

/// The batch holds at least one row, and all rows have the same length.
pub open spec fn rows_agree<C>(batch: PolynomialBatch<GoldilocksField, C>) -> bool {
    exists|width: nat| #[trigger] batch.wf(width)
}

/// Starts the computation of the quotient polynomials on a device.
pub fn compute_quotient_polys_gpu_gl64<'a, C, H>(
    common_data: &'a CommonCircuitData<GoldilocksField>,
    prover_data: &'a ProverOnlyCircuitData<GoldilocksField, C, H>,
    public_inputs_hash: &'a Vec<GoldilocksField>,
    wires_commitment: &'a PolynomialBatch<GoldilocksField, C>,
    zs_partial_products_commitment: &'a PolynomialBatch<GoldilocksField, C>,
    betas: &'a Vec<GoldilocksField>,
    gammas: &'a Vec<GoldilocksField>,
    alphas: &'a Vec<GoldilocksField>,
) -> (r: Result<GpuQuotient<'a, C, H>, GpuQuotientError>)
    requires
        challenges_counted(*common_data, betas@, gammas@, alphas@) ==> device_sizes_fit(
            *common_data,
        ),
    ensures
        r is Ok <==> challenges_counted(*common_data, betas@, gammas@, alphas@)
            && degree_within_rate(*common_data),
        r matches Err(e) ==> e == if challenges_counted(
            *common_data,
            betas@,
            gammas@,
            alphas@,
        ) {
            GpuQuotientError::DegreeExceedsRate
        } else {
            GpuQuotientError::ChallengeCount
        },
        r matches Ok(stage) ==> {
            &&& stage.inputs == (GpuQuotientInputs {
                common_data,
                prover_data,
                public_inputs_hash,
                wires_commitment,
                zs_partial_products_commitment,
                betas,
                gammas,
                alphas,
            })
            &&& stage.inputs.is_size(stage.lde_q_expected)
            &&& stage.lg_ntt_domain == common_data.degree_bits
                + common_data.config.fri_config.rate_bits
        },
{
    let num_challenges: usize = common_data.config.num_challenges;
    if betas.len() != num_challenges || gammas.len() != num_challenges || alphas.len()
        != num_challenges {
        return Err(GpuQuotientError::ChallengeCount);
    }
    let quotient_degree_bits: usize = log2_ceil(common_data.quotient_degree_factor);
    let rate_bits: usize = common_data.config.fri_config.rate_bits;
    if quotient_degree_bits > rate_bits {
        return Err(GpuQuotientError::DegreeExceedsRate);
    }
    proof {
        lemma_pow2_monotone(quotient_degree_bits as nat, rate_bits as nat);
        assert(pow2((common_data.degree_bits + quotient_degree_bits) as nat) <= usize::MAX);
    }
    let lde_q_expected: usize = power_of_two(common_data.degree_bits + quotient_degree_bits);
    let lg_ntt_domain: usize = common_data.degree_bits + rate_bits;
    let inputs: GpuQuotientInputs<'a, C, H> = GpuQuotientInputs {
        common_data,
        prover_data,
        public_inputs_hash,
        wires_commitment,
        zs_partial_products_commitment,
        betas,
        gammas,
        alphas,
    };
    Ok(GpuQuotient { inputs, lde_q_expected, lg_ntt_domain })
}

impl<'a, C, H> GpuQuotient<'a, C, H> {
    /// Takes the configured number of devices and chooses the next one in turn.
    pub fn select_gpu(self, num_of_gpus: Option<&str>, next_gpu: &mut usize) -> (r: Result<
        GpuSelected<'a, C, H>,
        GpuQuotientError,
    >)
        requires
            *old(next_gpu) < usize::MAX,
        ensures
            r is Ok <==> num_of_gpus is Some && parsed_usize(num_of_gpus->0@) is Some
                && parsed_usize(num_of_gpus->0@)->0 > 0,
            r matches Err(e) ==> *final(next_gpu) == *old(next_gpu) && e == (
            if num_of_gpus is None {
                GpuQuotientError::NumGpusUnset
            } else if parsed_usize(num_of_gpus->0@) is None {
                GpuQuotientError::NumGpusInvalid
            } else {
                GpuQuotientError::NumGpusZero
            }),
            r matches Ok(stage) ==> {
                &&& stage.inputs == self.inputs
                &&& stage.lde_q_expected == self.lde_q_expected
                &&& stage.lg_ntt_domain == self.lg_ntt_domain
                &&& stage.gpu_id == *old(next_gpu)
                &&& *final(next_gpu) == gpu_after(
                    *old(next_gpu) as int,
                    parsed_usize(num_of_gpus->0@)->0 as int,
                )
                &&& stage.coset_shift == <GoldilocksField as Field>::shift().residue()
            },
    {
        let text: &str = match num_of_gpus {
            Some(text) => text,
            None => {
                return Err(GpuQuotientError::NumGpusUnset);
            },
        };
        let num_gpus: usize = match parse_usize(text) {
            Some(num_gpus) => num_gpus,
            None => {
                return Err(GpuQuotientError::NumGpusInvalid);
            },
        };
        if num_gpus == 0 {
            return Err(GpuQuotientError::NumGpusZero);
        }
        let gpu_id: usize = take_gpu_id(next_gpu, num_gpus);
        let shift: GoldilocksField = GoldilocksField::coset_shift();
        Ok(
            GpuSelected {
                inputs: self.inputs,
                lde_q_expected: self.lde_q_expected,
                lg_ntt_domain: self.lg_ntt_domain,
                gpu_id,
                coset_shift: shift.to_canonical_u64(),
            },
        )
    }
}

impl<'a, C, H> GpuSelected<'a, C, H> {
    /// Collects the committed rows, once the tables of the device are prepared.
    pub fn tables_prepared(self) -> (r: Result<GpuUpload<'a, C, H>, GpuQuotientError>)
        ensures
            r is Ok <==> self.inputs.constants_share_domain() && self.inputs.zs_share_domain(),
            r matches Err(e) ==> e == if self.inputs.constants_share_domain() {
                GpuQuotientError::ZsDomain
            } else {
                GpuQuotientError::ConstantsSigmasDomain
            },
            r matches Ok(stage) ==> {
                &&& stage.inputs == self.inputs
                &&& stage.lde_q_expected == self.lde_q_expected
                &&& stage.gpu_id == self.gpu_id
                &&& stage.constants_sigmas_flat@ == concatenated(
                    self.inputs.prover_data.constants_sigmas_commitment.leaves@,
                )
                &&& stage.wires_flat@ == concatenated(self.inputs.wires_commitment.leaves@)
                &&& stage.zs_partial_products_flat@ == concatenated(
                    self.inputs.zs_partial_products_commitment.leaves@,
                )
            },
    {
        let constants = &self.inputs.prover_data.constants_sigmas_commitment;
        let wires = self.inputs.wires_commitment;
        let zs = self.inputs.zs_partial_products_commitment;
        if constants.degree_log != wires.degree_log || constants.rate_bits != wires.rate_bits {
            return Err(GpuQuotientError::ConstantsSigmasDomain);
        }
        if wires.degree_log != zs.degree_log || wires.rate_bits != zs.rate_bits {
            return Err(GpuQuotientError::ZsDomain);
        }
        let constants_sigmas_flat: Vec<GoldilocksField> = leaves_flat(&constants.leaves);
        let wires_flat: Vec<GoldilocksField> = leaves_flat(&wires.leaves);
        let zs_partial_products_flat: Vec<GoldilocksField> = leaves_flat(&zs.leaves);
        Ok(
            GpuUpload {
                inputs: self.inputs,
                lde_q_expected: self.lde_q_expected,
                gpu_id: self.gpu_id,
                constants_sigmas_flat,
                wires_flat,
                zs_partial_products_flat,
            },
        )
    }
}

/// Returns the length of the rows of a batch.
fn leaf_size<C>(batch: &PolynomialBatch<GoldilocksField, C>) -> (r: u64)
    requires
        rows_agree(*batch),
    ensures
        forall|width: nat| #[trigger] batch.wf(width) ==> r == width + batch.salt_size,
{
    proof {
        lemma_pow2_pos((batch.degree_log + batch.rate_bits) as nat);
    }
    batch.leaves[0].len() as u64
}

impl<'a, C, H> GpuUpload<'a, C, H> {
    /// The arguments of the computation belong to the inputs.
    pub open spec fn launches(self, launch: GpuLaunch) -> bool {
        let inputs = self.inputs;
        let cd = *inputs.common_data;
        let constants = inputs.prover_data.constants_sigmas_commitment;
        let wires = *inputs.wires_commitment;
        let zs = *inputs.zs_partial_products_commitment;
        &&& launch.wf()
        &&& launch.gpu_id == self.gpu_id
        &&& launch.num_challenges == cd.config.num_challenges
        &&& launch.lde_q_expected == self.lde_q_expected
        &&& forall|width: nat| #[trigger]
            constants.wf(width) ==> launch.constants_sigmas_leaf_size == width
                + constants.salt_size
        &&& forall|width: nat| #[trigger]
            wires.wf(width) ==> launch.wires_leaf_size == width + wires.salt_size
        &&& forall|width: nat| #[trigger]
            zs.wf(width) ==> launch.zs_partial_products_leaf_size == width + zs.salt_size
        &&& launch.config == prover_config_of(cd)
        &&& launch.gates@ == Seq::new(cd.gates@.len(), |i: int| gate_info_of(cd, i))
        &&& launch.num_gates == cd.gates@.len() as u32
        &&& launch.k_is@ == canonical(cd.k_is@)
        &&& launch.public_inputs_hash@ == canonical(inputs.public_inputs_hash@)
        &&& launch.betas@ == canonical(inputs.betas@)
        &&& launch.gammas@ == canonical(inputs.gammas@)
        &&& launch.alphas@ == canonical(inputs.alphas@)
    }

    /// Lays out the arguments of the computation, once the rows are on the device.
    pub fn uploaded(&self) -> (r: Result<GpuLaunch, GpuQuotientError>)
        requires
            self.inputs.is_size(self.lde_q_expected),
            self.inputs.has_rows(),
        ensures
            r is Ok <==> gates_known(*self.inputs.common_data)
                && self.inputs.public_inputs_hash@.len() == NUM_HASH_OUT_ELTS,
            r matches Err(e) ==> if gates_known(*self.inputs.common_data) {
                e == GpuQuotientError::HashLimbs(self.inputs.public_inputs_hash@.len() as usize)
            } else {
                e matches GpuQuotientError::UnsupportedGate(k) && is_first_unknown(
                    *self.inputs.common_data,
                    k as int,
                )
            },
            r matches Ok(launch) ==> self.launches(launch),
    {
        let common_data: &CommonCircuitData<GoldilocksField> = self.inputs.common_data;
        let config: ProverConfig = prover_config(common_data);
        if let Some(k) = first_unknown_gate(common_data) {
            return Err(GpuQuotientError::UnsupportedGate(k));
        }
        let gates: Vec<GateInfo> = zeknox_quotient_gate_infos(common_data);
        let limbs: [u64; NUM_HASH_OUT_ELTS] = match gpu_quotient_hash_limbs_gl64(
            self.inputs.public_inputs_hash,
        ) {
            Ok(limbs) => limbs,
            Err(e) => {
                return Err(e);
            },
        };
        let num_challenges: usize = common_data.config.num_challenges;
        let num_gates: u32 = gates.len() as u32;
        let launch: GpuLaunch = GpuLaunch {
            gpu_id: self.gpu_id,
            num_challenges,
            lde_q_expected: self.lde_q_expected,
            constants_sigmas_leaf_size: leaf_size(
                &self.inputs.prover_data.constants_sigmas_commitment,
            ),
            wires_leaf_size: leaf_size(self.inputs.wires_commitment),
            zs_partial_products_leaf_size: leaf_size(self.inputs.zs_partial_products_commitment),
            config,
            gates,
            num_gates,
            k_is: to_canonical(&common_data.k_is),
            public_inputs_hash: limbs,
            betas: to_canonical(self.inputs.betas),
            gammas: to_canonical(self.inputs.gammas),
            alphas: to_canonical(self.inputs.alphas),
            out_elems: num_challenges * self.lde_q_expected,
        };
        Ok(launch)
    }
}

impl GpuLaunch {
    /// The device returns one polynomial for each challenge.
    pub open spec fn wf(self) -> bool {
        self.out_elems == self.num_challenges * self.lde_q_expected
    }

    /// Takes the number of coefficients that the device reported for each polynomial.
    pub fn computed(self, out_lde_q_size: usize) -> (r: Result<GpuReadback, GpuQuotientError>)
        requires
            self.wf(),
        ensures
            r is Ok <==> out_lde_q_size == self.lde_q_expected,
            r matches Err(e) ==> e == (GpuQuotientError::QuotientSize {
                got: out_lde_q_size,
                expected: self.lde_q_expected,
            }),
            r matches Ok(stage) ==> {
                &&& stage.wf()
                &&& stage.num_challenges == self.num_challenges
                &&& stage.lde_q_expected == self.lde_q_expected
                &&& stage.out_elems == self.out_elems
            },
    {
        if out_lde_q_size != self.lde_q_expected {
            return Err(
                GpuQuotientError::QuotientSize {
                    got: out_lde_q_size,
                    expected: self.lde_q_expected,
                },
            );
        }
        Ok(
            GpuReadback {
                num_challenges: self.num_challenges,
                lde_q_expected: self.lde_q_expected,
                out_elems: self.out_elems,
            },
        )
    }
}

impl GpuReadback {
    /// The device returns one polynomial for each challenge.
    pub open spec fn wf(self) -> bool {
        self.out_elems == self.num_challenges * self.lde_q_expected
    }

    /// Splits what the device returned into one polynomial for each challenge.
    pub fn collected(self, host_out: &Vec<GoldilocksField>) -> (r: Vec<
        PolynomialCoeffs<GoldilocksField>,
    >)
        requires
            self.wf(),
            host_out@.len() == self.out_elems,
        ensures
            r@.len() == self.num_challenges,
            forall|c: int|
                0 <= c < self.num_challenges ==> (#[trigger] r@[c]).coeffs@ == host_out@.subrange(
                    c * self.lde_q_expected,
                    (c + 1) * self.lde_q_expected,
                ),
    {
        let n: usize = self.num_challenges;
        let size: usize = self.lde_q_expected;
        let mut r: Vec<PolynomialCoeffs<GoldilocksField>> = Vec::new();
        for c in 0..n
            invariant
                n == self.num_challenges,
                size == self.lde_q_expected,
                host_out@.len() == n * size,
                n * size <= usize::MAX,
                r.len() == c,
                forall|d: int|
                    0 <= d < c ==> (#[trigger] r@[d]).coeffs@ == host_out@.subrange(
                        d * size,
                        (d + 1) * size,
                    ),
        {
            proof {
                assert(0 <= c * size && c * size + size <= n * size && (c + 1) * size == c * size
                    + size) by (nonlinear_arith)
                    requires
                        c + 1 <= n,
                ;
            }
            let start: usize = c * size;
            let mut coeffs: Vec<GoldilocksField> = Vec::new();
            for i in 0..size
                invariant
                    host_out@.len() == n * size,
                    start + size <= n * size,
                    n * size <= usize::MAX,
                    coeffs@ == host_out@.subrange(start as int, start + i),
            {
                coeffs.push(host_out[start + i]);
                assert(coeffs@ =~= host_out@.subrange(start as int, start + i + 1));
            }
            r.push(PolynomialCoeffs::new(coeffs));
        }
        r
    }
}

/// Returns the quotient polynomials, one for each challenge, just as [`compute_quotient_polys`]
/// does: where the values of the evaluator depend on the batch alone, the two return the same.
pub fn compute_quotient_polys_gpu<F: Field, C, H, I, E>(
    common_data: &CommonCircuitData<F>,
    prover_data: &ProverOnlyCircuitData<F, C, H>,
    public_inputs_hash: &I,
    wires_commitment: &PolynomialBatch<F, C>,
    zs_partial_products_commitment: &PolynomialBatch<F, C>,
    betas: &Vec<F>,
    gammas: &Vec<F>,
    alphas: &Vec<F>,
    evaluator: E,
) -> (r: Vec<PolynomialCoeffs<F>>) where
    E: Fn(&QuotientBatch<F>, &ZeroPolyOnCoset<F>, &I, &Vec<F>, &Vec<F>, &Vec<F>) -> Vec<Vec<F>>,

    requires
        quotient_inputs(
            *common_data,
            *prover_data,
            *wires_commitment,
            *zs_partial_products_commitment,
        ).wf(),
        evaluates(
            quotient_inputs(
                *common_data,
                *prover_data,
                *wires_commitment,
                *zs_partial_products_commitment,
            ),
            public_inputs_hash,
            betas,
            gammas,
            alphas,
            evaluator,
        ),
    ensures
        quotients_computed(
            quotient_inputs(
                *common_data,
                *prover_data,
                *wires_commitment,
                *zs_partial_products_commitment,
            ),
            public_inputs_hash,
            betas,
            gammas,
            alphas,
            evaluator,
            r@,
        ),
        evaluators_agree(
            public_inputs_hash,
            betas,
            gammas,
            alphas,
            evaluator,
            public_inputs_hash,
            betas,
            gammas,
            alphas,
            evaluator,
        ) ==> forall|polys: Seq<PolynomialCoeffs<F>>| #[trigger]
            quotients_computed(
                quotient_inputs(
                    *common_data,
                    *prover_data,
                    *wires_commitment,
                    *zs_partial_products_commitment,
                ),
                public_inputs_hash,
                betas,
                gammas,
                alphas,
                evaluator,
                polys,
            ) ==> coefficients(r@) == coefficients(polys),
{
    let ghost q = quotient_inputs(
        *common_data,
        *prover_data,
        *wires_commitment,
        *zs_partial_products_commitment,
    );
    let ghost e = evaluator;
    let r: Vec<PolynomialCoeffs<F>> = compute_quotient_polys(
        common_data,
        prover_data,
        public_inputs_hash,
        wires_commitment,
        zs_partial_products_commitment,
        betas,
        gammas,
        alphas,
        evaluator,
    );
    proof {
        if evaluators_agree(
            public_inputs_hash,
            betas,
            gammas,
            alphas,
            e,
            public_inputs_hash,
            betas,
            gammas,
            alphas,
            e,
        ) {
            assert forall|polys: Seq<PolynomialCoeffs<F>>| #[trigger]
                quotients_computed(
                    q,
                    public_inputs_hash,
                    betas,
                    gammas,
                    alphas,
                    e,
                    polys,
                ) implies coefficients(r@) == coefficients(polys) by {
                lemma_quotients_determined(
                    q,
                    public_inputs_hash,
                    betas,
                    gammas,
                    alphas,
                    e,
                    r@,
                    polys,
                );
            }
        }
    }
    r
}

} // verus!
