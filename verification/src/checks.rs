//! Tests of the conditions that the prover relies on.
use vstd::arithmetic::power2::pow2;
use vstd::prelude::*;
use crate::circuit_data::{CommonCircuitData, ProverOnlyCircuitData};
use crate::field::Field;
use crate::gpu::device_sizes_fit;
use crate::oracle::PolynomialBatch;
use crate::prover::{is_circuit_batch, tables_fit, witness_fits};
use crate::util::{
    ceil_div_usize, is_log2_ceil, lemma_log2_unique, lemma_pow2_fits, lemma_pow2_monotone,
    log2_ceil, power_of_two,
};
use crate::witness::{PartitionWitness, Target};

verus! {

/// Returns `2^k`, if it fits into a machine word.
pub fn checked_power_of_two(k: usize) -> (r: Option<usize>)
    ensures
        r is Some <==> pow2(k as nat) <= usize::MAX,
        r is Some ==> r->0 == pow2(k as nat),
{
    if k < usize::BITS as usize {
        proof {
            vstd::arithmetic::power2::lemma2_to64();
            vstd::arithmetic::power2::lemma2_to64_rest();
            lemma_pow2_monotone(k as nat, (usize::BITS - 1) as nat);
        }
        Some(power_of_two(k))
    } else {
        proof {
            if pow2(k as nat) <= usize::MAX {
                lemma_pow2_fits(k as nat);
            }
        }
        None
    }
}

impl<F: Field> CommonCircuitData<F> {
    /// Tells whether the dimensions of the circuit fit each other, the field and the machine.
    pub fn is_well_formed(&self) -> (r: bool)
        ensures
            r == self.wf(),
    {
        let config = &self.config;
        let factor: usize = self.quotient_degree_factor;
        if config.num_routed_wires > config.num_wires || self.k_is.len()
            < config.num_routed_wires || factor == 0 || factor >= config.num_routed_wires {
            return false;
        }
        let chunks: usize = ceil_div_usize(config.num_routed_wires, factor);
        if chunks == 0 || self.num_partial_products != chunks - 1 {
            return false;
        }
        let rate_bits: usize = config.fri_config.rate_bits;
        let adicity: usize = F::two_adicity();
        if rate_bits > adicity || self.degree_bits > adicity - rate_bits {
            return false;
        }
        if checked_power_of_two(self.degree_bits + rate_bits).is_none() {
            return false;
        }
        proof {
            lemma_pow2_monotone(rate_bits as nat, (self.degree_bits + rate_bits) as nat);
        }
        if factor > power_of_two(rate_bits) {
            return false;
        }
        if self.num_constants > usize::MAX - config.num_routed_wires {
            return false;
        }
        config.num_challenges.checked_mul(chunks).is_some()
    }

    /// Tells whether the sizes that a device works with fit into machine words.
    pub fn has_device_sizes(&self) -> (r: bool)
        ensures
            r == device_sizes_fit(*self),
    {
        let rate_bits: usize = self.config.fri_config.rate_bits;
        if self.degree_bits > usize::MAX - rate_bits {
            return false;
        }
        let bits: usize = log2_ceil(self.quotient_degree_factor);
        if bits > rate_bits {
            assert(device_sizes_fit(*self)) by {
                assert forall|b: nat|
                    is_log2_ceil(self.quotient_degree_factor as nat, b) implies b == bits by {
                    lemma_log2_unique(self.quotient_degree_factor as nat, b, bits as nat);
                }
            }
            return true;
        }
        let ghost n = self.config.num_challenges;
        let ghost p = pow2((self.degree_bits + bits) as nat);
        let r: bool = match checked_power_of_two(self.degree_bits + bits) {
            Some(size) => self.config.num_challenges.checked_mul(size).is_some(),
            None => false,
        };
        proof {
            assert(r <==> p <= usize::MAX && n * p <= usize::MAX);
            if r {
                assert forall|b: nat|
                    is_log2_ceil(self.quotient_degree_factor as nat, b) && b
                        <= rate_bits implies #[trigger] pow2((self.degree_bits + b) as nat)
                    <= usize::MAX && n * pow2((self.degree_bits + b) as nat) <= usize::MAX by {
                    lemma_log2_unique(self.quotient_degree_factor as nat, b, bits as nat);
                }
            }
        }
        r
    }
}

impl<F: Copy, C> PolynomialBatch<F, C> {
    /// There is one row for each point of the domain, and all rows are as long as the first one.
    pub open spec fn has_equal_rows(self) -> bool {
        &&& self.leaves@.len() == pow2((self.degree_log + self.rate_bits) as nat)
        &&& self.salt_size <= self.leaves@[0].len()
        &&& forall|i: int|
            0 <= i < self.leaves@.len() ==> (#[trigger] self.leaves@[i]).len()
                == self.leaves@[0].len()
    }

    /// Tells whether there is one row for each point of the domain, all of the same length.
    pub fn has_rows(&self) -> (r: bool)
        ensures
            r <==> exists|width: nat| #[trigger] self.wf(width),
            r == self.has_equal_rows(),
    {
        let n: usize = self.leaves.len();
        if self.degree_log > usize::MAX - self.rate_bits {
            proof {
                if pow2((self.degree_log + self.rate_bits) as nat) <= usize::MAX {
                    lemma_pow2_fits((self.degree_log + self.rate_bits) as nat);
                }
            }
            return false;
        }
        match checked_power_of_two(self.degree_log + self.rate_bits) {
            Some(size) => {
                if size != n {
                    return false;
                }
            },
            None => {
                return false;
            },
        }
        proof {
            vstd::arithmetic::power2::lemma_pow2_pos((self.degree_log + self.rate_bits) as nat);
        }
        let length: usize = self.leaves[0].len();
        if length < self.salt_size {
            assert forall|width: nat| !#[trigger] self.wf(width) by {
                assert(self.leaves@[0].len() < width + self.salt_size);
            }
            return false;
        }
        for i in 0..n
            invariant
                n == self.leaves@.len(),
                0 < n,
                length == self.leaves@[0].len(),
                forall|k: int| 0 <= k < i ==> (#[trigger] self.leaves@[k]).len() == length,
        {
            if self.leaves[i].len() != length {
                assert forall|width: nat| !#[trigger] self.wf(width) by {
                    assert(self.leaves@[i as int].len() != self.leaves@[0].len());
                }
                return false;
            }
        }
        assert(self.wf((length - self.salt_size) as nat));
        true
    }
}

/// Tells whether a batch was committed to on the circuit's domain and holds `width` polynomials.
pub fn batch_matches<F: Field, C>(
    common_data: &CommonCircuitData<F>,
    batch: &PolynomialBatch<F, C>,
    width: usize,
) -> (r: bool)
    ensures
        r == is_circuit_batch(*common_data, *batch, width as nat),
{
    if batch.degree_log != common_data.degree_bits || batch.rate_bits
        != common_data.config.fri_config.rate_bits {
        return false;
    }
    if !batch.has_rows() {
        return false;
    }
    proof {
        vstd::arithmetic::power2::lemma_pow2_pos((batch.degree_log + batch.rate_bits) as nat);
    }
    let length: usize = batch.leaves[0].len();
    width <= length && length - width == batch.salt_size
}

/// Tells whether the prover's tables have the dimensions of the circuit.
pub fn tables_match<F: Field, C, H>(
    prover_data: &ProverOnlyCircuitData<F, C, H>,
    common_data: &CommonCircuitData<F>,
) -> (r: bool)
    ensures
        r == tables_fit(*prover_data, *common_data),
{
    if !common_data.is_well_formed() {
        return false;
    }
    proof {
        lemma_pow2_monotone(
            common_data.degree_bits as nat,
            (common_data.degree_bits + common_data.config.fri_config.rate_bits) as nat,
        );
    }
    let degree: usize = common_data.degree();
    let n: usize = prover_data.sigmas.len();
    if prover_data.subgroup.len() != degree || n != degree {
        return false;
    }
    for i in 0..n
        invariant
            n == prover_data.sigmas@.len(),
            forall|k: int|
                0 <= k < i ==> (#[trigger] prover_data.sigmas@[k]).len()
                    == common_data.config.num_routed_wires,
    {
        if prover_data.sigmas[i].len() != common_data.config.num_routed_wires {
            return false;
        }
    }
    batch_matches(
        common_data,
        &prover_data.constants_sigmas_commitment,
        common_data.num_constants + common_data.config.num_routed_wires,
    )
}

impl<F: Field> PartitionWitness<F> {
    /// Tells whether all wires have places, and all places have representatives.
    pub fn is_well_formed(&self) -> (r: bool)
        ensures
            r == self.wf(),
    {
        let n: usize = self.representative_map.len();
        match self.degree.checked_mul(self.num_wires) {
            Some(wires) => {
                if wires > n {
                    return false;
                }
            },
            None => {
                return false;
            },
        }
        for i in 0..n
            invariant
                n == self.representative_map@.len(),
                forall|k: int|
                    0 <= k < i ==> #[trigger] self.representative_map@[k] < self.values@.len(),
        {
            if self.representative_map[i] >= self.values.len() {
                return false;
            }
        }
        true
    }

    /// Tells whether the value at the place `t` is known.
    pub fn knows_target(&self, t: Target) -> (r: bool)
        requires
            self.wf(),
        ensures
            r == (self.has_target(t) && self.lookup(t) is Some),
    {
        let places: usize = self.representative_map.len();
        proof {
            assert(0 <= self.degree * self.num_wires) by (nonlinear_arith);
        }
        let inside: bool = match t {
            Target::Wire { row, column } => {
                proof {
                    if row < self.degree {
                        assert(0 <= row * self.num_wires && row * self.num_wires + self.num_wires
                            <= self.degree * self.num_wires) by (nonlinear_arith)
                            requires
                                row + 1 <= self.degree,
                        ;
                    }
                }
                row < self.degree && column < self.num_wires
            },
            Target::Virtual { index } => index < places - self.degree * self.num_wires,
        };
        inside && self.try_get_target(t).is_some()
    }
}

/// Tells whether a witness belongs to the circuit and knows the public inputs.
pub fn witness_matches<F: Field, C, H>(
    prover_data: &ProverOnlyCircuitData<F, C, H>,
    common_data: &CommonCircuitData<F>,
    w: &PartitionWitness<F>,
) -> (r: bool)
    requires
        common_data.wf(),
    ensures
        r == witness_fits(*prover_data, *common_data, *w),
{
    proof {
        lemma_pow2_monotone(
            common_data.degree_bits as nat,
            (common_data.degree_bits + common_data.config.fri_config.rate_bits) as nat,
        );
    }
    if !w.is_well_formed() || w.degree != common_data.degree() || w.num_wires
        != common_data.config.num_wires {
        return false;
    }
    let n: usize = prover_data.public_inputs.len();
    for i in 0..n
        invariant
            n == prover_data.public_inputs@.len(),
            w.wf(),
            forall|k: int|
                0 <= k < i ==> w.has_target(#[trigger] prover_data.public_inputs@[k]) && w.lookup(
                    prover_data.public_inputs@[k],
                ) is Some,
    {
        if !w.knows_target(prover_data.public_inputs[i]) {
            return false;
        }
    }
    true
}

} // verus!
