//! The description of a circuit, as far as the prover reads it.
use vstd::arithmetic::power2::{lemma_pow2_adds, lemma_pow2_pos, pow2};
use vstd::prelude::*;
use crate::field::Field;
use crate::oracle::PolynomialBatch;
use crate::util::{ceil_div, is_log2_ceil, lemma_chunk_bounds, lemma_pow2_monotone, power_of_two};
use crate::witness::Target;

verus! {

/// The parameters of the polynomial commitments.
#[derive(Clone, Copy, Debug)]
pub struct FriConfig {
    /// The binary logarithm of the factor by which evaluation domains are extended.
    pub rate_bits: usize,
    /// The height of the caps that serve as commitments.
    pub cap_height: usize,
}

/// The parameters of a circuit.
#[derive(Clone, Copy, Debug)]
pub struct CircuitConfig {
    pub num_wires: usize,
    pub num_routed_wires: usize,
    /// The number of times each random check is repeated.
    pub num_challenges: usize,
    /// Whether commitments hide the witness.
    pub zero_knowledge: bool,
    pub fri_config: FriConfig,
}

/// A gate of the circuit, by its textual identity.
pub struct GateRef {
    pub id: String,
    pub num_constraints: usize,
}

/// A half-open range of gate indices.
#[derive(Clone, Copy, Debug)]
pub struct GateRange {
    pub start: usize,
    pub end: usize,
}

/// How gates are assigned to selector polynomials.
pub struct SelectorsInfo {
    pub selector_indices: Vec<usize>,
    pub groups: Vec<GateRange>,
}

/// The part of the circuit's description that prover and verifier share.
pub struct CommonCircuitData<F> {
    pub config: CircuitConfig,
    /// The binary logarithm of the number of rows.
    pub degree_bits: usize,
    /// The bound on the degree of constraints, in units of the number of rows.
    pub quotient_degree_factor: usize,
    pub num_gate_constraints: usize,
    pub num_constants: usize,
    pub num_public_inputs: usize,
    /// The factors that tell the columns of the permutation argument apart.
    pub k_is: Vec<F>,
    /// The number of partial products beside the permutation polynomial itself.
    pub num_partial_products: usize,
    pub gates: Vec<GateRef>,
    pub selectors_info: SelectorsInfo,
}

/// The part of the circuit's description that only the prover needs.
pub struct ProverOnlyCircuitData<F, C, H> {
    /// The values of the permutation polynomials, row by row.
    pub sigmas: Vec<Vec<F>>,
    /// The points at which the rows are interpolated.
    pub subgroup: Vec<F>,
    /// The places that hold the public inputs.
    pub public_inputs: Vec<Target>,
    /// The commitment to constants and permutation polynomials.
    pub constants_sigmas_commitment: PolynomialBatch<F, C>,
    /// A digest of the circuit.
    pub circuit_digest: H,
}

impl SelectorsInfo {
    /// Returns the number of selector polynomials.
    pub fn num_selectors(&self) -> (r: usize)
        ensures
            r == self.groups@.len(),
    {
        self.groups.len()
    }
}

impl<F: Field> CommonCircuitData<F> {
    /// The number of chunks into which the routed wires of a row are split.
    pub open spec fn num_chunks(self) -> nat {
        ceil_div(self.config.num_routed_wires as nat, self.quotient_degree_factor as nat)
    }

    /// The logarithm of the factor by which the quotient's domain exceeds the rows.
    pub open spec fn has_quotient_bits(self, bits: nat) -> bool {
        is_log2_ceil(self.quotient_degree_factor as nat, bits)
    }

    /// The dimensions of the circuit fit each other, the field and the machine.
    pub open spec fn wf(self) -> bool {
        &&& self.config.num_routed_wires <= self.config.num_wires
        &&& self.config.num_routed_wires <= self.k_is@.len()
        &&& 0 < self.quotient_degree_factor < self.config.num_routed_wires
        &&& self.num_partial_products + 1 == self.num_chunks()
        &&& self.degree_bits + self.config.fri_config.rate_bits <= F::adicity()
        &&& pow2((self.degree_bits + self.config.fri_config.rate_bits) as nat) <= usize::MAX
        &&& self.quotient_degree_factor <= pow2(self.config.fri_config.rate_bits as nat)
        &&& self.num_constants + self.config.num_routed_wires <= usize::MAX
        &&& self.config.num_challenges * (self.num_partial_products + 1) <= usize::MAX
    }

    /// The number of rows.
    pub open spec fn degree_spec(self) -> nat {
        pow2(self.degree_bits as nat)
    }

    /// There are no more chunks than routed wires.
    pub proof fn lemma_num_chunks(self)
        requires
            0 < self.quotient_degree_factor,
        ensures
            self.num_chunks() <= self.config.num_routed_wires,
    {
        let n = self.config.num_routed_wires as nat;
        let size = self.quotient_degree_factor as nat;
        lemma_chunk_bounds(n, size, n);
        assert(n <= n * size) by (nonlinear_arith)
            requires
                1 <= size,
        ;
    }

    /// Returns the number of rows.
    pub fn degree(&self) -> (r: usize)
        requires
            pow2(self.degree_bits as nat) <= usize::MAX,
        ensures
            r == self.degree_spec(),
    {
        power_of_two(self.degree_bits)
    }

    /// Returns the number of coefficients of a quotient polynomial.
    pub fn quotient_degree(&self) -> (r: usize)
        requires
            self.wf(),
        ensures
            r == self.quotient_degree_factor * self.degree_spec(),
    {
        proof {
            let rate = self.config.fri_config.rate_bits as nat;
            lemma_pow2_adds(self.degree_bits as nat, rate);
            lemma_pow2_pos(self.degree_bits as nat);
            lemma_pow2_monotone(self.degree_bits as nat, self.degree_bits as nat + rate);
            assert(0 <= self.quotient_degree_factor * pow2(self.degree_bits as nat) <= pow2(
                self.degree_bits as nat,
            ) * pow2(rate)) by (nonlinear_arith)
                requires
                    0 <= self.quotient_degree_factor <= pow2(rate),
                    0 < pow2(self.degree_bits as nat),
            ;
        }
        self.quotient_degree_factor * self.degree()
    }
}

} // verus!
