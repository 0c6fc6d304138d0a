//! Laws of the tests: what the conditions say that the prover relies on.
use vstd::arithmetic::power2::pow2;
use vstd::prelude::*;
use crate::checks::{batch_matches, tables_match, witness_matches};
use crate::circuit_data::{CommonCircuitData, ProverOnlyCircuitData};
use crate::field::Field;
use crate::laws::quotients::exceeds_by;
use crate::oracle::PolynomialBatch;
use crate::util::{
    ceil_div, is_log2_ceil, lemma_chunk_bounds, lemma_log2_unique, lemma_pow2_monotone,
};
use crate::witness::{PartitionWitness, Target};

verus! {

/// The dimensions of a circuit fit each other: the routed wires are wires and have factors, one
/// chunk does not hold all of them, and the chunks of `quotient_degree_factor` wires are just as
/// many as the partial products and the permutation polynomial itself. They also fit the field and
/// the machine.
pub proof fn law_well_formed<F: Field>(common_data: &CommonCircuitData<F>, r: bool)
    requires
        call_ensures(CommonCircuitData::<F>::is_well_formed, (common_data,), r),
    ensures
        ({
            let config = common_data.config;
            let f = common_data.quotient_degree_factor;
            let np = common_data.num_partial_products;
            let k = common_data.degree_bits + config.fri_config.rate_bits;
            r <==> {
                &&& config.num_routed_wires <= config.num_wires
                &&& config.num_routed_wires <= common_data.k_is@.len()
                &&& 0 < f < config.num_routed_wires
                &&& np * f < config.num_routed_wires <= (np + 1) * f
                &&& k <= F::adicity()
                &&& pow2(k as nat) <= usize::MAX
                &&& f <= pow2(config.fri_config.rate_bits as nat)
                &&& common_data.num_constants + config.num_routed_wires <= usize::MAX
                &&& config.num_challenges * (np + 1) <= usize::MAX
            }
        }),
{
    let n = common_data.config.num_routed_wires as nat;
    let f = common_data.quotient_degree_factor as nat;
    let np = common_data.num_partial_products as nat;
    if 0 < f {
        let m = ceil_div(n, f);
        lemma_chunk_bounds(n, f, np);
        lemma_chunk_bounds(n, f, np + 1);
        lemma_chunk_bounds(n, f, m);
        if m > 0 {
            lemma_chunk_bounds(n, f, (m - 1) as nat);
        }
    }
}

/// The sizes that a device works with fit, unless the degree exceeds the rate and it does not come
/// to that.
pub proof fn law_device_sizes<F: Field>(common_data: &CommonCircuitData<F>, r: bool, bits: nat)
    requires
        call_ensures(CommonCircuitData::<F>::has_device_sizes, (common_data,), r),
        exceeds_by(*common_data, bits),
    ensures
        r <==> {
            &&& common_data.degree_bits + common_data.config.fri_config.rate_bits <= usize::MAX
            &&& bits <= common_data.config.fri_config.rate_bits ==> {
                &&& pow2(common_data.degree_bits as nat + bits) <= usize::MAX
                &&& common_data.config.num_challenges * pow2(common_data.degree_bits as nat + bits)
                    <= usize::MAX
            }
        },
{
    let f = common_data.quotient_degree_factor as nat;
    assert forall|j: nat| #![trigger pow2(j)] j < bits implies pow2(j) < f by {
        lemma_pow2_monotone(j, (bits - 1) as nat);
    }
    assert(is_log2_ceil(f, bits));
    assert forall|b: nat| is_log2_ceil(f, b) implies b == bits by {
        lemma_log2_unique(f, b, bits);
    }
}

/// A batch has one row for each point of its domain, and all rows have the same length.
pub proof fn law_has_rows<F: Copy, C>(batch: &PolynomialBatch<F, C>, r: bool)
    requires
        call_ensures(PolynomialBatch::<F, C>::has_rows, (batch,), r),
    ensures
        r <==> {
            &&& batch.leaves@.len() == pow2((batch.degree_log + batch.rate_bits) as nat)
            &&& batch.salt_size <= batch.leaves@[0].len()
            &&& forall|i: int|
                0 <= i < batch.leaves@.len() ==> (#[trigger] batch.leaves@[i]).len()
                    == batch.leaves@[0].len()
        },
{
}

/// A batch belongs to the circuit if it lies on the circuit's domain, and each row holds `width`
/// values before the blinding ones.
pub proof fn law_batch_matches<F: Field, C>(
    common_data: &CommonCircuitData<F>,
    batch: &PolynomialBatch<F, C>,
    width: usize,
    r: bool,
)
    requires
        call_ensures(batch_matches::<F, C>, (common_data, batch, width), r),
    ensures
        r <==> {
            &&& batch.degree_log == common_data.degree_bits
            &&& batch.rate_bits == common_data.config.fri_config.rate_bits
            &&& batch.leaves@.len() == pow2((batch.degree_log + batch.rate_bits) as nat)
            &&& forall|i: int|
                0 <= i < batch.leaves@.len() ==> (#[trigger] batch.leaves@[i]).len() == width
                    + batch.salt_size
        },
{
}

/// The tables belong to the circuit if it is well-formed, there is a point and a row of images for
/// each row, and the circuit's own commitment holds the constants and the images.
pub proof fn law_tables_match<F: Field, C, H>(
    prover_data: &ProverOnlyCircuitData<F, C, H>,
    common_data: &CommonCircuitData<F>,
    width: usize,
    r: bool,
    well_formed: bool,
    committed: bool,
)
    requires
        call_ensures(tables_match::<F, C, H>, (prover_data, common_data), r),
        call_ensures(CommonCircuitData::<F>::is_well_formed, (common_data,), well_formed),
        width == common_data.num_constants + common_data.config.num_routed_wires,
        call_ensures(
            batch_matches::<F, C>,
            (common_data, &prover_data.constants_sigmas_commitment, width),
            committed,
        ),
    ensures
        r <==> {
            &&& well_formed
            &&& committed
            &&& prover_data.subgroup@.len() == pow2(common_data.degree_bits as nat)
            &&& prover_data.sigmas@.len() == pow2(common_data.degree_bits as nat)
            &&& forall|i: int|
                0 <= i < prover_data.sigmas@.len() ==> (#[trigger] prover_data.sigmas@[i]).len()
                    == common_data.config.num_routed_wires
        },
{
}

/// All wires of a witness have places, and the representatives of all places have values.
pub proof fn law_witness_well_formed<F: Field>(w: &PartitionWitness<F>, r: bool)
    requires
        call_ensures(PartitionWitness::<F>::is_well_formed, (w,), r),
    ensures
        r <==> {
            &&& w.degree * w.num_wires <= w.representative_map@.len()
            &&& forall|i: int|
                0 <= i < w.representative_map@.len() ==> #[trigger] w.representative_map@[i]
                    < w.values@.len()
        },
{
}

/// A place is known if it belongs to the circuit and its representative has a value.
pub proof fn law_knows_target<F: Field>(w: &PartitionWitness<F>, t: Target, r: bool)
    requires
        w.wf(),
        call_ensures(PartitionWitness::<F>::knows_target, (w, t), r),
    ensures
        t matches Target::Wire { row, column } ==> (r <==> {
            &&& row < w.degree
            &&& column < w.num_wires
            &&& w.values@[w.representative_map@[row * w.num_wires + column] as int] is Some
        }),
        t matches Target::Virtual { index } ==> (r <==> {
            &&& w.degree * w.num_wires + index < w.representative_map@.len()
            &&& w.values@[w.representative_map@[w.degree * w.num_wires + index] as int] is Some
        }),
{
    assert(0 <= w.degree * w.num_wires) by (nonlinear_arith);
    if let Target::Wire { row, column } = t {
        if row < w.degree && column < w.num_wires {
            assert(0 <= row * w.num_wires && row * w.num_wires + w.num_wires <= w.degree
                * w.num_wires) by (nonlinear_arith)
                requires
                    row + 1 <= w.degree,
            ;
        }
    }
}

/// A witness belongs to the circuit if it is well-formed, has the circuit's rows and wires, and
/// knows every public input.
pub proof fn law_witness_matches<F: Field, C, H>(
    prover_data: &ProverOnlyCircuitData<F, C, H>,
    common_data: &CommonCircuitData<F>,
    w: &PartitionWitness<F>,
    r: bool,
    well_formed: bool,
    knows: spec_fn(int) -> bool,
)
    requires
        common_data.wf(),
        call_ensures(witness_matches::<F, C, H>, (prover_data, common_data, w), r),
        call_ensures(PartitionWitness::<F>::is_well_formed, (w,), well_formed),
        forall|i: int|
            0 <= i < prover_data.public_inputs@.len() ==> call_ensures(
                PartitionWitness::<F>::knows_target,
                (w, prover_data.public_inputs@[i]),
                #[trigger] knows(i),
            ),
    ensures
        r <==> {
            &&& well_formed
            &&& w.degree == pow2(common_data.degree_bits as nat)
            &&& w.num_wires == common_data.config.num_wires
            &&& forall|i: int| 0 <= i < prover_data.public_inputs@.len() ==> #[trigger] knows(i)
        },
{
    if r {
        assert forall|i: int| 0 <= i < prover_data.public_inputs@.len() implies #[trigger] knows(
            i,
        ) by {
            assert(w.has_target(prover_data.public_inputs@[i]));
        }
    }
    if forall|i: int| 0 <= i < prover_data.public_inputs@.len() ==> #[trigger] knows(i) {
        assert forall|i: int| 0 <= i < prover_data.public_inputs@.len() implies w.has_target(
            #[trigger] prover_data.public_inputs@[i],
        ) && w.lookup(prover_data.public_inputs@[i]) is Some by {
            assert(knows(i));
        }
    }
}

/// The number of rows, and the number of coefficients of a quotient.
pub proof fn law_degree<F: Field>(common_data: &CommonCircuitData<F>, r: usize, q: usize)
    requires
        common_data.wf(),
        pow2(common_data.degree_bits as nat) <= usize::MAX,
        call_ensures(CommonCircuitData::<F>::degree, (common_data,), r),
        call_ensures(CommonCircuitData::<F>::quotient_degree, (common_data,), q),
    ensures
        r == pow2(common_data.degree_bits as nat),
        q == common_data.quotient_degree_factor * r,
{
}

} // verus!
