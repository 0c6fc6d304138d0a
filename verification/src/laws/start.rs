//! Laws of the start of a proof: the public inputs and the full witness.
use vstd::prelude::*;
use crate::circuit_data::{CommonCircuitData, ProverOnlyCircuitData};
use crate::field::Field;
use crate::polynomial::{PolynomialValues, values_of};
use crate::prover::{
    CommitRequest, WiresRound, prove_with_partition_witness, tables_fit, witness_fits,
};
use crate::util::rows;
use crate::witness::{MatrixWitness, PartitionWitness, Target};

verus! {

/// The value of a place is that of its representative: wires are numbered row by row, and the
/// places that belong to no wire come after them.
pub proof fn law_target<F: Field>(w: &PartitionWitness<F>, t: Target, r: Option<F>)
    requires
        w.wf(),
        w.has_target(t),
        call_ensures(PartitionWitness::<F>::try_get_target, (w, t), r),
    ensures
        t matches Target::Wire { row, column } ==> r == w.values@[w.representative_map@[row
            * w.num_wires + column] as int],
        t matches Target::Virtual { index } ==> r == w.values@[w.representative_map@[w.degree
            * w.num_wires + index] as int],
{
}

/// Two places with the same representative carry the same value.
pub proof fn law_copied_targets<F: Field>(
    w: &PartitionWitness<F>,
    s: Target,
    t: Target,
    i: int,
    j: int,
    r: Option<F>,
    q: Option<F>,
)
    requires
        w.wf(),
        w.has_target(s),
        w.has_target(t),
        s matches Target::Wire { row, column } ==> i == row * w.num_wires + column,
        s matches Target::Virtual { index } ==> i == w.degree * w.num_wires + index,
        t matches Target::Wire { row, column } ==> j == row * w.num_wires + column,
        t matches Target::Virtual { index } ==> j == w.degree * w.num_wires + index,
        w.representative_map@[i] == w.representative_map@[j],
        call_ensures(PartitionWitness::<F>::try_get_target, (w, s), r),
        call_ensures(PartitionWitness::<F>::try_get_target, (w, t), q),
    ensures
        r == q,
{
    law_target(w, s, r);
    law_target(w, t, q);
}

/// A wire of the full witness holds the value of its representative, whatever is stored at its
/// own place, and zero where the representative has none.
pub proof fn law_full_witness<F: Field>(
    w: &PartitionWitness<F>,
    r: MatrixWitness<F>,
    row: int,
    column: int,
)
    requires
        w.wf(),
        call_ensures(PartitionWitness::<F>::full_witness, (w,), r),
        0 <= row < w.degree,
        0 <= column < w.num_wires,
    ensures
        r.wire_values@.len() == w.num_wires,
        r.wire_values@[column].len() == w.degree,
        w.values@[w.representative_map@[row * w.num_wires + column] as int] matches Some(x)
            ==> r.wire_values@[column]@[row] == x,
        w.values@[w.representative_map@[row * w.num_wires + column] as int] is None
            ==> r.wire_values@[column]@[row] == F::zero(),
{
    assert(r.wire(row, column) == w.wire_or_zero(row, column));
    assert(r.wire_values@[column].len() == w.degree);
}

/// Wires that copy constraints make equal are equal in the full witness.
pub proof fn law_copied_wires<F: Field>(
    w: &PartitionWitness<F>,
    r: MatrixWitness<F>,
    row1: int,
    column1: int,
    row2: int,
    column2: int,
)
    requires
        w.wf(),
        call_ensures(PartitionWitness::<F>::full_witness, (w,), r),
        0 <= row1 < w.degree,
        0 <= column1 < w.num_wires,
        0 <= row2 < w.degree,
        0 <= column2 < w.num_wires,
        w.representative_map@[row1 * w.num_wires + column1] == w.representative_map@[row2
            * w.num_wires + column2],
    ensures
        r.wire_values@[column1]@[row1] == r.wire_values@[column2]@[row2],
{
    law_full_witness(w, r, row1, column1);
    law_full_witness(w, r, row2, column2);
}

/// The public inputs of a proof are the values of their places' representatives.
pub proof fn law_public_inputs<F: Field, C, H>(
    prover_data: &ProverOnlyCircuitData<F, C, H>,
    common_data: &CommonCircuitData<F>,
    w: PartitionWitness<F>,
    r: (WiresRound<F>, CommitRequest<PolynomialValues<F>>),
    i: int,
)
    requires
        tables_fit(*prover_data, *common_data),
        witness_fits(*prover_data, *common_data, w),
        call_ensures(prove_with_partition_witness::<F, C, H>, (prover_data, common_data, w), r),
        0 <= i < prover_data.public_inputs@.len(),
    ensures
        r.0.public_inputs@.len() == prover_data.public_inputs@.len(),
        prover_data.public_inputs@[i] matches Target::Wire { row, column }
            ==> w.values@[w.representative_map@[row * w.num_wires + column] as int] == Some(
            r.0.public_inputs@[i],
        ),
        prover_data.public_inputs@[i] matches Target::Virtual { index }
            ==> w.values@[w.representative_map@[w.degree * w.num_wires + index] as int] == Some(
            r.0.public_inputs@[i],
        ),
{
    assert(w.has_target(prover_data.public_inputs@[i]));
}

/// The polynomials of the wires take in each row the value of the wire's representative, and the
/// round keeps the same values.
pub proof fn law_wire_polynomials<F: Field, C, H>(
    prover_data: &ProverOnlyCircuitData<F, C, H>,
    common_data: &CommonCircuitData<F>,
    w: PartitionWitness<F>,
    r: (WiresRound<F>, CommitRequest<PolynomialValues<F>>),
    row: int,
    column: int,
)
    requires
        tables_fit(*prover_data, *common_data),
        witness_fits(*prover_data, *common_data, w),
        call_ensures(prove_with_partition_witness::<F, C, H>, (prover_data, common_data, w), r),
        0 <= row < w.degree,
        0 <= column < w.num_wires,
    ensures
        r.1.polys@.len() == w.num_wires,
        r.1.polys@[column].values@.len() == w.degree,
        w.values@[w.representative_map@[row * w.num_wires + column] as int] matches Some(x)
            ==> r.1.polys@[column].values@[row] == x,
        w.values@[w.representative_map@[row * w.num_wires + column] as int] is None
            ==> r.1.polys@[column].values@[row] == F::zero(),
        r.0.witness.wire_values@.len() == w.num_wires,
        r.0.witness.wire_values@[column]@ == r.1.polys@[column].values@,
{
    let witness = r.0.witness;
    assert(witness.wire(row, column) == w.wire_or_zero(row, column));
    assert(witness.wire_values@[column].len() == w.degree);
    assert(values_of(r.1.polys@).len() == rows(witness.wire_values@).len());
    assert(values_of(r.1.polys@)[column] == rows(witness.wire_values@)[column]);
}

/// The witness holds one list of values for each column.
pub proof fn law_get_wire<F: Field>(w: &MatrixWitness<F>, row: usize, column: usize, r: F)
    requires
        column < w.wire_values@.len(),
        row < w.wire_values@[column as int].len(),
        call_ensures(MatrixWitness::<F>::get_wire, (w, row, column), r),
    ensures
        r == w.wire_values@[column as int]@[row as int],
{
}

/// Values are read place by place, in the given order.
pub proof fn law_get_targets<F: Field>(
    w: &PartitionWitness<F>,
    targets: &Vec<Target>,
    r: Vec<F>,
    i: int,
    q: Option<F>,
)
    requires
        w.wf(),
        call_requires(PartitionWitness::<F>::get_targets, (w, targets)),
        call_ensures(PartitionWitness::<F>::get_targets, (w, targets), r),
        0 <= i < targets@.len(),
        w.has_target(targets@[i]),
        call_ensures(PartitionWitness::<F>::try_get_target, (w, targets@[i]), q),
        q is Some,
    ensures
        r@.len() == targets@.len(),
        q == Some(r@[i]),
{
}

} // verus!
