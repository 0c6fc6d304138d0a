//! Assignments of values to the wires of a circuit.
use vstd::prelude::*;
use crate::field::Field;

verus! {

/// A place in the circuit that carries a value.
#[derive(Clone, Copy, Debug)]
pub enum Target {
    /// A wire in the given row.
    Wire { row: usize, column: usize },
    /// A value that belongs to no wire.
    Virtual { index: usize },
}

/// A witness that holds one value for each class of places that copy constraints make equal.
pub struct PartitionWitness<F> {
    /// The value of each representative, as far as it is known.
    pub values: Vec<Option<F>>,
    /// The representative of the class of each place; wires come first, row by row.
    pub representative_map: Vec<usize>,
    pub num_wires: usize,
    pub degree: usize,
}

/// The values of all wires, by column and row.
pub struct MatrixWitness<F> {
    pub wire_values: Vec<Vec<F>>,
}

impl<F: Field> MatrixWitness<F> {
    /// The value of the wire in the given row and column.
    pub open spec fn wire(self, row: int, column: int) -> F {
        self.wire_values@[column]@[row]
    }

    /// There are at least `columns` columns, and these hold at least `degree` values each.
    pub open spec fn covers(self, degree: nat, columns: nat) -> bool {
        &&& columns <= self.wire_values@.len()
        &&& forall|j: int|
            0 <= j < columns ==> degree <= (#[trigger] self.wire_values@[j]).len()
    }

    /// There are just `columns` columns, of just `degree` values each.
    pub open spec fn is_table(self, degree: nat, columns: nat) -> bool {
        &&& columns == self.wire_values@.len()
        &&& forall|j: int| 0 <= j < columns ==> (#[trigger] self.wire_values@[j]).len() == degree
    }

    /// Returns the value of the wire in the given row and column.
    pub fn get_wire(&self, row: usize, column: usize) -> (r: F)
        requires
            column < self.wire_values@.len(),
            row < self.wire_values@[column as int].len(),
        ensures
            r == self.wire(row as int, column as int),
    {
        self.wire_values[column][row]
    }
}

impl<F: Field> PartitionWitness<F> {
    /// The number of the place `t`.
    pub open spec fn target_index(self, t: Target) -> int {
        match t {
            Target::Wire { row, column } => row * self.num_wires + column,
            Target::Virtual { index } => self.degree * self.num_wires + index,
        }
    }

    /// The place belongs to the circuit.
    pub open spec fn has_target(self, t: Target) -> bool {
        &&& t is Wire ==> t->row < self.degree && t->column < self.num_wires
        &&& 0 <= self.target_index(t) < self.representative_map@.len()
    }

    /// All wires have places, and all places have representatives.
    pub open spec fn wf(self) -> bool {
        &&& self.degree * self.num_wires <= self.representative_map@.len()
        &&& forall|i: int|
            0 <= i < self.representative_map@.len() ==> #[trigger] self.representative_map@[i]
                < self.values@.len()
    }

    /// The value at the place `t`, if it is known.
    pub open spec fn lookup(self, t: Target) -> Option<F> {
        self.values@[self.representative_map@[self.target_index(t)] as int]
    }

    /// The value of a wire in the full witness: zero where none is known.
    pub open spec fn wire_or_zero(self, row: int, column: int) -> F {
        match self.lookup(Target::Wire { row: row as usize, column: column as usize }) {
            Some(x) => x,
            None => F::zero(),
        }
    }

    /// Returns the value at the place `t`, if it is known.
    pub fn try_get_target(&self, t: Target) -> (r: Option<F>)
        requires
            self.wf(),
            self.has_target(t),
        ensures
            r == self.lookup(t),
    {
        let places: usize = self.representative_map.len();
        proof {
            assert(0 <= self.degree * self.num_wires <= places) by (nonlinear_arith)
                requires
                    self.degree * self.num_wires <= places,
            ;
        }
        let index: usize = match t {
            Target::Wire { row, column } => {
                proof {
                    assert(0 <= row * self.num_wires) by (nonlinear_arith);
                    assert(row * self.num_wires <= self.degree * self.num_wires)
                        by (nonlinear_arith)
                        requires
                            row <= self.degree,
                    ;
                }
                row * self.num_wires + column
            },
            Target::Virtual { index } => self.degree * self.num_wires + index,
        };
        self.values[self.representative_map[index]]
    }

    /// Returns the values at the given places, all of which must be known.
    pub fn get_targets(&self, targets: &Vec<Target>) -> (r: Vec<F>)
        requires
            self.wf(),
            forall|i: int|
                0 <= i < targets@.len() ==> self.has_target(#[trigger] targets@[i]) && self.lookup(
                    targets@[i],
                ) is Some,
        ensures
            r@ == Seq::new(targets@.len(), |i: int| self.lookup(targets@[i])->0),
    {
        let n: usize = targets.len();
        let mut r: Vec<F> = Vec::new();
        for i in 0..n
            invariant
                n == targets.len(),
                self.wf(),
                forall|k: int|
                    0 <= k < targets@.len() ==> self.has_target(#[trigger] targets@[k])
                        && self.lookup(targets@[k]) is Some,
                r.len() == i,
                forall|k: int| 0 <= k < i ==> r@[k] == self.lookup(#[trigger] targets@[k])->0,
        {
            let t: Target = targets[i];
            r.push(self.try_get_target(t).unwrap());
        }
        assert(r@ =~= Seq::new(targets@.len(), |i: int| self.lookup(targets@[i])->0));
        r
    }

    /// Returns the values of all wires, with zero for those that are not known.
    pub fn full_witness(&self) -> (r: MatrixWitness<F>)
        requires
            self.wf(),
        ensures
            r.is_table(self.degree as nat, self.num_wires as nat),
            forall|i: int, j: int|
                0 <= i < self.degree && 0 <= j < self.num_wires ==> #[trigger] r.wire(i, j)
                    == self.wire_or_zero(i, j),
    {
        let mut wire_values: Vec<Vec<F>> = Vec::new();
        for j in 0..self.num_wires
            invariant
                self.wf(),
                wire_values.len() == j,
                forall|k: int| 0 <= k < j ==> (#[trigger] wire_values@[k]).len() == self.degree,
                forall|i: int, k: int|
                    0 <= i < self.degree && 0 <= k < j ==> #[trigger] wire_values@[k]@[i]
                        == self.wire_or_zero(i, k),
        {
            let mut column: Vec<F> = Vec::new();
            for i in 0..self.degree
                invariant
                    self.wf(),
                    j < self.num_wires,
                    column.len() == i,
                    forall|k: int|
                        0 <= k < i ==> #[trigger] column@[k] == self.wire_or_zero(k, j as int),
            {
                proof {
                    assert(i * self.num_wires + self.num_wires <= self.degree * self.num_wires)
                        by (nonlinear_arith)
                        requires
                            i + 1 <= self.degree,
                    ;
                    assert(0 <= i * self.num_wires) by (nonlinear_arith);
                }
                match self.try_get_target(Target::Wire { row: i, column: j }) {
                    Some(x) => column.push(x),
                    None => column.push(F::zero_element()),
                }
            }
            wire_values.push(column);
        }
        MatrixWitness { wire_values }
    }
}

} // verus!
