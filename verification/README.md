# plonky2_prover

The proving side of a PLONK-style proof system over the Goldilocks field, verified with Verus.

- `src/` is the library. Everything in it is proved: the field arithmetic, the interpolation on
  cosets, the permutation argument, the quotient polynomials, and the order of the rounds.
- `app/` drives the rounds against a commitment scheme and a transcript, which the caller supplies
  through a trait, and the quotient computation on a CUDA device. With the feature `cuda` the device
  is reached through `zeknox`, of which a version with the quotient kernel is needed.
- `tests/` holds tests on concrete values.

A proof is made in rounds (`src/prover.rs`). Each round is a type; it says what is to be committed
to and what the transcript absorbs, and it takes the commitment or the challenges that it asked
for. A round consumes the one before it.

What the proofs show, besides that no operation overflows or is out of bounds:

- `Z` telescopes, and it returns to one if the copy constraints are satisfied
  (`src/permutation.rs`, `src/copy_constraints.rs`).
- The constraints are evaluated on the committed polynomials at the points of the quotient's domain
  and at the points that stand for the next row (`src/committed_values.rs`).
- The quotient polynomial has the expected degree exactly if the vanishing polynomial divides the
  combined constraints, and its pieces recombine to it (`src/quotient.rs`).
- The quotient polynomials depend on the committed polynomials and not on the rate at which they
  are committed to (`src/agreement.rs`), and without zero knowledge two runs from the same witness
  agree (`src/runs.rs`).
- Every challenge is drawn after what it has to depend on was absorbed, and no opening point lies
  in the subgroup of the rows (`src/prover.rs`).
