//! The proving side of a PLONK-style proof system.
//!
//! A circuit is a table of wires whose rows satisfy constraints and whose routed wires satisfy
//! copy constraints. The prover commits to the columns of the table, to the polynomials of the
//! permutation argument, and to the quotient of the combined constraints by the polynomial that
//! vanishes on the rows; then it opens all of them at a random point.
//!
//! - [`ring`], [`field`]: the algebra, as traits with laws; [`prime`], [`goldilocks`] and
//!   [`extension`] implement them for the field of order `2^64 - 2^32 + 1` and its quadratic
//!   extension.
//! - [`polynomial`], [`interpolation`], [`zero_poly_coset`]: polynomials on two-power domains.
//! - [`witness`], [`oracle`], [`circuit_data`]: what the prover works on.
//! - [`partial_products`], [`permutation`], [`copy_constraints`]: the permutation argument.
//! - [`quotient`], [`committed_values`], [`agreement`]: the quotient of the combined constraints,
//!   and what it depends on.
//! - [`gates`], [`gpu`]: the same on a device.
//! - [`prover`]: the rounds; [`runs`]: whole runs; [`checks`]: tests of what they rely on.
//! - [`laws`]: what the operations are for, stated of the arguments and results of calls.
//!
//! Hashing, commitments, the transcript, the constraints of single gates and the openings are not
//! part of the library: the caller supplies them between the rounds.
pub mod util;
pub mod ring;
pub mod field;
pub mod prime;
pub mod goldilocks;
pub mod extension;
pub mod polynomial;
pub mod interpolation;
pub mod zero_poly_coset;
pub mod witness;
pub mod oracle;
pub mod circuit_data;
pub mod partial_products;
pub mod permutation;
pub mod copy_constraints;
pub mod quotient;
pub mod committed_values;
pub mod agreement;
pub mod gates;
pub mod gpu;
pub mod prover;
pub mod runs;
pub mod checks;
pub mod laws;
