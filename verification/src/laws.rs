//! What the operations are for, stated of their arguments and results.
//!
//! Each law speaks of calls: it takes the arguments and the result of a call, or of several, and
//! says how they relate, in terms of field operations, polynomials and the entries of tables.
pub mod algebra;
pub mod tables;
pub mod conditions;
pub mod start;
pub mod permutation_argument;
pub mod quotients;
pub mod rounds;
pub mod device;
