//! The core of an arithmetic-circuit compiler: exact arithmetic in the scalar
//! field, sparse linear combinations and quadratic constraints, the signal and
//! constraint tables with their two backends, and the evaluator that walks a
//! circuit either to emit constraints or to compute a witness.
pub mod algebra;
pub mod evaluator;
pub mod prover;
pub mod storage;
