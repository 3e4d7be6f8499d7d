//! The evaluator: it walks a circuit in one of two modes, to emit the
//! constraints or to compute the witness, and checks a witness against the
//! constraints.
pub mod ast;
pub mod check;
pub mod error;
pub mod eval;
pub mod semantics;
pub mod soundness;
pub mod witness;
pub mod scope;
