//! Field algebra: field elements, linear combinations and quadratic
//! equations over them.
pub mod error;
pub mod field;
pub mod lc;
pub mod literal;
pub mod modular;
pub mod qeq;
pub mod substitute;
pub mod text;
pub mod value;
pub mod wide;
