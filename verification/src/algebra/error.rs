//! Errors of the field algebra.
use vstd::prelude::*;

verus! {

#[derive(Debug)]
pub enum Error {
    /// An operation that the algebra cannot carry out: a malformed literal,
    /// or a product of two expressions that are both non-constant.
    InvalidOperation(String),
    /// The inverse of an element that has none.
    DivisionByZero,
}

} // verus!
