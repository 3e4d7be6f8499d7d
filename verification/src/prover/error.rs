//! Errors at the proving backend's side.
use crate::algebra;
use vstd::prelude::*;

verus! {

#[derive(Debug)]
pub enum Error {
    /// A value of a kind that has no place here.
    Unexpected(String),
    /// A literal that the field refuses.
    Algebra(algebra::error::Error),
}

} // verus!
