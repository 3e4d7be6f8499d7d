//! Errors of the tables.
use vstd::prelude::*;

verus! {

#[derive(Debug)]
pub enum Error {
    /// No signal or constraint at the place asked for.
    NotFound(String),
    /// A signal of that name is in the table already.
    AlreadyExists(String),
    /// A stored record that does not decode.
    Encoding(String),
    /// A failure of the backend's store.
    Io(String),
}

} // verus!
