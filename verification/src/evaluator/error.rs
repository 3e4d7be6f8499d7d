//! Errors of the evaluator.
use crate::algebra;
use crate::algebra::field::FS;
use crate::storage;
use vstd::prelude::*;

verus! {

#[derive(Debug)]
pub enum Error {
    NotFound(String),
    AlreadyExists(String),
    Parse(String),
    InvalidParameter(String),
    InvalidSelector(String),
    BadFunctionReturn(String),
    InvalidTag(String),
    InvalidType(String),
    NotYetImplemented(String),
    Algebra(algebra::error::Error),
    CannotGenerateConstrain(String),
    CannotConvertToU64(FS),
    /// The constraint at this index does not evaluate to zero.
    Unsatisfied(usize),
    Io(String),
}

/// The kind of an error, without what it says.
pub enum Failure {
    NotFound,
    AlreadyExists,
    Parse,
    InvalidParameter,
    InvalidSelector,
    BadFunctionReturn,
    InvalidTag,
    InvalidType,
    NotYetImplemented,
    Algebra,
    CannotGenerateConstrain,
    CannotConvertToU64,
    Unsatisfied,
    Io,
}

impl Error {
    /// The kind of the error.
    pub open spec fn failure(self) -> Failure {
        match self {
            Error::NotFound(_) => Failure::NotFound,
            Error::AlreadyExists(_) => Failure::AlreadyExists,
            Error::Parse(_) => Failure::Parse,
            Error::InvalidParameter(_) => Failure::InvalidParameter,
            Error::InvalidSelector(_) => Failure::InvalidSelector,
            Error::BadFunctionReturn(_) => Failure::BadFunctionReturn,
            Error::InvalidTag(_) => Failure::InvalidTag,
            Error::InvalidType(_) => Failure::InvalidType,
            Error::NotYetImplemented(_) => Failure::NotYetImplemented,
            Error::Algebra(_) => Failure::Algebra,
            Error::CannotGenerateConstrain(_) => Failure::CannotGenerateConstrain,
            Error::CannotConvertToU64(_) => Failure::CannotConvertToU64,
            Error::Unsatisfied(_) => Failure::Unsatisfied,
            Error::Io(_) => Failure::Io,
        }
    }

    /// A table's error as the evaluator reports it: the two refusals keep
    /// their kind, a failure of the store or of a record is an I/O failure.
    pub fn from_storage(e: storage::error::Error) -> (r: Error)
        ensures
            match e {
                storage::error::Error::NotFound(m) => r matches Error::NotFound(n) && n == m,
                storage::error::Error::AlreadyExists(m) => r matches Error::AlreadyExists(n) && n
                    == m,
                storage::error::Error::Encoding(m) => r matches Error::Io(n) && n == m,
                storage::error::Error::Io(m) => r matches Error::Io(n) && n == m,
            },
    {
        match e {
            storage::error::Error::NotFound(m) => Error::NotFound(m),
            storage::error::Error::AlreadyExists(m) => Error::AlreadyExists(m),
            storage::error::Error::Encoding(m) => Error::Io(m),
            storage::error::Error::Io(m) => Error::Io(m),
        }
    }
}

} // verus!
