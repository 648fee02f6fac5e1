//! The error type of the storage engine.

use vstd::prelude::*;

verus! {

/// `std::io::Error`, carried through the library's errors unopened.
#[verifier::external_type_specification]
#[verifier::external_body]
pub struct ExIoError(std::io::Error);

#[derive(Debug)]
pub enum HeapError {
    Io(std::io::Error),
    Corrupt { what: &'static str, offset: u64 },
    NotFound(u64),
    InvalidArg(&'static str),
}

pub type Result<T> = std::result::Result<T, HeapError>;

impl From<std::io::Error> for HeapError {
    fn from(e: std::io::Error) -> (r: Self) {
        HeapError::Io(e)
    }
}

impl vstd::std_specs::convert::FromSpecImpl<std::io::Error> for HeapError {
    open spec fn obeys_from_spec() -> bool {
        true
    }

    open spec fn from_spec(v: std::io::Error) -> Self {
        HeapError::Io(v)
    }
}

} // verus!
