//! Loading flame trees from text.
use vstd::prelude::*;

pub mod collapsed;
pub mod order;

verus! {

#[verifier::external_type_specification]
#[verifier::external_body]
pub struct ExIoError(std::io::Error);

/// Why loading failed.
#[derive(Debug)]
pub enum Error {
    /// The input could not be read (or a line was not valid UTF-8).
    Io(std::io::Error),
    /// The line with this (1-based) number is not `stack count`.
    BadLine(usize),
    /// The line with this (1-based) number would need more nodes than a
    /// `NodeId` can address, or more lines than a `usize` can count.
    TooLarge(usize),
}

impl From<std::io::Error> for Error {
    fn from(e: std::io::Error) -> (r: Self)
        ensures
            r == Error::Io(e),
    {
        Error::Io(e)
    }
}

impl vstd::std_specs::convert::FromSpecImpl<std::io::Error> for Error {
    open spec fn obeys_from_spec() -> bool {
        true
    }

    open spec fn from_spec(v: std::io::Error) -> Self {
        Error::Io(v)
    }
}

} // verus!
