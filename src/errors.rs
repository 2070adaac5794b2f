//! The errors that loading a dictionary can raise.
use vstd::prelude::*;

verus! {

#[verifier::external_type_specification]
#[verifier::external_body]
pub struct ExIoError(std::io::Error);

/// The error type of dictionary loading.
#[derive(Debug)]
pub enum Error {
    /// The reader that the dictionary came from failed.
    Io(std::io::Error),
    /// A line of the dictionary holds a frequency that is not an integer.
    InvalidDictEntry(String),
    /// A line of the dictionary goes beyond this machine's limits: more
    /// words than the trie's `i32` ids can number, or a total frequency
    /// beyond `usize::MAX`.
    TooLarge(String),
}

impl From<std::io::Error> for Error {
    fn from(err: std::io::Error) -> (r: Self)
        ensures
            r == Error::Io(err),
    {
        Error::Io(err)
    }
}

impl vstd::std_specs::convert::FromSpecImpl<std::io::Error> for Error {
    open spec fn obeys_from_spec() -> bool {
        true
    }

    open spec fn from_spec(err: std::io::Error) -> Error {
        Error::Io(err)
    }
}

} // verus!
