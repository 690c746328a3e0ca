//! The errors of this library, and how those of `logp` become one of them.
use logp::Error as LogpError;
use vstd::prelude::*;

verus! {

/// The error type of `logp`, carried through as it is. Nothing is said of its
/// contents.
#[verifier::external_type_specification]
#[verifier::external_body]
pub struct ExLogpError(LogpError);

/// Why a distance could not be computed.
#[derive(Debug)]
pub enum Error {
    /// `logp` rejected an input: the two vectors differ in length, or one of
    /// them is empty, holds a negative or non-finite entry, or does not sum to
    /// one within the tolerance. The cause is kept as `logp` reported it.
    Logp(LogpError),
    /// A domain error raised by this library itself, with a fixed message.
    /// No function raises it at present; it is kept so that one can later
    /// without changing the type.
    Domain(&'static str),
}

impl From<LogpError> for Error {
    fn from(cause: LogpError) -> (r: Error) {
        Error::Logp(cause)
    }
}

impl vstd::std_specs::convert::FromSpecImpl<LogpError> for Error {
    open spec fn obeys_from_spec() -> bool {
        true
    }

    open spec fn from_spec(cause: LogpError) -> Error {
        Error::Logp(cause)
    }
}

/// What `adopt` makes of an outcome of `logp`.
pub open spec fn spec_adopt<T>(outcome: Result<T, LogpError>) -> Result<T, Error> {
    match outcome {
        Ok(value) => Ok(value),
        Err(cause) => Err(Error::Logp(cause)),
    }
}

/// Takes an outcome of `logp` into the error type of this library: a success
/// is handed on unchanged, a failure is wrapped with its cause intact.
pub fn adopt<T>(outcome: Result<T, LogpError>) -> (r: Result<T, Error>)
    ensures
        r == spec_adopt(outcome),
{
    match outcome {
        Ok(value) => Ok(value),
        Err(cause) => Err(Error::from(cause)),
    }
}

} // verus!
