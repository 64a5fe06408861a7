//! What can go wrong on an event stream.

use vstd::prelude::*;

verus! {

/// The ways in which decoding or sending fails.
#[derive(Debug, Clone, Copy, PartialEq, Eq, Structural)]
pub enum Error {
    /// The bytes of a line are not valid UTF-8. The decoder ends after it.
    InvalidEncoding,
    /// The reading endpoint of the encoder is gone: nothing can be sent any more.
    Disconnected,
}

impl Error {
    /// A short description of the failure.
    pub fn as_str(&self) -> (text: &'static str)
        ensures
            text@ == (match *self {
                Error::InvalidEncoding => "stream did not contain valid UTF-8"@,
                Error::Disconnected => "sse disconnected"@,
            }),
    {
        match self {
            Error::InvalidEncoding => "stream did not contain valid UTF-8",
            Error::Disconnected => "sse disconnected",
        }
    }
}

} // verus!
