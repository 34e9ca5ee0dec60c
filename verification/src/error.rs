use vstd::prelude::*;

verus! {

/// Failure taxonomy for one daemon session, shared by every layer.
///
/// - `Connection`: the transport failed, or the session greeting was not the
///   expected `OK` line; fatal to the session that hit it. Carries the raw
///   line (or a transport diagnostic) for display.
/// - `ACK`: the daemon rejected a command with an `ACK` response line;
///   carries the text after the marker. Recoverable by the caller.
/// - `InvalidData`: a response was readable but lacked a required field or
///   held one in an unexpected form. Recoverable at the call site that
///   expected the field.
#[derive(Debug)]
pub enum Error {
    Connection(String),
    ACK(String),
    InvalidData(&'static str),
}

/// Conversion of a foreign result into this crate's.
pub trait IntoRes<T> {
    fn into_res(self) -> Result<T, Error>;
}

/// A result whose error is a raw transport diagnostic: the diagnostic
/// becomes a connection error. Transport code outside the library renders
/// its own error types to text and converts through this.
impl<T> IntoRes<T> for Result<T, String> {
    fn into_res(self) -> (r: Result<T, Error>)
        ensures
            match self {
                Ok(v) => r == Ok::<T, Error>(v),
                Err(m) => r == Err::<T, Error>(Error::Connection(m)),
            },
    {
        match self {
            Ok(v) => Ok(v),
            Err(m) => Err(Error::Connection(m)),
        }
    }
}

} // verus!
