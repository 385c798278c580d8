//! The library's error type.
use vstd::prelude::*;

verus! {

/// Errors of the backend operations.
pub enum Error {
    /// adb failed or reported a failure; the text is its message.
    Adb(String),
    /// A device path was refused.
    InvalidPath(String),
    /// Any other failure, with its message.
    Other(String),
}

/// The text an error is shown as.
pub open spec fn error_message(e: Error) -> Seq<char> {
    match e {
        Error::Adb(m) => "adb error: "@ + m@,
        Error::InvalidPath(m) => "invalid path: "@ + m@,
        Error::Other(m) => m@,
    }
}

impl Error {
    /// The text this error is shown as.
    pub fn message(&self) -> (s: String)
        ensures
            s@ == error_message(*self),
    {
        match self {
            Error::Adb(m) => String::from_str("adb error: ").concat(m.as_str()),
            Error::InvalidPath(m) => String::from_str("invalid path: ").concat(m.as_str()),
            Error::Other(m) => m.clone(),
        }
    }
}

} // verus!
