use vstd::prelude::*;

verus! {

/// The errors that this library reports.
///
/// `Connection` is a transport failure while establishing a request,
/// `Runtime` covers API errors, decode errors and inactivity timeouts, and
/// `Value` is an invalid argument or response shape.
#[derive(Debug, Clone, PartialEq, Eq)]
pub enum SdkError {
    Connection(String),
    Runtime(String),
    Value(String),
}

impl SdkError {
    /// The message carried by the error, whatever its kind.
    pub open spec fn message(self) -> Seq<char> {
        match self {
            SdkError::Connection(m) => m@,
            SdkError::Runtime(m) => m@,
            SdkError::Value(m) => m@,
        }
    }

    pub fn connection(message: &str) -> (r: SdkError)
        ensures
            r is Connection,
            r.message() == message@,
    {
        SdkError::Connection(message.to_string())
    }

    pub fn runtime(message: &str) -> (r: SdkError)
        ensures
            r is Runtime,
            r.message() == message@,
    {
        SdkError::Runtime(message.to_string())
    }

    pub fn value(message: &str) -> (r: SdkError)
        ensures
            r is Value,
            r.message() == message@,
    {
        SdkError::Value(message.to_string())
    }
}

} // verus!
