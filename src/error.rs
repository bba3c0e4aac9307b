use vstd::prelude::*;

verus! {

/// Every way in which handling one connection can fail. Each error aborts
/// only the connection it belongs to.
#[derive(Debug, Clone, Copy, PartialEq, Eq, Structural)]
pub enum ServerError {
    IncorrectRequestFormatError,
    WriteResponseError,
    FileReadingError,
    IncorrectHttpMethodError,
    IncorrectHeaderError,
    IncorrectPathError,
    FileCreatingError,
    FileWritingError,
    TcpStreamReadingError,
    IncorrectRequestLineError,
    IncorrectEncodingError,
    EncodingError,
}

} // verus!
