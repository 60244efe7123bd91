//! The ways in which an operation of this crate can fail.

use vstd::prelude::*;

verus! {

/// Why an operation on a JSON tree or on JSON text failed.
#[derive(Debug, PartialEq, Eq)]
pub enum JsonError {
    /// A string handed in holds a zero byte; the payload is the offset of the
    /// first one.
    CStringError(usize),
    /// The text to parse is empty.
    EmptyStringError,
    /// An operation was applied to a node of the wrong type; the payload says
    /// which operation.
    TypeMismatch(String),
    /// The item that the operation addresses does not exist.
    NullPointer,
    /// The text is not JSON; the payload is the offset of the byte at which
    /// parsing stopped.
    ParseError(usize),
    /// The text nests containers deeper than the parser's limit; the payload
    /// is the offset of the bracket that went too deep.
    NestingLimitExceeded(usize),
    /// A negative initial capacity was asked for.
    PrintBufferedError,
    /// The caller's buffer cannot hold the text and its terminating zero.
    BufferTooSmall,
}

impl JsonError {
    /// A sentence that describes the error.
    pub fn message(&self) -> (r: String)
        ensures
            r@ == (match *self {
                JsonError::CStringError(_) => "the string holds a zero byte"@,
                JsonError::EmptyStringError => "you provided an empty string"@,
                JsonError::TypeMismatch(m) => m@,
                JsonError::NullPointer => "the JSON pointer is null"@,
                JsonError::ParseError(_) => "failed to parse the JSON string"@,
                JsonError::NestingLimitExceeded(_) => "the JSON string is nested too deeply"@,
                JsonError::PrintBufferedError => "failed to print the JSON object to allocated buffer"@,
                JsonError::BufferTooSmall => "failed to print the JSON object to preallocated buffer"@,
            }),
    {
        match self {
            JsonError::CStringError(_) => "the string holds a zero byte".to_owned(),
            JsonError::EmptyStringError => "you provided an empty string".to_owned(),
            JsonError::TypeMismatch(m) => m.clone(),
            JsonError::NullPointer => "the JSON pointer is null".to_owned(),
            JsonError::ParseError(_) => "failed to parse the JSON string".to_owned(),
            JsonError::NestingLimitExceeded(_) => "the JSON string is nested too deeply".to_owned(),
            JsonError::PrintBufferedError => "failed to print the JSON object to allocated buffer".to_owned(),
            JsonError::BufferTooSmall => "failed to print the JSON object to preallocated buffer".to_owned(),
        }
    }
}

/// `r` is the type mismatch that carries `message`.
pub open spec fn is_type_mismatch<T>(r: Result<T, JsonError>, message: Seq<char>) -> bool {
    r matches Err(JsonError::TypeMismatch(m)) && m@ == message
}

/// `r` is the error that tells of a zero byte in `bytes`, with the offset of
/// the first one.
pub open spec fn is_nul_error<T>(r: Result<T, JsonError>, bytes: Seq<u8>) -> bool {
    r matches Err(JsonError::CStringError(at)) && crate::text::first_nul(bytes, at as int)
}

/// The type mismatch that carries `message`.
pub fn type_mismatch<T>(message: &str) -> (r: Result<T, JsonError>)
    ensures
        is_type_mismatch(r, message@),
{
    Err(JsonError::TypeMismatch(message.to_owned()))
}

} // verus!
