//! The errors of the engine.

use vstd::prelude::*;
use vstd::string::*;

verus! {

/// Why a record could not be written or read.
#[derive(Debug, Clone, Copy, PartialEq, Eq, Structural)]
pub enum CodecFault {
    /// The text of a key or value has no JSON literal that reads back as it.
    Unencodable,
    /// The line is not a record.
    Malformed,
    /// The record that a pointer leads to does not set a value.
    NotPut,
}

/// What an engine operation can fail with.
#[derive(Debug, Clone)]
pub enum EngineError {
    /// No value is stored for the given key.
    NotFound(String),
    /// The file system failed; the text says how.
    Io(String),
    /// A log record could not be written or read.
    Serde(CodecFault),
    /// Anything else.
    Unknown(String),
}

/// The mathematical value of an `EngineError`.
pub enum ErrorView {
    NotFound(Seq<char>),
    Io(Seq<char>),
    Serde(CodecFault),
    Unknown(Seq<char>),
}

impl View for EngineError {
    type V = ErrorView;

    open spec fn view(&self) -> ErrorView {
        match self {
            EngineError::NotFound(key) => ErrorView::NotFound(key@),
            EngineError::Io(text) => ErrorView::Io(text@),
            EngineError::Serde(fault) => ErrorView::Serde(*fault),
            EngineError::Unknown(text) => ErrorView::Unknown(text@),
        }
    }
}

impl ErrorView {
    /// What the error says of itself.
    pub open spec fn message(self) -> Seq<char> {
        match self {
            ErrorView::NotFound(key) => "Key not found, `"@ + key + "` is not found"@,
            ErrorView::Io(_) => "Io Error"@,
            ErrorView::Serde(fault) => match fault {
                CodecFault::Unencodable => "a key or value cannot be written as a record"@,
                CodecFault::Malformed => "a line of the log is not a record"@,
                CodecFault::NotPut => "a pointer leads to a record that sets no value"@,
            },
            ErrorView::Unknown(text) => text,
        }
    }
}

impl EngineError {
    /// What the error says of itself.
    pub fn message(&self) -> (r: String)
        ensures
            r@ == self@.message(),
    {
        match self {
            EngineError::NotFound(key) => {
                let mut r = String::from_str("Key not found, `");
                r.append(key.as_str());
                r.append("` is not found");
                r
            },
            EngineError::Io(_) => String::from_str("Io Error"),
            EngineError::Serde(fault) => match fault {
                CodecFault::Unencodable => String::from_str(
                    "a key or value cannot be written as a record",
                ),
                CodecFault::Malformed => String::from_str("a line of the log is not a record"),
                CodecFault::NotPut => String::from_str(
                    "a pointer leads to a record that sets no value",
                ),
            },
            EngineError::Unknown(text) => text.clone(),
        }
    }

    /// Whether the error says that a key has no value.
    pub fn is_not_found(&self) -> (r: bool)
        ensures
            r == (self@ is NotFound),
    {
        match self {
            EngineError::NotFound(_) => true,
            _ => false,
        }
    }
}

} // verus!
