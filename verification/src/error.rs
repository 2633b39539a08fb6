//! Error types for CodeSift operations.

use vstd::prelude::*;

use crate::text::{chars_of, push_chars, string_from_chars};

verus! {

/// What went wrong, with a message.
#[derive(Debug, PartialEq, Eq)]
pub enum Error {
    Repository(String),
    Index(String),
    Parse(String),
    Search(String),
    /// An I/O failure, with the system's message.
    Io(String),
    SymbolNotFound(String),
    FileNotFound(String),
}

pub type Result<T> = core::result::Result<T, Error>;

/// The text an error displays: its kind, then its message.
pub open spec fn error_text(e: Error) -> Seq<char> {
    match e {
        Error::Repository(m) => "repository error: "@ + m@,
        Error::Index(m) => "index error: "@ + m@,
        Error::Parse(m) => "parse error: "@ + m@,
        Error::Search(m) => "search error: "@ + m@,
        Error::Io(m) => "io error: "@ + m@,
        Error::SymbolNotFound(m) => "symbol not found: "@ + m@,
        Error::FileNotFound(m) => "file not found: "@ + m@,
    }
}

impl Error {
    /// The text the error displays.
    pub fn message(&self) -> (s: String)
        ensures
            s@ == error_text(*self),
    {
        let (kind, m) = match self {
            Error::Repository(m) => ("repository error: ", m),
            Error::Index(m) => ("index error: ", m),
            Error::Parse(m) => ("parse error: ", m),
            Error::Search(m) => ("search error: ", m),
            Error::Io(m) => ("io error: ", m),
            Error::SymbolNotFound(m) => ("symbol not found: ", m),
            Error::FileNotFound(m) => ("file not found: ", m),
        };
        let mut v = chars_of(kind);
        let w = chars_of(m.as_str());
        push_chars(&mut v, w.as_slice());
        string_from_chars(v.as_slice())
    }
}

} // verus!
