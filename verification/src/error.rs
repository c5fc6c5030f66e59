//! The library's error type.
use vstd::prelude::*;

verus! {

/// All recoverable failures in the pipeline.
#[derive(Debug)]
pub enum Error {
    /// Configuration was missing or invalid.
    Config(String),
    /// The provided source could not be understood (bad URL, empty text, ...).
    InvalidSource(String),
    /// Fetching or parsing the document failed.
    Extraction(String),
    /// The text-to-speech provider failed.
    Synthesis(String),
    /// Persisting the rendered audio failed.
    Storage(String),
    /// An outbound HTTP call failed at the transport level.
    Http(String),
    /// A stored value could not be read back (e.g. an unknown status string).
    Database(String),
}

/// The human-readable form of an error: a fixed prefix for its kind, then its detail.
pub open spec fn error_text(e: Error) -> Seq<char> {
    match e {
        Error::Config(m) => "configuration error: "@ + m@,
        Error::InvalidSource(m) => "invalid source: "@ + m@,
        Error::Extraction(m) => "extraction failed: "@ + m@,
        Error::Synthesis(m) => "synthesis failed: "@ + m@,
        Error::Storage(m) => "storage error: "@ + m@,
        Error::Http(m) => "http error: "@ + m@,
        Error::Database(m) => "database error: "@ + m@,
    }
}

impl Error {
    /// The message shown to users for this error.
    pub fn message(&self) -> (res: String)
        ensures
            res@ == error_text(*self),
    {
        let mut s = String::new();
        match self {
            Error::Config(m) => {
                s.push_str("configuration error: ");
                s.push_str(m.as_str());
            },
            Error::InvalidSource(m) => {
                s.push_str("invalid source: ");
                s.push_str(m.as_str());
            },
            Error::Extraction(m) => {
                s.push_str("extraction failed: ");
                s.push_str(m.as_str());
            },
            Error::Synthesis(m) => {
                s.push_str("synthesis failed: ");
                s.push_str(m.as_str());
            },
            Error::Storage(m) => {
                s.push_str("storage error: ");
                s.push_str(m.as_str());
            },
            Error::Http(m) => {
                s.push_str("http error: ");
                s.push_str(m.as_str());
            },
            Error::Database(m) => {
                s.push_str("database error: ");
                s.push_str(m.as_str());
            },
        }
        s
    }
}

} // verus!
