//! Fatal build errors. A single failure anywhere aborts the whole corpus
//! build; nothing is retried.

use vstd::prelude::*;

verus! {

/// Why a corpus build failed. Transport and decode failures are produced by
/// the unverified edge that performs the I/O and are carried here as plain
/// text; the remaining variants are produced by the library itself.
#[derive(Debug, Clone, PartialEq, Eq)]
pub enum Error {
    /// A page request failed in transit.
    RequestError(String),
    /// Reading the response body failed.
    IOError(String),
    /// The page was not well-formed JSON.
    JsonParseError(String),
    /// A JSON scalar that should have been a string was not.
    JsonStringError(String),
    /// The interner has no room for another distinct string.
    InternerFull,
    /// A handle did not resolve, or a transition target had no state of its
    /// own: an internal invariant was broken.
    InternerError,
}

impl Error {
    /// A short human-readable description of the failure.
    pub fn message(&self) -> String {
        match self {
            Error::RequestError(s) => {
                let mut m = String::from_str("Request failed: ");
                m.append(s.as_str());
                m
            },
            Error::IOError(s) => {
                let mut m = String::from_str("Read failed: ");
                m.append(s.as_str());
                m
            },
            Error::JsonParseError(s) => {
                let mut m = String::from_str("Failed to parse JSON response: ");
                m.append(s.as_str());
                m
            },
            Error::JsonStringError(s) => {
                let mut m = String::from_str("JSON value is not a string: ");
                m.append(s.as_str());
                m
            },
            Error::InternerFull => String::from_str("The string interner is full."),
            Error::InternerError => String::from_str("A string handle failed to resolve."),
        }
    }
}

} // verus!
