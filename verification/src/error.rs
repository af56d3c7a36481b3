//! Errors surfaced at configuration time. The hot comparison path has no
//! fallible operations: malformed numeric input, out-of-range indices and
//! empty records all degrade to well-defined values instead of errors.

use vstd::prelude::*;

verus! {

/// A configuration error detected before any record is processed.
#[derive(Debug, Clone, PartialEq, Eq)]
pub enum RsortError {
    /// Malformed or semantically inconsistent key descriptor.
    InvalidKey(String),
    /// A field-separator value that is not exactly one byte or a recognized
    /// two-character escape.
    InvalidDelimiter,
}

impl RsortError {
    /// A short description of the error kind.
    pub fn message(&self) -> (m: &'static str)
        ensures
            self is InvalidKey ==> m@ == "invalid key specification"@,
            self is InvalidDelimiter ==> m@ == "invalid field delimiter: must be a single byte"@,
    {
        match self {
            RsortError::InvalidKey(_) => "invalid key specification",
            RsortError::InvalidDelimiter => "invalid field delimiter: must be a single byte",
        }
    }
}

} // verus!
