//! Command-line options as plain data, and the meaning of the separator and
//! delimiter flags. Reading the actual command line belongs to the caller;
//! this module only interprets the option values.

use vstd::prelude::*;
use vstd::string::StringSliceAdditionalSpecFns;

use crate::error::RsortError;

verus! {

/// The options of one sort run.
#[derive(Debug, Clone)]
pub struct Args {
    /// Reverse the result of comparisons.
    pub reverse: bool,
    /// Compare according to numerical value.
    pub numeric: bool,
    /// Fold lower case to upper case characters.
    pub fold_case: bool,
    /// Output only unique records.
    pub unique: bool,
    /// Stabilize the sort by disabling the last-resort comparison.
    pub stable: bool,
    /// Write the result to this file instead of standard output.
    pub output: Option<String>,
    /// Field separator text, as given on the command line.
    pub delimiter: Option<String>,
    /// Key specifications, applied in order.
    pub keys: Vec<String>,
    /// Use NUL instead of newline as the record delimiter.
    pub zero_terminated: bool,
    /// Annotate the part of each record used to sort.
    pub debug: bool,
    /// Input files.
    pub files: Vec<String>,
}

/// The separator text as a byte sequence.
pub open spec fn spec_delim_bytes(d: Option<String>) -> Option<Seq<u8>> {
    match d {
        None => None,
        Some(s) => Some(vstd::utf8::encode_utf8(s@)),
    }
}

/// The meaning of a separator text: absent means whitespace splitting, a
/// single byte stands for itself, and the two-character escapes `\0`, `\t`,
/// `\n` and `\\` stand for NUL, tab, newline and backslash. Anything else
/// is rejected.
pub open spec fn spec_field_separator(d: Option<Seq<u8>>) -> Option<Option<u8>> {
    match d {
        None => Some(None),
        Some(b) => {
            if b.len() == 1 {
                Some(Some(b[0]))
            } else if b.len() == 2 && b[0] == 92 {
                if b[1] == 116 {
                    Some(Some(9))
                } else if b[1] == 110 {
                    Some(Some(10))
                } else if b[1] == 92 {
                    Some(Some(92))
                } else if b[1] == 48 {
                    Some(Some(0))
                } else {
                    None
                }
            } else {
                None
            }
        },
    }
}

impl Args {
    /// Interpret the separator flag, handling the two-character escapes.
    /// Returns `InvalidDelimiter` exactly when the text is neither one byte
    /// nor a recognized escape.
    pub fn field_separator(&self) -> (r: Result<Option<u8>, RsortError>)
        ensures
            match r {
                Ok(o) => spec_field_separator(spec_delim_bytes(self.delimiter)) == Some(o),
                Err(e) => spec_field_separator(spec_delim_bytes(self.delimiter)) is None
                    && e is InvalidDelimiter,
            },
    {
        match &self.delimiter {
            None => Ok(None),
            Some(s) => {
                let b = s.as_str().as_bytes();
                if b.len() == 1 {
                    Ok(Some(b[0]))
                } else if b.len() == 2 && b[0] == 92 {
                    if b[1] == 116 {
                        Ok(Some(9))
                    } else if b[1] == 110 {
                        Ok(Some(10))
                    } else if b[1] == 92 {
                        Ok(Some(92))
                    } else if b[1] == 48 {
                        Ok(Some(0))
                    } else {
                        Err(RsortError::InvalidDelimiter)
                    }
                } else {
                    Err(RsortError::InvalidDelimiter)
                }
            },
        }
    }

    /// The record delimiter: NUL in zero-terminated mode, newline otherwise.
    pub fn record_delimiter(&self) -> (d: u8)
        ensures
            d == (if self.zero_terminated {
                0u8
            } else {
                10u8
            }),
    {
        if self.zero_terminated {
            0
        } else {
            10
        }
    }
}

} // verus!
