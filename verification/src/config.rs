//! The run configuration: an immutable value built once from the options,
//! then shared read-only by every comparison of the run.

use vstd::prelude::*;

use crate::cli::{spec_delim_bytes, spec_field_separator, Args};
use crate::error::RsortError;
use crate::key::{parse_keyspec, KeySpec};

verus! {

/// Runtime configuration of one sort run.
#[derive(Debug, Clone)]
pub struct Config {
    pub reverse: bool,
    pub numeric: bool,
    pub fold_case: bool,
    pub unique: bool,
    pub stable: bool,
    pub debug: bool,
    pub record_delimiter: u8,
    pub field_separator: Option<u8>,
    pub keys: Vec<KeySpec>,
    pub output_file: Option<String>,
    pub input_files: Vec<String>,
}

impl Config {
    /// Build the configuration from the parsed options. Fails with
    /// `InvalidDelimiter` for a bad separator text and with `InvalidKey`
    /// for a bad key descriptor; a bad separator is reported first.
    pub fn from_args(args: &Args) -> (r: Result<Config, RsortError>)
        ensures
            match r {
                Ok(c) => {
                    &&& c.reverse == args.reverse
                    &&& c.numeric == args.numeric
                    &&& c.fold_case == args.fold_case
                    &&& c.unique == args.unique
                    &&& c.stable == args.stable
                    &&& c.debug == args.debug
                    &&& c.record_delimiter == (if args.zero_terminated {
                        0u8
                    } else {
                        10u8
                    })
                    &&& spec_field_separator(spec_delim_bytes(args.delimiter)) == Some(
                        c.field_separator,
                    )
                    &&& c.keys@.len() == args.keys@.len()
                    &&& forall|i: int|
                        0 <= i < c.keys@.len() ==> Some(#[trigger] c.keys@[i]) == parse_keyspec(
                            vstd::utf8::encode_utf8(args.keys@[i]@),
                        )
                    &&& c.output_file == args.output
                    &&& c.input_files@ == args.files@
                },
                Err(e) => if spec_field_separator(spec_delim_bytes(args.delimiter)) is None {
                    e is InvalidDelimiter
                } else {
                    (exists|i: int|
                        0 <= i < args.keys@.len() && parse_keyspec(
                            vstd::utf8::encode_utf8(#[trigger] args.keys@[i]@),
                        ) is None) && e is InvalidKey
                },
            },
    {
        let field_separator = match args.field_separator() {
            Ok(v) => v,
            Err(e) => {
                return Err(e);
            },
        };
        let mut keys: Vec<KeySpec> = Vec::new();
        let mut i: usize = 0;
        while i < args.keys.len()
            invariant
                i <= args.keys@.len(),
                keys@.len() == i,
                spec_field_separator(spec_delim_bytes(args.delimiter)) == Some(field_separator),
                forall|j: int|
                    0 <= j < i ==> Some(#[trigger] keys@[j]) == parse_keyspec(
                        vstd::utf8::encode_utf8(args.keys@[j]@),
                    ),
            decreases args.keys@.len() - i,
        {
            let k = match KeySpec::parse(args.keys[i].as_str()) {
                Ok(k) => k,
                Err(e) => {
                    return Err(e);
                },
            };
            keys.push(k);
            i = i + 1;
        }
        let output_file = match &args.output {
            None => None,
            Some(s) => Some(s.clone()),
        };
        let mut input_files: Vec<String> = Vec::new();
        let mut j: usize = 0;
        while j < args.files.len()
            invariant
                j <= args.files@.len(),
                input_files@ =~= args.files@.take(j as int),
            decreases args.files@.len() - j,
        {
            input_files.push(args.files[j].clone());
            proof {
                assert(input_files@ =~= args.files@.take(j + 1));
            }
            j = j + 1;
        }
        proof {
            assert(args.files@.take(args.files@.len() as int) =~= args.files@);
        }
        Ok(
            Config {
                reverse: args.reverse,
                numeric: args.numeric,
                fold_case: args.fold_case,
                unique: args.unique,
                stable: args.stable,
                debug: args.debug,
                record_delimiter: args.record_delimiter(),
                field_separator,
                keys,
                output_file,
                input_files,
            },
        )
    }

    /// Whether the last-resort comparison is enabled.
    pub fn use_last_resort(&self) -> (b: bool)
        ensures
            b == (!self.stable && !self.unique),
    {
        !self.stable && !self.unique
    }

    /// Whether ties must preserve input order, which requires a stable
    /// sorting algorithm.
    pub fn use_stable_sort(&self) -> (b: bool)
        ensures
            b == (self.stable || self.unique),
    {
        self.stable || self.unique
    }
}

} // verus!
