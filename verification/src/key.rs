//! Key specifications and key extraction.
//!
//! A key descriptor has the grammar `FIELD[.CHAR][,FIELD[.CHAR]]` with
//! 1-based decimal positions; trailing alphabetic modifier characters are
//! tolerated and stripped. Extraction resolves the descriptor against the
//! field spans of a record and yields a contiguous byte span of the record,
//! clamped rather than failing when positions run past the end.

use vstd::prelude::*;
use vstd::slice::{slice_subrange, slice_to_vec};
use vstd::string::StringSliceAdditionalSpecFns;

use crate::digits::{all_digits, digits_val, lemma_digits_val_prefix_le};
use crate::error::RsortError;
use crate::fields::{find_byte, lemma_spec_fields_bounds, next_sep, spec_fields, spans_view};

pub use crate::fields::split_fields_with_positions;

verus! {

/// Parsed key specification.
#[derive(Clone, Debug)]
pub struct KeySpec {
    /// Starting field (1-based).
    pub start_field: usize,
    /// Starting character within the first field (1-based, optional).
    pub start_char: Option<usize>,
    /// Ending field (1-based, optional; the key runs to the last field when absent).
    pub end_field: Option<usize>,
    /// Ending character within the last field (1-based, optional).
    pub end_char: Option<usize>,
}

/// An ASCII letter.
pub open spec fn is_alpha(b: u8) -> bool {
    (65 <= b <= 90) || (97 <= b <= 122)
}

/// `p` with every trailing ASCII letter removed.
pub open spec fn strip_alpha(p: Seq<u8>) -> Seq<u8>
    decreases p.len(),
{
    if p.len() > 0 && is_alpha(p.last()) {
        strip_alpha(p.drop_last())
    } else {
        p
    }
}

/// Decimal parse of `p` as an unsigned machine integer: an optional leading
/// `+`, then one or more digits, the value fitting in `usize`.
pub open spec fn parse_usize_spec(p: Seq<u8>) -> Option<int> {
    let q = if p.len() > 0 && p[0] == 43 {
        p.skip(1)
    } else {
        p
    };
    if q.len() > 0 && all_digits(q) && digits_val(q) <= usize::MAX {
        Some(digits_val(q))
    } else {
        None
    }
}

/// Parse of one comma-part, `FIELD` or `FIELD.CHAR`, after stripping
/// trailing letters.
pub open spec fn parse_field_char_spec(part: Seq<u8>) -> Option<(int, Option<int>)> {
    let t = strip_alpha(part);
    let dot = next_sep(t, 46, 0);
    if dot == t.len() {
        match parse_usize_spec(t) {
            Some(f) => Some((f, None)),
            None => None,
        }
    } else {
        let head = t.subrange(0, dot);
        let tail = t.subrange(dot + 1, t.len() as int);
        if next_sep(tail, 46, 0) != tail.len() {
            None
        } else {
            match (parse_usize_spec(head), parse_usize_spec(tail)) {
                (Some(f), Some(c)) => Some((f, Some(c))),
                _ => None,
            }
        }
    }
}

/// Semantic validity of the parsed positions: no zero positions, the end
/// field not before the start field, and within a single field the end
/// character not before the start character.
pub open spec fn keyspec_valid(f: int, sc: Option<int>, ef: Option<int>, ec: Option<int>) -> bool {
    &&& f >= 1
    &&& match sc {
        Some(v) => v >= 1,
        None => true,
    }
    &&& match ef {
        Some(v) => v >= 1 && v >= f,
        None => true,
    }
    &&& match ec {
        Some(v) => v >= 1,
        None => true,
    }
    &&& !(ef == Some(f) && match (sc, ec) {
        (Some(a), Some(b)) => b < a,
        _ => false,
    })
}

pub open spec fn opt_as_usize(o: Option<int>) -> Option<usize> {
    match o {
        Some(v) => Some(v as usize),
        None => None,
    }
}

pub open spec fn opt_usize_view(o: Option<usize>) -> Option<int> {
    match o {
        Some(v) => Some(v as int),
        None => None,
    }
}

/// Full parse of a key descriptor: at most one comma, each part parseable,
/// and the positions semantically valid.
pub open spec fn parse_keyspec(s: Seq<u8>) -> Option<KeySpec> {
    let c = next_sep(s, 44, 0);
    if c == s.len() {
        match parse_field_char_spec(s) {
            Some((f, sc)) => keyspec_checked(f, sc, None, None),
            None => None,
        }
    } else {
        let p1 = s.subrange(0, c);
        let p2 = s.subrange(c + 1, s.len() as int);
        if next_sep(p2, 44, 0) != p2.len() {
            None
        } else {
            match (parse_field_char_spec(p1), parse_field_char_spec(p2)) {
                (Some((f, sc)), Some((ef, ec))) => keyspec_checked(f, sc, Some(ef), ec),
                _ => None,
            }
        }
    }
}

pub open spec fn keyspec_checked(f: int, sc: Option<int>, ef: Option<int>, ec: Option<
    int,
>) -> Option<KeySpec> {
    if keyspec_valid(f, sc, ef, ec) {
        Some(
            KeySpec {
                start_field: f as usize,
                start_char: opt_as_usize(sc),
                end_field: opt_as_usize(ef),
                end_char: opt_as_usize(ec),
            },
        )
    } else {
        None
    }
}

/// Decimal parse of a byte slice, rejecting empty input, non-digits and
/// values that do not fit in `usize`.
fn parse_usize(p: &[u8]) -> (r: Option<usize>)
    ensures
        match r {
            Some(v) => parse_usize_spec(p@) == Some(v as int),
            None => parse_usize_spec(p@) is None,
        },
{
    let start: usize = if p.len() > 0 && p[0] == 43 {
        1
    } else {
        0
    };
    let ghost q = if p@.len() > 0 && p@[0] == 43 {
        p@.skip(1)
    } else {
        p@
    };
    if p.len() == start {
        return None;
    }
    let mut acc: usize = 0;
    let mut i: usize = start;
    while i < p.len()
        invariant
            start <= i <= p@.len(),
            start <= 1,
            q == if p@.len() > 0 && p@[0] == 43 {
                p@.skip(1)
            } else {
                p@
            },
            q.len() == p@.len() - start,
            forall|j: int| 0 <= j < q.len() ==> q[j] == p@[j + start],
            all_digits(q.take(i - start)),
            acc == digits_val(q.take(i - start)),
        decreases p@.len() - i,
    {
        let b = p[i];
        proof {
            assert(q[i - start] == b);
        }
        if !(48 <= b && b <= 57) {
            proof {
                assert(!crate::digits::is_digit(q[i - start]));
            }
            return None;
        }
        let d = (b - 48) as usize;
        proof {
            assert(q.take(i - start + 1).drop_last() =~= q.take(i - start));
            assert(q.take(i - start + 1).last() == q[i - start]);
        }
        if acc > (usize::MAX - d) / 10 {
            proof {
                assert(acc * 10 + d > usize::MAX) by (nonlinear_arith)
                    requires
                        acc > (usize::MAX - d) / 10,
                        0 <= d <= 9,
                ;
                assert(digits_val(q.take(i - start + 1)) > usize::MAX);
                if all_digits(q) {
                    lemma_digits_val_prefix_le(q, i - start + 1);
                }
            }
            return None;
        }
        proof {
            assert(acc * 10 + d <= usize::MAX) by (nonlinear_arith)
                requires
                    acc <= (usize::MAX - d) / 10,
                    0 <= d <= 9,
            ;
        }
        acc = acc * 10 + d;
        i = i + 1;
    }
    proof {
        assert(q.take(i - start) =~= q);
    }
    Some(acc)
}

/// Parse `FIELD` or `FIELD.CHAR`, tolerating trailing letters.
fn parse_field_char(part: &[u8]) -> (r: Result<(usize, Option<usize>), RsortError>)
    ensures
        match r {
            Ok(v) => parse_field_char_spec(part@) == Some((v.0 as int, opt_usize_view(v.1))),
            Err(e) => parse_field_char_spec(part@) is None && e is InvalidKey,
        },
{
    // strip trailing modifier letters (reserved, currently inert)
    let mut t_len: usize = part.len();
    proof {
        assert(part@.take(part@.len() as int) =~= part@);
    }
    while t_len > 0 && ((65 <= part[t_len - 1] && part[t_len - 1] <= 90) || (97 <= part[t_len - 1]
        && part[t_len - 1] <= 122))
        invariant
            t_len <= part@.len(),
            strip_alpha(part@) == strip_alpha(part@.take(t_len as int)),
        decreases t_len,
    {
        proof {
            assert(part@.take(t_len as int).drop_last() =~= part@.take(t_len - 1));
            assert(part@.take(t_len as int).last() == part@[t_len - 1]);
        }
        t_len = t_len - 1;
    }
    let t = slice_subrange(part, 0, t_len);
    proof {
        assert(t@ =~= part@.take(t_len as int));
        if t_len > 0 {
            assert(part@.take(t_len as int).last() == part@[t_len - 1]);
        }
        assert(strip_alpha(part@) == t@);
    }
    let dot = find_byte(t, 46, 0);
    if dot == t.len() {
        match parse_usize(t) {
            Some(f) => Ok((f, None)),
            None => Err(RsortError::InvalidKey("invalid field number".to_owned())),
        }
    } else {
        let head = slice_subrange(t, 0, dot);
        let tail = slice_subrange(t, dot + 1, t.len());
        if find_byte(tail, 46, 0) != tail.len() {
            return Err(RsortError::InvalidKey("too many dots in key part".to_owned()));
        }
        let f = match parse_usize(head) {
            Some(f) => f,
            None => {
                return Err(RsortError::InvalidKey("invalid field number".to_owned()));
            },
        };
        let c = match parse_usize(tail) {
            Some(c) => c,
            None => {
                return Err(RsortError::InvalidKey("invalid char position".to_owned()));
            },
        };
        Ok((f, Some(c)))
    }
}

impl KeySpec {
    /// Parse a key descriptor such as `2`, `1,2` or `2.3,2.5`.
    ///
    /// Returns `InvalidKey` exactly when the descriptor has more than one
    /// comma, a part does not parse as a position, a position is zero, the
    /// end field precedes the start field, or (within one field) the end
    /// character precedes the start character.
    pub fn parse(s: &str) -> (r: Result<KeySpec, RsortError>)
        ensures
            match r {
                Ok(k) => parse_keyspec(s.spec_bytes()) == Some(k),
                Err(e) => parse_keyspec(s.spec_bytes()) is None && e is InvalidKey,
            },
    {
        let bytes = s.as_bytes();
        let c = find_byte(bytes, 44, 0);
        if c == bytes.len() {
            let (f, sc) = match parse_field_char(bytes) {
                Ok(v) => v,
                Err(e) => {
                    return Err(e);
                },
            };
            Self::checked(f, sc, None, None)
        } else {
            let p1 = slice_subrange(bytes, 0, c);
            let p2 = slice_subrange(bytes, c + 1, bytes.len());
            if find_byte(p2, 44, 0) != p2.len() {
                return Err(RsortError::InvalidKey("too many commas in key".to_owned()));
            }
            let (f, sc) = match parse_field_char(p1) {
                Ok(v) => v,
                Err(e) => {
                    return Err(e);
                },
            };
            let (ef, ec) = match parse_field_char(p2) {
                Ok(v) => v,
                Err(e) => {
                    return Err(e);
                },
            };
            Self::checked(f, sc, Some(ef), ec)
        }
    }

    /// Validate parsed positions and build the specification.
    fn checked(f: usize, sc: Option<usize>, ef: Option<usize>, ec: Option<usize>) -> (r: Result<
        KeySpec,
        RsortError,
    >)
        ensures
            match r {
                Ok(k) => keyspec_checked(
                    f as int,
                    opt_usize_view(sc),
                    opt_usize_view(ef),
                    opt_usize_view(ec),
                ) == Some(k),
                Err(e) => keyspec_checked(
                    f as int,
                    opt_usize_view(sc),
                    opt_usize_view(ef),
                    opt_usize_view(ec),
                ) is None && e is InvalidKey,
            },
    {
        if f == 0 {
            return Err(RsortError::InvalidKey("field number must be >= 1".to_owned()));
        }
        if let Some(v) = ef {
            if v == 0 {
                return Err(RsortError::InvalidKey("end field must be >= 1".to_owned()));
            }
            if v < f {
                return Err(RsortError::InvalidKey("end field before start field".to_owned()));
            }
        }
        if let Some(v) = sc {
            if v == 0 {
                return Err(RsortError::InvalidKey("start char must be >= 1".to_owned()));
            }
        }
        if let Some(v) = ec {
            if v == 0 {
                return Err(RsortError::InvalidKey("end char must be >= 1".to_owned()));
            }
        }
        if ef == Some(f) {
            if let (Some(a), Some(b)) = (sc, ec) {
                if b < a {
                    return Err(RsortError::InvalidKey("end char before start char".to_owned()));
                }
            }
        }
        Ok(KeySpec { start_field: f, start_char: sc, end_field: ef, end_char: ec })
    }
}

/// One less, stopping at zero.
pub open spec fn sat_dec(x: int) -> int {
    if x >= 1 {
        x - 1
    } else {
        0
    }
}

pub open spec fn imin(a: int, b: int) -> int {
    if a <= b {
        a
    } else {
        b
    }
}

/// The key bytes a specification selects from a record: the span from the
/// (character-adjusted) start of the first selected field to the
/// (character-adjusted) end of the last, clamped to the record. A start
/// field past the last field yields the empty key.
pub open spec fn spec_extract_key(r: Seq<u8>, k: KeySpec, sep: Option<u8>) -> Seq<u8> {
    let fields = spec_fields(r, sep);
    let start_idx = sat_dec(k.start_field as int);
    if start_idx >= fields.len() {
        Seq::empty()
    } else {
        let last = fields.len() - 1;
        let end_idx = match k.end_field {
            Some(f) => imin(sat_dec(f as int), last as int),
            None => last as int,
        };
        let first = fields[start_idx];
        let lastf = fields[end_idx];
        let sco = match k.start_char {
            Some(c) => sat_dec(c as int),
            None => 0,
        };
        let byte_start = imin(first.0 + sco, first.1);
        let byte_end = match k.end_char {
            Some(ec) => imin(lastf.0 + ec, lastf.1),
            None => lastf.1,
        };
        if byte_start <= byte_end {
            r.subrange(byte_start, byte_end)
        } else {
            Seq::empty()
        }
    }
}

/// Extract the key bytes for `key_spec` from `record`.
///
/// Multi-field keys keep the original bytes, separators included, between
/// the two field boundaries; positions past the end clamp instead of
/// failing.
pub fn extract_key(record: &[u8], key_spec: &KeySpec, field_separator: Option<u8>) -> (key: Vec<u8>)
    ensures
        key@ == spec_extract_key(record@, *key_spec, field_separator),
{
    let fields = split_fields_with_positions(record, field_separator);
    proof {
        lemma_spec_fields_bounds(record@, field_separator);
    }
    let start_idx = if key_spec.start_field >= 1 {
        key_spec.start_field - 1
    } else {
        0
    };
    if start_idx >= fields.len() {
        return Vec::new();
    }
    let last = fields.len() - 1;
    let end_idx = match key_spec.end_field {
        Some(f) => {
            let fi = if f >= 1 {
                f - 1
            } else {
                0
            };
            if fi < last {
                fi
            } else {
                last
            }
        },
        None => last,
    };
    proof {
        assert(spans_view(fields@)[start_idx as int] == (
            fields@[start_idx as int].0 as int,
            fields@[start_idx as int].1 as int,
        ));
        assert(spans_view(fields@)[end_idx as int] == (
            fields@[end_idx as int].0 as int,
            fields@[end_idx as int].1 as int,
        ));
    }
    let (fs, fe) = fields[start_idx];
    let (ls, le) = fields[end_idx];
    let sco = match key_spec.start_char {
        Some(c) => if c >= 1 {
            c - 1
        } else {
            0
        },
        None => 0,
    };
    let byte_start = if sco >= fe - fs {
        fe
    } else {
        fs + sco
    };
    let byte_end = match key_spec.end_char {
        Some(ec) => if ec >= le - ls {
            le
        } else {
            ls + ec
        },
        None => le,
    };
    if byte_start <= byte_end {
        slice_to_vec(slice_subrange(record, byte_start, byte_end))
    } else {
        Vec::new()
    }
}

} // verus!
