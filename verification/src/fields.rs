//! Field splitting: a record is cut into half-open byte spans, either at every
//! occurrence of a configured separator byte or at runs of ASCII whitespace
//! (space and tab) when no separator is configured.

use vstd::prelude::*;

verus! {

/// Whitespace for default field splitting: ASCII space and tab only.
pub open spec fn is_ws(b: u8) -> bool {
    b == 32 || b == 9
}

/// Index of the first occurrence of `sep` at or after `i`, or `r.len()`.
pub open spec fn next_sep(r: Seq<u8>, sep: u8, i: int) -> int
    decreases r.len() - i,
{
    if i < 0 || i >= r.len() {
        r.len() as int
    } else if r[i] == sep {
        i
    } else {
        next_sep(r, sep, i + 1)
    }
}

/// Index of the first non-whitespace byte at or after `i`, or `r.len()`.
pub open spec fn next_nonws(r: Seq<u8>, i: int) -> int
    decreases r.len() - i,
{
    if i < 0 || i >= r.len() {
        r.len() as int
    } else if !is_ws(r[i]) {
        i
    } else {
        next_nonws(r, i + 1)
    }
}

/// Index of the first whitespace byte at or after `i`, or `r.len()`.
pub open spec fn next_ws(r: Seq<u8>, i: int) -> int
    decreases r.len() - i,
{
    if i < 0 || i >= r.len() {
        r.len() as int
    } else if is_ws(r[i]) {
        i
    } else {
        next_ws(r, i + 1)
    }
}

pub proof fn lemma_next_sep_bounds(r: Seq<u8>, sep: u8, i: int)
    requires
        0 <= i <= r.len(),
    ensures
        i <= next_sep(r, sep, i) <= r.len(),
        next_sep(r, sep, i) < r.len() ==> r[next_sep(r, sep, i)] == sep,
    decreases r.len() - i,
{
    if i < r.len() && r[i] != sep {
        lemma_next_sep_bounds(r, sep, i + 1);
    }
}

pub proof fn lemma_next_nonws_bounds(r: Seq<u8>, i: int)
    requires
        0 <= i <= r.len(),
    ensures
        i <= next_nonws(r, i) <= r.len(),
        next_nonws(r, i) < r.len() ==> !is_ws(r[next_nonws(r, i)]),
    decreases r.len() - i,
{
    if i < r.len() && is_ws(r[i]) {
        lemma_next_nonws_bounds(r, i + 1);
    }
}

pub proof fn lemma_next_ws_bounds(r: Seq<u8>, i: int)
    requires
        0 <= i <= r.len(),
    ensures
        i <= next_ws(r, i) <= r.len(),
        next_ws(r, i) < r.len() ==> is_ws(r[next_ws(r, i)]),
    decreases r.len() - i,
{
    if i < r.len() && !is_ws(r[i]) {
        lemma_next_ws_bounds(r, i + 1);
    }
}

/// Spans produced by separator splitting from position `start` on: one span
/// ending at each later separator, plus a final span running to the end.
pub open spec fn sep_fields_from(r: Seq<u8>, sep: u8, start: int) -> Seq<(int, int)>
    decreases r.len() - start + 1,
    via sep_fields_from_decreases
{
    if start < 0 || start > r.len() {
        Seq::empty()
    } else {
        let e = next_sep(r, sep, start);
        if e >= r.len() {
            seq![(start, r.len() as int)]
        } else {
            seq![(start, e)] + sep_fields_from(r, sep, e + 1)
        }
    }
}

#[via_fn]
proof fn sep_fields_from_decreases(r: Seq<u8>, sep: u8, start: int) {
    if 0 <= start <= r.len() {
        lemma_next_sep_bounds(r, sep, start);
    }
}

/// Spans of maximal whitespace-free runs from position `i` on.
pub open spec fn ws_fields_from(r: Seq<u8>, i: int) -> Seq<(int, int)>
    decreases r.len() - i,
    via ws_fields_from_decreases
{
    if i < 0 || i > r.len() {
        Seq::empty()
    } else {
        let s = next_nonws(r, i);
        if s >= r.len() {
            Seq::empty()
        } else {
            let e = next_ws(r, s);
            seq![(s, e)] + ws_fields_from(r, e)
        }
    }
}

#[via_fn]
proof fn ws_fields_from_decreases(r: Seq<u8>, i: int) {
    if 0 <= i <= r.len() {
        lemma_next_nonws_bounds(r, i);
        let s = next_nonws(r, i);
        if s < r.len() {
            lemma_next_ws_bounds(r, s + 1);
        }
    }
}

/// The field spans of `r` under the given separator policy.
///
/// With a separator byte, a record with N separators yields exactly N + 1
/// spans, empty ones included. Without one, fields are maximal runs of
/// non-whitespace bytes, and a record with no such run yields the single
/// empty span [0, 0) so that key extraction never indexes out of bounds.
pub open spec fn spec_fields(r: Seq<u8>, separator: Option<u8>) -> Seq<(int, int)> {
    match separator {
        Some(sep) => sep_fields_from(r, sep, 0),
        None => {
            let f = ws_fields_from(r, 0);
            if f.len() == 0 {
                seq![(0int, 0int)]
            } else {
                f
            }
        },
    }
}

pub proof fn lemma_sep_fields_bounds(r: Seq<u8>, sep: u8, start: int)
    requires
        0 <= start <= r.len(),
    ensures
        sep_fields_from(r, sep, start).len() >= 1,
        forall|k: int|
            0 <= k < sep_fields_from(r, sep, start).len() ==> {
                let f = #[trigger] sep_fields_from(r, sep, start)[k];
                start <= f.0 <= f.1 <= r.len()
            },
    decreases r.len() - start,
{
    lemma_next_sep_bounds(r, sep, start);
    let e = next_sep(r, sep, start);
    if e < r.len() {
        lemma_sep_fields_bounds(r, sep, e + 1);
    }
}

pub proof fn lemma_ws_fields_bounds(r: Seq<u8>, i: int)
    requires
        0 <= i <= r.len(),
    ensures
        forall|k: int|
            0 <= k < ws_fields_from(r, i).len() ==> {
                let f = #[trigger] ws_fields_from(r, i)[k];
                i <= f.0 <= f.1 <= r.len()
            },
    decreases r.len() - i,
{
    lemma_next_nonws_bounds(r, i);
    let s = next_nonws(r, i);
    if s < r.len() {
        lemma_next_ws_bounds(r, s);
        let e = next_ws(r, s);
        assert(e > s) by {
            assert(!is_ws(r[s]));
        }
        lemma_ws_fields_bounds(r, e);
        let whole = ws_fields_from(r, i);
        let rest = ws_fields_from(r, e);
        assert forall|k: int| 0 <= k < whole.len() implies {
            let f = #[trigger] whole[k];
            i <= f.0 <= f.1 <= r.len()
        } by {
            if k > 0 {
                assert(whole[k] == rest[k - 1]);
            }
        }
    }
}

/// Every span of `spec_fields` lies inside the record, start before end,
/// and there is always at least one span.
pub proof fn lemma_spec_fields_bounds(r: Seq<u8>, separator: Option<u8>)
    ensures
        spec_fields(r, separator).len() >= 1,
        forall|k: int|
            0 <= k < spec_fields(r, separator).len() ==> {
                let f = #[trigger] spec_fields(r, separator)[k];
                0 <= f.0 <= f.1 <= r.len()
            },
{
    match separator {
        Some(sep) => {
            lemma_sep_fields_bounds(r, sep, 0);
        },
        None => {
            lemma_ws_fields_bounds(r, 0);
        },
    }
}

/// The integer view of an executable span list.
pub open spec fn spans_view(fields: Seq<(usize, usize)>) -> Seq<(int, int)> {
    fields.map(|_k: int, p: (usize, usize)| (p.0 as int, p.1 as int))
}

/// First occurrence of byte `b` in `r` at or after `from`, or `r.len()`.
pub fn find_byte(r: &[u8], b: u8, from: usize) -> (i: usize)
    requires
        from <= r@.len(),
    ensures
        i == next_sep(r@, b, from as int),
        from <= i <= r@.len(),
        i < r@.len() ==> r@[i as int] == b,
{
    let mut i = from;
    while i < r.len()
        invariant
            from <= i <= r@.len(),
            next_sep(r@, b, from as int) == next_sep(r@, b, i as int),
        decreases r@.len() - i,
    {
        if r[i] == b {
            return i;
        }
        i = i + 1;
    }
    i
}

/// Split a record into its field spans.
///
/// The resulting spans are exactly `spec_fields(record@, separator)`.
pub fn split_fields_with_positions(record: &[u8], separator: Option<u8>) -> (fields: Vec<
    (usize, usize),
>)
    ensures
        spans_view(fields@) =~= spec_fields(record@, separator),
{
    let mut fields: Vec<(usize, usize)> = Vec::new();
    match separator {
        Some(sep) => {
            let mut start: usize = 0;
            loop
                invariant_except_break
                    start <= record@.len(),
                    spans_view(fields@) + sep_fields_from(record@, sep, start as int)
                        =~= sep_fields_from(record@, sep, 0),
                ensures
                    spans_view(fields@) =~= sep_fields_from(record@, sep, 0),
                decreases record@.len() - start + 1,
            {
                let e = find_byte(record, sep, start);
                fields.push((start, e));
                proof {
                    assert(spans_view(fields@) =~= spans_view(fields@.drop_last()).push(
                        (start as int, e as int),
                    ));
                }
                if e == record.len() {
                    break;
                }
                start = e + 1;
            }
        },
        None => {
            let mut start: usize = 0;
            loop
                invariant_except_break
                    start <= record@.len(),
                    spans_view(fields@) + ws_fields_from(record@, start as int) =~= ws_fields_from(
                        record@,
                        0,
                    ),
                ensures
                    spans_view(fields@) =~= ws_fields_from(record@, 0),
                decreases record@.len() - start,
            {
                // scan to the next non-whitespace byte
                let mut s = start;
                while s < record.len() && (record[s] == 32 || record[s] == 9)
                    invariant
                        start <= s <= record@.len(),
                        next_nonws(record@, start as int) == next_nonws(record@, s as int),
                    decreases record@.len() - s,
                {
                    s = s + 1;
                }
                if s == record.len() {
                    break;
                }
                // scan to the end of the whitespace-free run
                let mut e = s;
                while e < record.len() && !(record[e] == 32 || record[e] == 9)
                    invariant
                        s <= e <= record@.len(),
                        next_ws(record@, s as int) == next_ws(record@, e as int),
                    decreases record@.len() - e,
                {
                    e = e + 1;
                }
                fields.push((s, e));
                proof {
                    assert(spans_view(fields@) =~= spans_view(fields@.drop_last()).push(
                        (s as int, e as int),
                    ));
                    assert(!is_ws(record@[s as int]));
                }
                start = e;
            }
            if fields.len() == 0 {
                fields.push((0, 0));
                proof {
                    assert(spans_view(fields@) =~= seq![(0int, 0int)]);
                }
            }
        },
    }
    fields
}

} // verus!
