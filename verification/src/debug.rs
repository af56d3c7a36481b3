//! The debug span renderer: for each record, the record itself followed by
//! one underline row per configured key, marking exactly the byte offsets
//! the comparator would extract. The offsets come from the same field
//! splitting and key resolution the comparator uses, so the annotation
//! cannot disagree with it.

use vstd::prelude::*;
use vstd::slice::slice_to_vec;

use crate::config::Config;
use crate::fields::{lemma_spec_fields_bounds, spec_fields, spans_view, split_fields_with_positions};
use crate::key::{extract_key, imin, sat_dec, spec_extract_key, KeySpec};
use crate::views_of;

verus! {

/// `n` copies of one byte.
pub open spec fn repeat_byte(b: u8, n: int) -> Seq<u8> {
    Seq::new(if n >= 0 {
        n as nat
    } else {
        0
    }, |_i: int| b)
}

/// The marker row for a key whose start field is missing from the record.
pub open spec fn no_match_marker() -> Seq<u8> {
    seq![94u8, 32, 110, 111, 32, 109, 97, 116, 99, 104, 32, 102, 111, 114, 32, 107, 101, 121]
}

/// The column at which a key's span begins: the start of its start field
/// plus the character offset, clamped to the field's end — the same
/// start-offset arithmetic `spec_extract_key` uses, so the rendered column
/// is exactly the byte offset at which the comparator's key begins. A
/// missing start field gives no position.
pub open spec fn spec_find_key_position(line: Seq<u8>, k: KeySpec, sep: Option<u8>) -> Option<int> {
    let fields = spec_fields(line, sep);
    let idx = sat_dec(k.start_field as int);
    if idx >= fields.len() {
        None
    } else {
        let sco = match k.start_char {
            Some(c) => sat_dec(c as int),
            None => 0,
        };
        Some(imin(fields[idx].0 + sco, fields[idx].1))
    }
}

/// Lock-step alignment: for a key that extracts a non-empty result, the
/// rendered column is exactly the byte offset at which the extracted key
/// sits inside the record — the renderer and the comparator can never
/// disagree about where a key begins.
pub proof fn lemma_key_row_aligned(line: Seq<u8>, k: KeySpec, sep: Option<u8>)
    requires
        spec_extract_key(line, k, sep).len() > 0,
    ensures
        ({
            let key = spec_extract_key(line, k, sep);
            match spec_find_key_position(line, k, sep) {
                Some(pos) => 0 <= pos && pos + key.len() <= line.len() && line.subrange(
                    pos,
                    pos + key.len() as int,
                ) == key,
                None => false,
            }
        }),
{
    lemma_spec_fields_bounds(line, sep);
    let fields = spec_fields(line, sep);
    let idx = sat_dec(k.start_field as int);
    assert(idx < fields.len());
    let key = spec_extract_key(line, k, sep);
    let pos = spec_find_key_position(line, k, sep)->Some_0;
    assert(line.subrange(pos, pos + key.len() as int) =~= key);
}

/// The underline row for one key: spaces up to the key's column, then one
/// underscore per key byte; the marker row when the key is empty.
pub open spec fn spec_key_row(line: Seq<u8>, k: KeySpec, c: Config) -> Seq<u8> {
    let key = spec_extract_key(line, k, c.field_separator);
    if key.len() == 0 {
        no_match_marker()
    } else {
        match spec_find_key_position(line, k, c.field_separator) {
            Some(pos) => repeat_byte(32, pos) + repeat_byte(95, key.len() as int),
            None => repeat_byte(95, key.len() as int),
        }
    }
}

/// The annotation block for one record: the record, then one full-width
/// underline when no keys are configured, else one row per key.
pub open spec fn spec_debug_line(line: Seq<u8>, c: Config) -> Seq<Seq<u8>> {
    if c.keys@.len() == 0 {
        seq![line, repeat_byte(95, if line.len() >= 1 {
            line.len() as int
        } else {
            1
        })]
    } else {
        seq![line] + Seq::new(c.keys@.len(), |i: int| spec_key_row(line, c.keys@[i], c))
    }
}

/// The annotation blocks of all records, in order.
pub open spec fn spec_debug_input(rs: Seq<Seq<u8>>, c: Config) -> Seq<Seq<u8>>
    decreases rs.len(),
{
    if rs.len() == 0 {
        Seq::empty()
    } else {
        spec_debug_line(rs[0], c) + spec_debug_input(rs.skip(1), c)
    }
}

/// A vector of `n` copies of one byte.
fn repeat_bytes(b: u8, n: usize) -> (v: Vec<u8>)
    ensures
        v@ == repeat_byte(b, n as int),
{
    let mut v: Vec<u8> = Vec::new();
    let mut k: usize = 0;
    while k < n
        invariant
            k <= n,
            v@ =~= repeat_byte(b, k as int),
        decreases n - k,
    {
        v.push(b);
        proof {
            assert(v@ =~= repeat_byte(b, k + 1));
        }
        k = k + 1;
    }
    v
}

/// The column position of a key within the record, clamped into its start
/// field, if that field exists.
pub fn find_key_position(line: &[u8], _key: &[u8], key_spec: &KeySpec, config: &Config) -> (r:
    Option<usize>)
    ensures
        match r {
            Some(p) => spec_find_key_position(line@, *key_spec, config.field_separator) == Some(
                p as int,
            ),
            None => spec_find_key_position(line@, *key_spec, config.field_separator) is None,
        },
{
    let fields = split_fields_with_positions(line, config.field_separator);
    proof {
        lemma_spec_fields_bounds(line@, config.field_separator);
    }
    let field_idx = if key_spec.start_field >= 1 {
        key_spec.start_field - 1
    } else {
        0
    };
    if field_idx >= fields.len() {
        return None;
    }
    proof {
        assert(spans_view(fields@)[field_idx as int] == (
            fields@[field_idx as int].0 as int,
            fields@[field_idx as int].1 as int,
        ));
    }
    let (field_start, field_end) = fields[field_idx];
    let char_offset = match key_spec.start_char {
        Some(c) => if c >= 1 {
            c - 1
        } else {
            0
        },
        None => 0,
    };
    if char_offset >= field_end - field_start {
        Some(field_end)
    } else {
        Some(field_start + char_offset)
    }
}

/// The annotation block for one record.
pub fn debug_line(line: &[u8], config: &Config) -> (out: Vec<Vec<u8>>)
    ensures
        views_of(out@) == spec_debug_line(line@, *config),
{
    let mut out: Vec<Vec<u8>> = Vec::new();
    out.push(slice_to_vec(line));
    if config.keys.len() == 0 {
        let width = if line.len() >= 1 {
            line.len()
        } else {
            1
        };
        out.push(repeat_bytes(95, width));
        proof {
            assert(views_of(out@) =~= spec_debug_line(line@, *config));
        }
        return out;
    }
    let ghost rows = Seq::new(
        config.keys@.len(),
        |i: int| spec_key_row(line@, config.keys@[i], *config),
    );
    let mut i: usize = 0;
    while i < config.keys.len()
        invariant
            i <= config.keys@.len(),
            out@.len() == i + 1,
            views_of(out@)[0] == line@,
            rows == Seq::new(
                config.keys@.len(),
                |k: int| spec_key_row(line@, config.keys@[k], *config),
            ),
            forall|k: int| 0 <= k < i ==> views_of(out@)[k + 1] == rows[k],
        decreases config.keys@.len() - i,
    {
        let key = extract_key(line, &config.keys[i], config.field_separator);
        let row: Vec<u8> = if key.len() == 0 {
            let ghost marker = no_match_marker();
            let mut m: Vec<u8> = Vec::new();
            m.push(94);
            m.push(32);
            m.push(110);
            m.push(111);
            m.push(32);
            m.push(109);
            m.push(97);
            m.push(116);
            m.push(99);
            m.push(104);
            m.push(32);
            m.push(102);
            m.push(111);
            m.push(114);
            m.push(32);
            m.push(107);
            m.push(101);
            m.push(121);
            proof {
                assert(m@ =~= marker);
            }
            m
        } else {
            match find_key_position(line, key.as_slice(), &config.keys[i], config) {
                Some(pos) => {
                    let mut r = repeat_bytes(32, pos);
                    let underline = repeat_bytes(95, key.len());
                    let ghost before = r@;
                    crate::append_bytes(&mut r, underline.as_slice());
                    proof {
                        assert(r@ == repeat_byte(32, pos as int) + repeat_byte(
                            95,
                            key@.len() as int,
                        ));
                    }
                    r
                },
                None => repeat_bytes(95, key.len()),
            }
        };
        out.push(row);
        proof {
            assert(views_of(out@)[i + 1] == rows[i as int]);
            assert(views_of(out@)[0] == line@);
            assert(forall|k: int|
                0 <= k < i ==> views_of(out@)[k + 1] == #[trigger] views_of(
                    out@.drop_last(),
                )[k + 1]);
        }
        i = i + 1;
    }
    proof {
        assert(views_of(out@) =~= seq![line@] + rows);
    }
    out
}

/// The annotation blocks for every record, in input order.
pub fn debug_input(records: &Vec<Vec<u8>>, config: &Config) -> (out: Vec<Vec<u8>>)
    ensures
        views_of(out@) == spec_debug_input(views_of(records@), *config),
{
    let ghost views = views_of(records@);
    let mut out: Vec<Vec<u8>> = Vec::new();
    let mut i: usize = 0;
    proof {
        assert(views.skip(0) =~= views);
    }
    while i < records.len()
        invariant
            i <= records@.len(),
            views == views_of(records@),
            views_of(out@) + spec_debug_input(views.skip(i as int), *config) =~= spec_debug_input(
                views,
                *config,
            ),
        decreases records@.len() - i,
    {
        let ghost before = views_of(out@);
        let block = debug_line(records[i].as_slice(), config);
        let mut k: usize = 0;
        while k < block.len()
            invariant
                k <= block@.len(),
                views_of(out@) =~= before + views_of(block@).take(k as int),
            decreases block@.len() - k,
        {
            let ghost pre = out@;
            let rec = slice_to_vec(block[k].as_slice());
            let ghost recg = rec;
            out.push(rec);
            proof {
                crate::lemma_views_push(pre, recg);
                assert(views_of(block@).take(k + 1) =~= views_of(block@).take(k as int).push(
                    views_of(block@)[k as int],
                ));
                assert(views_of(block@)[k as int] == block@[k as int]@);
                assert(views_of(out@) =~= before + views_of(block@).take(k + 1));
            }
            k = k + 1;
        }
        proof {
            assert(views_of(block@).take(block@.len() as int) =~= views_of(block@));
            assert(views.skip(i as int)[0] == views[i as int]);
            assert(views[i as int] == records@[i as int]@);
            assert(views.skip(i as int).skip(1) =~= views.skip(i + 1));
        }
        i = i + 1;
    }
    proof {
        assert(spec_debug_input(views.skip(i as int), *config) == Seq::<Seq<u8>>::empty());
        assert(views_of(out@) + Seq::<Seq<u8>>::empty() =~= views_of(out@));
    }
    out
}

} // verus!
