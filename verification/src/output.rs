//! Serializing the sorted record set, with optional deduplication.
//!
//! Writing the bytes to a file or stream belongs to the caller; this
//! module produces them: records joined by the record delimiter, the
//! trailing delimiter controlled by the caller, and in unique mode only
//! the first record of each run the comparison considers equal.

use vstd::prelude::*;

use core::cmp::Ordering;

use crate::compare::{compare_records, spec_compare_records};
use crate::config::Config;
use crate::{append_bytes, views_of};

verus! {

/// The serialized output: records joined by the delimiter, with a
/// delimiter after the last one only when `add_trailing` is set.
pub open spec fn spec_render(rs: Seq<Seq<u8>>, delim: u8, add_trailing: bool) -> Seq<u8>
    decreases rs.len(),
{
    if rs.len() == 0 {
        Seq::empty()
    } else if rs.len() == 1 {
        rs[0] + (if add_trailing {
            seq![delim]
        } else {
            Seq::<u8>::empty()
        })
    } else {
        rs[0] + seq![delim] + spec_render(rs.skip(1), delim, add_trailing)
    }
}

/// The records surviving deduplication after a kept record `prev`: the
/// first record of each maximal run comparing Equal is kept.
pub open spec fn spec_unique_from(rs: Seq<Seq<u8>>, prev: Seq<u8>, c: Config) -> Seq<Seq<u8>>
    decreases rs.len(),
{
    if rs.len() == 0 {
        Seq::empty()
    } else if spec_compare_records(prev, rs[0], c) == Ordering::Equal {
        spec_unique_from(rs.skip(1), prev, c)
    } else {
        seq![rs[0]] + spec_unique_from(rs.skip(1), rs[0], c)
    }
}

/// The records surviving deduplication: the first of each run of records
/// the comparison considers equal. With unique mode set the comparison
/// itself suppresses the last-resort tie-break, so equal keys suffice.
pub open spec fn spec_unique(rs: Seq<Seq<u8>>, c: Config) -> Seq<Seq<u8>> {
    if rs.len() == 0 {
        Seq::empty()
    } else {
        seq![rs[0]] + spec_unique_from(rs.skip(1), rs[0], c)
    }
}

/// What one more record does to the deduplicated sequence: it is dropped
/// when it compares Equal to the last kept record, else kept.
proof fn lemma_unique_from_push(rs: Seq<Seq<u8>>, prev: Seq<u8>, v: Seq<u8>, c: Config)
    ensures
        spec_unique_from(rs.push(v), prev, c) == ({
            let u = spec_unique_from(rs, prev, c);
            let lastk = if u.len() > 0 {
                u.last()
            } else {
                prev
            };
            if spec_compare_records(lastk, v, c) == Ordering::Equal {
                u
            } else {
                u.push(v)
            }
        }),
    decreases rs.len(),
{
    let u = spec_unique_from(rs, prev, c);
    if rs.len() == 0 {
        assert(rs.push(v) =~= seq![v]);
        assert(seq![v][0] == v);
        assert(seq![v].skip(1) =~= Seq::<Seq<u8>>::empty());
        assert(spec_unique_from(Seq::<Seq<u8>>::empty(), prev, c) == Seq::<Seq<u8>>::empty());
        assert(u == Seq::<Seq<u8>>::empty());
        if spec_compare_records(prev, v, c) == Ordering::Equal {
            assert(spec_unique_from(seq![v], prev, c) == spec_unique_from(
                seq![v].skip(1),
                prev,
                c,
            ));
            assert(spec_unique_from(rs.push(v), prev, c) =~= u);
        } else {
            assert(spec_unique_from(seq![v], prev, c) == seq![v] + spec_unique_from(
                seq![v].skip(1),
                v,
                c,
            ));
            assert(spec_unique_from(Seq::<Seq<u8>>::empty(), v, c) == Seq::<Seq<u8>>::empty());
            assert(spec_unique_from(rs.push(v), prev, c) =~= u.push(v));
        }
    } else {
        assert(rs.push(v)[0] == rs[0]);
        assert(rs.push(v).skip(1) =~= rs.skip(1).push(v));
        if spec_compare_records(prev, rs[0], c) == Ordering::Equal {
            lemma_unique_from_push(rs.skip(1), prev, v, c);
        } else {
            lemma_unique_from_push(rs.skip(1), rs[0], v, c);
            let u1 = spec_unique_from(rs.skip(1), rs[0], c);
            let lastk1 = if u1.len() > 0 {
                u1.last()
            } else {
                rs[0]
            };
            assert(u == seq![rs[0]] + u1);
            assert(u.len() > 0);
            assert(u.last() == lastk1);
            if spec_compare_records(lastk1, v, c) == Ordering::Equal {
            } else {
                assert(spec_unique_from(rs.push(v), prev, c) =~= u.push(v));
            }
        }
    }
}

/// One more record either extends the deduplicated sequence or is dropped.
proof fn lemma_unique_push(rs: Seq<Seq<u8>>, v: Seq<u8>, c: Config)
    ensures
        spec_unique(rs.push(v), c) == ({
            let u = spec_unique(rs, c);
            if u.len() > 0 && spec_compare_records(u.last(), v, c) == Ordering::Equal {
                u
            } else {
                u.push(v)
            }
        }),
{
    if rs.len() == 0 {
        assert(rs.push(v)[0] == v);
        assert(rs.push(v).skip(1) =~= Seq::<Seq<u8>>::empty());
        assert(spec_unique(rs.push(v), c) =~= spec_unique(rs, c).push(v));
    } else {
        assert(rs.push(v)[0] == rs[0]);
        assert(rs.push(v).skip(1) =~= rs.skip(1).push(v));
        lemma_unique_from_push(rs.skip(1), rs[0], v, c);
        let u1 = spec_unique_from(rs.skip(1), rs[0], c);
        let u = spec_unique(rs, c);
        assert(u == seq![rs[0]] + u1);
        assert(u.last() == (if u1.len() > 0 {
            u1.last()
        } else {
            rs[0]
        }));
        if !(spec_compare_records(u.last(), v, c) == Ordering::Equal) {
            assert(spec_unique(rs.push(v), c) =~= u.push(v));
        }
    }
}

/// Serialize all records, without deduplication.
fn write_all(records: &Vec<Vec<u8>>, delimiter: u8, add_trailing: bool) -> (out: Vec<u8>)
    ensures
        out@ == spec_render(views_of(records@), delimiter, add_trailing),
{
    let ghost views = views_of(records@);
    let mut out: Vec<u8> = Vec::new();
    let mut i: usize = 0;
    proof {
        assert(views.skip(0) =~= views);
    }
    while i < records.len()
        invariant
            i <= records@.len(),
            views == views_of(records@),
            out@ + spec_render(views.skip(i as int), delimiter, add_trailing) =~= spec_render(
                views,
                delimiter,
                add_trailing,
            ),
        decreases records@.len() - i,
    {
        append_bytes(&mut out, records[i].as_slice());
        proof {
            assert(views.skip(i as int)[0] == views[i as int]);
            assert(views[i as int] == records@[i as int]@);
            assert(views.skip(i as int).skip(1) =~= views.skip(i + 1));
        }
        if i < records.len() - 1 || add_trailing {
            out.push(delimiter);
        }
        i = i + 1;
    }
    proof {
        assert(spec_render(views.skip(i as int), delimiter, add_trailing) == Seq::<u8>::empty());
        assert(out@ + Seq::<u8>::empty() =~= out@);
    }
    out
}

/// The comparison used for deduplication. It is the full record
/// comparison: with unique mode set it already returns Equal for records
/// whose keys tie, the last-resort comparison being suppressed.
fn compare_for_unique(a: &[u8], b: &[u8], config: &Config) -> (r: Ordering)
    ensures
        r == spec_compare_records(a@, b@, *config),
{
    compare_records(a, b, config)
}

/// Serialize only the records surviving deduplication.
fn write_unique(records: &Vec<Vec<u8>>, config: &Config, delimiter: u8, add_trailing: bool) -> (out:
    Vec<u8>)
    ensures
        out@ == spec_render(spec_unique(views_of(records@), *config), delimiter, add_trailing),
{
    let ghost views = views_of(records@);
    let mut uniq: Vec<Vec<u8>> = Vec::new();
    let mut i: usize = 0;
    proof {
        assert(views.take(0) =~= Seq::<Seq<u8>>::empty());
        assert(views_of(uniq@) =~= spec_unique(views.take(0), *config));
    }
    while i < records.len()
        invariant
            i <= records@.len(),
            views == views_of(records@),
            views_of(uniq@) =~= spec_unique(views.take(i as int), *config),
        decreases records@.len() - i,
    {
        let ghost ut = views_of(uniq@);
        let is_dup = if uniq.len() > 0 {
            matches!(
                compare_for_unique(
                    uniq[uniq.len() - 1].as_slice(),
                    records[i].as_slice(),
                    config,
                ),
                Ordering::Equal
            )
        } else {
            false
        };
        proof {
            assert(views.take(i + 1) =~= views.take(i as int).push(views[i as int]));
            assert(views[i as int] == records@[i as int]@);
            lemma_unique_push(views.take(i as int), views[i as int], *config);
            if uniq@.len() > 0 {
                assert(ut.last() == uniq@.last()@);
            }
        }
        if !is_dup {
            let kept = vstd::slice::slice_to_vec(records[i].as_slice());
            uniq.push(kept);
            proof {
                assert(views_of(uniq@) =~= ut.push(records@[i as int]@));
            }
        }
        i = i + 1;
    }
    proof {
        assert(views.take(views.len() as int) =~= views);
    }
    write_all(&uniq, delimiter, add_trailing)
}

/// Serialize the record set for output: deduplicated when unique mode is
/// set, in full otherwise, joined by the configured record delimiter.
pub fn write_records(records: &Vec<Vec<u8>>, config: &Config, add_trailing: bool) -> (out: Vec<u8>)
    ensures
        out@ == (if config.unique {
            spec_render(
                spec_unique(views_of(records@), *config),
                config.record_delimiter,
                add_trailing,
            )
        } else {
            spec_render(views_of(records@), config.record_delimiter, add_trailing)
        }),
{
    if config.unique {
        write_unique(records, config, config.record_delimiter, add_trailing)
    } else {
        write_all(records, config.record_delimiter, add_trailing)
    }
}

} // verus!
