//! Splitting a byte stream into records at a delimiter byte.
//!
//! Reading the stream from a file or a pipe belongs to the caller; this
//! module splits the already-materialized bytes. A trailing delimiter ends
//! the last record; bytes after the last delimiter form a record of their
//! own.

use vstd::prelude::*;
use vstd::slice::{slice_subrange, slice_to_vec};

use crate::fields::{find_byte, lemma_next_sep_bounds, next_sep};
use crate::views_of;

verus! {

/// The records of a byte stream: the delimiter ends each record, and an
/// undelimited tail still forms one; empty input has no records.
pub open spec fn spec_split_records(d: Seq<u8>, delim: u8) -> Seq<Seq<u8>>
    decreases d.len(),
    via spec_split_records_decreases
{
    if d.len() == 0 {
        Seq::empty()
    } else {
        let e = next_sep(d, delim, 0);
        if e >= d.len() {
            seq![d]
        } else {
            seq![d.subrange(0, e)] + spec_split_records(d.subrange(e + 1, d.len() as int), delim)
        }
    }
}

#[via_fn]
proof fn spec_split_records_decreases(d: Seq<u8>, delim: u8) {
    if d.len() > 0 {
        lemma_next_sep_bounds(d, delim, 0);
    }
}

/// The first suffix position of the delimiter determines the first record.
proof fn lemma_next_sep_from(s: Seq<u8>, delim: u8, p: int, i: int)
    requires
        0 <= p,
        0 <= i,
        p + i <= s.len(),
    ensures
        next_sep(s.skip(p), delim, i) == next_sep(s, delim, p + i) - p,
    decreases s.len() - p - i,
{
    if p + i < s.len() {
        assert(s.skip(p)[i] == s[p + i]);
        if s[p + i] != delim {
            lemma_next_sep_from(s, delim, p, i + 1);
        }
    }
}

/// Reads records out of an in-memory input, splitting on a delimiter.
pub struct RecordReader {
    data: Vec<u8>,
    pos: usize,
    delimiter: u8,
    last_had_delimiter: bool,
}

impl RecordReader {
    /// The read position never passes the end of the data.
    pub closed spec fn wf(self) -> bool {
        self.pos <= self.data@.len()
    }

    /// The bytes not yet read.
    pub closed spec fn remaining_bytes(self) -> Seq<u8> {
        self.data@.skip(self.pos as int)
    }

    /// The delimiter the reader splits on.
    pub closed spec fn spec_delimiter(self) -> u8 {
        self.delimiter
    }

    /// The records not yet read.
    pub closed spec fn remaining(self) -> Seq<Seq<u8>> {
        spec_split_records(self.data@.skip(self.pos as int), self.delimiter)
    }

    /// Whether the most recently read record ended in the delimiter.
    pub closed spec fn spec_last_had_delimiter(self) -> bool {
        self.last_had_delimiter
    }

    pub fn new(data: Vec<u8>, delimiter: u8) -> (r: RecordReader)
        ensures
            r.wf(),
            r.remaining() == spec_split_records(data@, delimiter),
            r.spec_last_had_delimiter(),
    {
        let r = RecordReader { data, pos: 0, delimiter, last_had_delimiter: true };
        proof {
            assert(r.data@.skip(0) =~= r.data@);
        }
        r
    }

    /// Read the next record, or None at the end of the input. The record
    /// comes without its delimiter; the delimiter flag says whether one was
    /// consumed after it.
    pub fn read_record(&mut self) -> (r: Option<Vec<u8>>)
        requires
            old(self).wf(),
        ensures
            final(self).wf(),
            final(self).spec_delimiter() == old(self).spec_delimiter(),
            match r {
                Some(rec) => {
                    &&& old(self).remaining().len() > 0
                    &&& rec@ == old(self).remaining()[0]
                    &&& final(self).remaining() == old(self).remaining().skip(1)
                    &&& if final(self).spec_last_had_delimiter() {
                        old(self).remaining_bytes() == rec@ + seq![old(self).spec_delimiter()]
                            + final(self).remaining_bytes()
                    } else {
                        old(self).remaining_bytes() == rec@ && final(self).remaining_bytes()
                            == Seq::<u8>::empty()
                    }
                },
                None => {
                    &&& old(self).remaining().len() == 0
                    &&& final(self).remaining() == old(self).remaining()
                },
            },
    {
        let ghost rem = self.remaining();
        let ghost tail = self.data@.skip(self.pos as int);
        if self.pos == self.data.len() {
            proof {
                assert(tail.len() == 0);
            }
            return None;
        }
        let e = find_byte(self.data.as_slice(), self.delimiter, self.pos);
        proof {
            lemma_next_sep_from(self.data@, self.delimiter, self.pos as int, 0);
            assert(next_sep(tail, self.delimiter, 0) == e - self.pos);
        }
        let rec = slice_to_vec(slice_subrange(self.data.as_slice(), self.pos, e));
        proof {
            assert(rec@ =~= tail.subrange(0, e - self.pos));
            if e == self.data@.len() {
                assert(tail.subrange(0, e - self.pos) =~= tail);
            }
        }
        if e == self.data.len() {
            self.last_had_delimiter = false;
            self.pos = e;
            proof {
                assert(rem == seq![tail]);
                assert(self.data@.skip(self.pos as int) =~= Seq::<u8>::empty());
                assert(self.data@.skip(self.pos as int).len() == 0);
                assert(final (self).remaining() == rem.skip(1)) by {
                    assert(rem.skip(1) =~= Seq::<Seq<u8>>::empty());
                }
            }
        } else {
            self.last_had_delimiter = true;
            self.pos = e + 1;
            proof {
                assert(self.data@.skip(self.pos as int) =~= tail.subrange(
                    e - old(self).pos + 1,
                    tail.len() as int,
                ));
                assert(tail =~= rec@ + seq![self.delimiter] + tail.subrange(
                    e - old(self).pos + 1,
                    tail.len() as int,
                )) by {
                    assert(tail[e - old(self).pos] == self.data@[e as int]);
                }
                assert(rem == seq![tail.subrange(0, e - old(self).pos)] + spec_split_records(
                    tail.subrange(e - old(self).pos + 1, tail.len() as int),
                    self.delimiter,
                ));
                assert(final (self).remaining() == rem.skip(1)) by {
                    assert((seq![tail.subrange(0, e - old(self).pos)] + spec_split_records(
                        tail.subrange(e - old(self).pos + 1, tail.len() as int),
                        self.delimiter,
                    )).skip(1) =~= spec_split_records(
                        tail.subrange(e - old(self).pos + 1, tail.len() as int),
                        self.delimiter,
                    ));
                }
            }
        }
        Some(rec)
    }

    /// Whether the last read record had a trailing delimiter.
    pub fn last_had_delimiter(&self) -> (b: bool)
        ensures
            b == self.spec_last_had_delimiter(),
    {
        self.last_had_delimiter
    }
}

/// Read every record of the input. The second component is always true:
/// output always gets a trailing delimiter, as the reference tool writes
/// one whatever the input ended with.
pub fn read_all_records(data: &[u8], delimiter: u8) -> (r: (Vec<Vec<u8>>, bool))
    ensures
        views_of(r.0@) == spec_split_records(data@, delimiter),
        r.1,
{
    let mut records: Vec<Vec<u8>> = Vec::new();
    let mut reader = RecordReader::new(slice_to_vec(data), delimiter);
    proof {
        assert(views_of(records@) + reader.remaining() =~= spec_split_records(data@, delimiter));
    }
    loop
        invariant_except_break
            reader.wf(),
            views_of(records@) + reader.remaining() =~= spec_split_records(data@, delimiter),
        ensures
            views_of(records@) == spec_split_records(data@, delimiter),
        decreases reader.remaining().len(),
    {
        let ghost before = views_of(records@);
        match reader.read_record() {
            Some(rec) => {
                records.push(rec);
                proof {
                    assert(views_of(records@) =~= before.push(records@.last()@));
                    assert(views_of(records@) + reader.remaining() =~= spec_split_records(
                        data@,
                        delimiter,
                    ));
                }
            },
            None => {
                proof {
                    assert(views_of(records@) =~= spec_split_records(data@, delimiter));
                }
                break;
            },
        }
    }
    (records, true)
}

} // verus!
