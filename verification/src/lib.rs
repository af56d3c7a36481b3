//! A byte-exact reimplementation of the classic Unix line-sorting semantics:
//! key extraction, numeric and case-folded comparison, last-resort tie-break,
//! and the surrounding record pipeline, with machine-checked contracts.

use vstd::prelude::*;

pub mod arena;
pub mod cli;
pub mod compare;
pub mod config;
pub mod debug;
pub mod digits;
pub mod error;
pub mod fields;
pub mod input;
pub mod key;
pub mod numeric;
pub mod output;
pub mod sort;

verus! {

/// The byte sequences of a sequence of records.
pub open spec fn views_of(rs: Seq<Vec<u8>>) -> Seq<Seq<u8>> {
    rs.map(|_i: int, r: Vec<u8>| r@)
}

/// Appending a record appends its byte sequence to the views.
pub proof fn lemma_views_push(s: Seq<Vec<u8>>, v: Vec<u8>)
    ensures
        views_of(s.push(v)) =~= views_of(s).push(v@),
{
    assert forall|j: int| 0 <= j < s.len() + 1 implies views_of(s.push(v))[j] == views_of(s).push(
        v@,
    )[j] by {
        assert(views_of(s.push(v))[j] == s.push(v)[j]@);
        if j < s.len() {
            assert(s.push(v)[j] == s[j]);
            assert(views_of(s)[j] == s[j]@);
        } else {
            assert(s.push(v)[j] == v);
        }
    }
}

/// Append the bytes of a slice to a vector.
pub fn append_bytes(out: &mut Vec<u8>, bytes: &[u8])
    ensures
        final(out)@ == old(out)@ + bytes@,
{
    let ghost base = out@;
    let mut k: usize = 0;
    while k < bytes.len()
        invariant
            k <= bytes@.len(),
            out@ =~= base + bytes@.take(k as int),
        decreases bytes@.len() - k,
    {
        out.push(bytes[k]);
        proof {
            assert(out@ =~= base + bytes@.take(k + 1));
        }
        k = k + 1;
    }
    proof {
        assert(bytes@.take(bytes@.len() as int) =~= bytes@);
    }
}

} // verus!
