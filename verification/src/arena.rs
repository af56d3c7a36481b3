//! Arena-based record storage with byte accounting.
//!
//! A flat append-only store for the records of one sort run.

use vstd::prelude::*;

verus! {

/// Stores records and tracks the total number of bytes held.
pub struct Arena {
    /// Raw record data.
    records: Vec<Vec<u8>>,
    /// Total bytes stored.
    total_bytes: usize,
}

impl Arena {
    /// Sum of the lengths of a sequence of records.
    pub open spec fn sum_lens(rs: Seq<Seq<u8>>) -> int
        decreases rs.len(),
    {
        if rs.len() == 0 {
            0
        } else {
            Self::sum_lens(rs.drop_last()) + rs.last().len()
        }
    }

    /// The records currently held, in insertion order.
    pub closed spec fn view_records(self) -> Seq<Seq<u8>> {
        self.records.deep_view()
    }

    /// The byte count the arena reports.
    pub closed spec fn spec_bytes_used(self) -> int {
        self.total_bytes as int
    }

    /// The accounting invariant: the byte count is the sum of the record lengths.
    pub open spec fn wf(self) -> bool {
        self.spec_bytes_used() == Self::sum_lens(self.view_records())
    }

    pub fn new() -> (a: Arena)
        ensures
            a.wf(),
            a.view_records() =~= Seq::<Seq<u8>>::empty(),
            a.spec_bytes_used() == 0,
    {
        Arena { records: Vec::new(), total_bytes: 0 }
    }

    /// Add a record to the arena.
    pub fn push(&mut self, record: Vec<u8>)
        requires
            old(self).wf(),
            old(self).spec_bytes_used() + record@.len() <= usize::MAX,
        ensures
            final(self).wf(),
            final(self).view_records() =~= old(self).view_records().push(record@),
            final(self).spec_bytes_used() == old(self).spec_bytes_used() + record@.len(),
    {
        proof {
            assert(self.records.deep_view().push(record@).drop_last() =~~= self.records.deep_view());
        }
        self.total_bytes = self.total_bytes + record.len();
        self.records.push(record);
        proof {
            assert(self.records.deep_view() =~~= old(self).records.deep_view().push(record@));
        }
    }

    /// Total bytes stored.
    pub fn bytes_used(&self) -> (n: usize)
        ensures
            n == self.spec_bytes_used(),
    {
        self.total_bytes
    }

    /// Number of records.
    pub fn len(&self) -> (n: usize)
        ensures
            n == self.view_records().len(),
    {
        self.records.len()
    }

    /// Whether the arena holds no records.
    pub fn is_empty(&self) -> (b: bool)
        ensures
            b == (self.view_records().len() == 0),
    {
        self.records.len() == 0
    }

    /// Mutable access to the records, for sorting in place.
    ///
    /// Mutation through the result can change the stored bytes, so the
    /// accounting invariant is not promised afterwards.
    pub fn records_mut(&mut self) -> (r: &mut Vec<Vec<u8>>)
        ensures
            r.deep_view() == old(self).view_records(),
            final(self).view_records() == final(r).deep_view(),
    {
        &mut self.records
    }

    /// Consume the arena and return its records.
    pub fn into_records(self) -> (r: Vec<Vec<u8>>)
        ensures
            r.deep_view() == self.view_records(),
    {
        self.records
    }
}

} // verus!
