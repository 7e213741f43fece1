//! The index of a log: where the record of each decree starts.

use vstd::prelude::*;

use super::RecordInfo;
use crate::messages::MSG_VOTE;
use crate::text::{number_string, number_text};

verus! {

/// A vote that does not follow the highest decree of the index.
#[derive(Clone, Copy, Debug, PartialEq, Eq, Structural)]
pub struct IndexError {
    /// The decree that was offered.
    pub decree: u64,
    /// The highest decree in the index.
    pub max_decree: u64,
}

impl IndexError {
    /// The wording of the error.
    pub open spec fn wording(self) -> Seq<char> {
        "vote for decree "@ + number_text(self.decree as nat) + " is not "@ + number_text(
            self.max_decree as nat,
        ) + " or "@ + number_text((self.max_decree + 1) as nat) + " (out of sequence)"@
    }

    /// The error in words.
    pub fn message(self) -> (r: String)
        requires
            self.max_decree < u64::MAX,
        ensures
            r@ == self.wording(),
    {
        let mut r = "vote for decree ".to_owned();
        r.append(number_string(self.decree).as_str());
        r.append(" is not ");
        r.append(number_string(self.max_decree).as_str());
        r.append(" or ");
        r.append(number_string(self.max_decree + 1).as_str());
        r.append(" (out of sequence)");
        r
    }
}

/// An index as plain values.
pub struct IndexView {
    /// The lowest decree, 0 if there is none.
    pub min_decree: int,
    /// The offset of each decree's record, from the lowest on.
    pub offsets: Seq<u64>,
    /// The length of all records.
    pub data_len: int,
}

impl IndexView {
    /// The index of an empty log.
    pub open spec fn none() -> IndexView {
        IndexView { min_decree: 0, offsets: Seq::empty(), data_len: 0 }
    }

    /// The highest decree, 0 if there is none.
    pub open spec fn max_decree(self) -> int {
        if self.offsets.len() == 0 {
            0
        } else {
            self.min_decree + self.offsets.len() - 1
        }
    }

    /// The index holds `decree`.
    pub open spec fn has(self, decree: int) -> bool {
        self.min_decree <= decree < self.min_decree + self.offsets.len()
    }

    /// The record of `decree` may come next. Only votes have to come in order:
    /// the highest decree again, or the one after it.
    pub open spec fn takes(self, msg_id: u16, decree: u64) -> bool {
        msg_id != MSG_VOTE || self.offsets.len() == 0 || decree == self.max_decree() || decree
            == self.max_decree() + 1
    }

    /// The index with one more record, which it must take.
    pub open spec fn with(self, msg_id: u16, decree: u64, padded_len: u32) -> IndexView {
        let data_len = self.data_len + padded_len;
        if msg_id != MSG_VOTE {
            IndexView { data_len, ..self }
        } else if self.offsets.len() == 0 {
            IndexView {
                min_decree: decree as int,
                offsets: seq![self.data_len as u64],
                data_len,
            }
        } else if decree == self.max_decree() {
            IndexView {
                offsets: self.offsets.drop_last().push(self.data_len as u64),
                data_len,
                ..self
            }
        } else {
            IndexView { offsets: self.offsets.push(self.data_len as u64), data_len, ..self }
        }
    }

    /// The offsets ascend and stay inside the data, the decrees fit a `u64`, and
    /// an index without decrees starts at 0.
    pub open spec fn ok(self) -> bool {
        &&& 0 <= self.min_decree
        &&& self.min_decree + self.offsets.len() <= u64::MAX + 1
        &&& self.offsets.len() == 0 ==> self.min_decree == 0
        &&& 0 <= self.data_len <= u64::MAX
        &&& forall|i: int, j: int|
            0 <= i <= j < self.offsets.len() ==> self.offsets[i] <= self.offsets[j]
        &&& forall|i: int| 0 <= i < self.offsets.len() ==> self.offsets[i] <= self.data_len
    }
}

/// Where the record of each decree starts in one log.
///
/// Only votes are indexed. Their decrees are contiguous, so the index is a list
/// of offsets from the lowest decree on. A second vote on the highest decree
/// replaces the first, so a lookup finds the last record of a decree.
#[derive(Debug, PartialEq, Eq)]
pub struct DecreeIndex {
    min_decree: u64,
    offsets: Vec<u64>,
    data_len: u64,
}

impl View for DecreeIndex {
    type V = IndexView;

    closed spec fn view(&self) -> IndexView {
        IndexView {
            min_decree: self.min_decree as int,
            offsets: self.offsets@,
            data_len: self.data_len as int,
        }
    }
}

impl Clone for DecreeIndex {
    fn clone(&self) -> (r: DecreeIndex)
        ensures
            r@ == self@,
    {
        proof {
            use_type_invariant(self);
        }
        DecreeIndex {
            min_decree: self.min_decree,
            offsets: vstd::slice::slice_to_vec(self.offsets.as_slice()),
            data_len: self.data_len,
        }
    }
}

impl Default for DecreeIndex {
    fn default() -> (r: DecreeIndex)
        ensures
            r@ == IndexView::none(),
    {
        DecreeIndex { min_decree: 0, offsets: Vec::new(), data_len: 0 }
    }
}

impl DecreeIndex {
    /// What holds of every index.
    #[verifier::type_invariant]
    pub open spec fn wf(self) -> bool {
        self@.ok()
    }

    /// The index of an empty log.
    pub fn new() -> (r: DecreeIndex)
        ensures
            r@ == IndexView::none(),
    {
        DecreeIndex::default()
    }

    /// Takes account of a record of `padded_len` bytes, and indexes it if it is
    /// a vote. A vote out of order changes nothing.
    pub fn add_message(&mut self, msg_id: u16, decree: u64, padded_len: u32) -> (r: Result<
        (),
        IndexError,
    >)
        requires
            old(self)@.data_len + padded_len <= u64::MAX,
        ensures
            r == (if old(self)@.takes(msg_id, decree) {
                Ok::<(), IndexError>(())
            } else {
                Err(IndexError { decree, max_decree: old(self)@.max_decree() as u64 })
            }),
            final(self)@ == (if r is Ok {
                old(self)@.with(msg_id, decree, padded_len)
            } else {
                old(self)@
            }),
    {
        proof {
            use_type_invariant(&*self);
        }
        let end: u64 = self.data_len + padded_len as u64;
        let mut min_decree: u64 = self.min_decree;
        let mut offsets: Vec<u64> = vstd::slice::slice_to_vec(self.offsets.as_slice());
        if msg_id == MSG_VOTE {
            if offsets.len() == 0 {
                min_decree = decree;
            } else {
                let max: u64 = self.max_decree();
                if decree != max && (max == u64::MAX || decree != max + 1) {
                    return Err(IndexError { decree, max_decree: max });
                }
                if decree == max {
                    offsets.pop();
                }
            }
            offsets.push(self.data_len);
            assert(offsets@ =~= old(self)@.with(msg_id, decree, padded_len).offsets);
        }
        *self = DecreeIndex { min_decree, offsets, data_len: end };
        Ok(())
    }

    /// The lowest decree, 0 if there is none.
    pub fn min_decree(&self) -> (r: u64)
        ensures
            r == self@.min_decree,
    {
        self.min_decree
    }

    /// The highest decree, 0 if there is none.
    pub fn max_decree(&self) -> (r: u64)
        ensures
            r == self@.max_decree(),
    {
        proof {
            use_type_invariant(self);
        }
        if self.offsets.len() == 0 {
            0
        } else {
            self.min_decree + (self.offsets.len() - 1) as u64
        }
    }

    /// The length of all records, which is where the next one goes.
    pub fn data_len(&self) -> (r: u64)
        ensures
            r == self@.data_len,
    {
        self.data_len
    }

    /// How many decrees are indexed.
    pub fn len(&self) -> (r: usize)
        ensures
            r == self@.offsets.len(),
    {
        self.offsets.len()
    }

    /// Whether no decree is indexed.
    pub fn is_empty(&self) -> (r: bool)
        ensures
            r == (self@.offsets.len() == 0),
    {
        self.offsets.len() == 0
    }

    /// Whether the log holds `decree`.
    pub fn has_decree(&self, decree: u64) -> (r: bool)
        ensures
            r == self@.has(decree as int),
    {
        self.offsets.len() > 0 && self.min_decree <= decree && decree <= self.max_decree()
    }

    /// The offset of the last record of `decree`, if the log holds one.
    pub fn offset(&self, decree: u64) -> (r: Option<u64>)
        ensures
            r == (if self@.has(decree as int) {
                Some(self@.offsets[decree - self@.min_decree])
            } else {
                None
            }),
    {
        if !self.has_decree(decree) {
            return None;
        }
        proof {
            use_type_invariant(self);
        }
        let n: usize = self.offsets.len();
        assert(decree - self.min_decree < n);
        let i: usize = (decree - self.min_decree) as usize;
        Some(self.offsets[i])
    }

    /// The number of bytes from the record of `decree` to that of the next one,
    /// or to the end.
    pub fn length_of_decree(&self, decree: u64) -> (r: Option<u64>)
        ensures
            r == (if !self@.has(decree as int) {
                None
            } else if decree < self@.max_decree() {
                let i = decree - self@.min_decree;
                Some((self@.offsets[i + 1] - self@.offsets[i]) as u64)
            } else {
                Some((self@.data_len - self@.offsets.last()) as u64)
            }),
    {
        proof {
            use_type_invariant(self);
        }
        let start = self.offset(decree)?;
        let end = if decree < self.max_decree() {
            self.offset(decree + 1)?
        } else {
            self.data_len
        };
        Some(end - start)
    }
}

/// The index of these records behind those of `start`, or the first vote that is
/// out of order.
pub open spec fn indexed(start: IndexView, records: Seq<RecordInfo>) -> Result<
    IndexView,
    IndexError,
>
    decreases records.len(),
{
    if records.len() == 0 {
        Ok(start)
    } else {
        let record = records[0];
        if start.takes(record.msg_id, record.decree) {
            indexed(
                start.with(record.msg_id, record.decree, record.padded_len),
                records.skip(1),
            )
        } else {
            Err(
                IndexError {
                    decree: record.decree,
                    max_decree: start.max_decree() as u64,
                },
            )
        }
    }
}

/// Total length of these records.
pub open spec fn padded_total(records: Seq<RecordInfo>) -> int
    decreases records.len(),
{
    if records.len() == 0 {
        0
    } else {
        records[0].padded_len + padded_total(records.skip(1))
    }
}

/// Adds records to an index one after the other.
pub(crate) fn add_records(index: &mut DecreeIndex, records: &Vec<RecordInfo>) -> (r: Result<
    (),
    IndexError,
>)
    requires
        old(index)@.data_len + padded_total(records@) <= u64::MAX,
    ensures
        match indexed(old(index)@, records@) {
            Ok(next) => r is Ok && final(index)@ == next,
            Err(e) => r == Err::<(), IndexError>(e),
        },
{
    let mut i: usize = 0;
    assert(records@.skip(0) =~= records@);
    while i < records.len()
        invariant
            i <= records@.len(),
            indexed(old(index)@, records@) == indexed(index@, records@.skip(i as int)),
            index@.data_len + padded_total(records@.skip(i as int)) <= u64::MAX,
        decreases records@.len() - i,
    {
        let record = records[i];
        proof {
            let left = records@.skip(i as int);
            assert(left[0] == record);
            assert(left.skip(1) =~= records@.skip(i + 1));
            lemma_padded_total(left.skip(1));
        }
        match index.add_message(record.msg_id, record.decree, record.padded_len) {
            Ok(_) => {},
            Err(e) => {
                return Err(e);
            },
        }
        i += 1;
    }
    Ok(())
}

proof fn lemma_padded_total(records: Seq<RecordInfo>)
    ensures
        padded_total(records) >= 0,
    decreases records.len(),
{
    if records.len() > 0 {
        lemma_padded_total(records.skip(1));
    }
}

/// An index covers as many bytes as its records take.
pub proof fn law_index_covers_its_records(start: IndexView, records: Seq<RecordInfo>)
    requires
        indexed(start, records) is Ok,
    ensures
        indexed(start, records)->Ok_0.data_len == start.data_len + padded_total(records),
    decreases records.len(),
{
    if records.len() > 0 {
        let r = records[0];
        law_index_covers_its_records(
            start.with(r.msg_id, r.decree, r.padded_len),
            records.skip(1),
        );
    }
}

/// Adding records in two batches gives the index that adding all at once gives.
pub proof fn law_index_adds_up(start: IndexView, a: Seq<RecordInfo>, b: Seq<RecordInfo>)
    ensures
        indexed(start, a + b) == (match indexed(start, a) {
            Ok(mid) => indexed(mid, b),
            Err(e) => Err(e),
        }),
    decreases a.len(),
{
    if a.len() == 0 {
        assert(a + b =~= b);
    } else {
        let r = a[0];
        assert((a + b).skip(1) =~= a.skip(1) + b);
        if start.takes(r.msg_id, r.decree) {
            law_index_adds_up(start.with(r.msg_id, r.decree, r.padded_len), a.skip(1), b);
        }
    }
}

/// The index finds the last vote that was added, at the offset that it was added
/// at, and leaves the lookups of other decrees as they were.
pub proof fn law_index_finds_the_last_vote(
    index: IndexView,
    decree: u64,
    padded_len: u32,
    other: int,
)
    requires
        index.ok(),
        index.takes(MSG_VOTE, decree),
    ensures
        ({
            let next = index.with(MSG_VOTE, decree, padded_len);
            &&& next.has(decree as int)
            &&& next.max_decree() == decree
            &&& next.offsets[decree - next.min_decree] == index.data_len as u64
            &&& other != decree ==> next.has(other) == index.has(other)
            &&& other != decree && index.has(other) ==> next.offsets[other - next.min_decree]
                == index.offsets[other - index.min_decree]
        }),
{
}

} // verus!
