//! What an index of a log finds.

use vstd::prelude::*;

use super::index::{indexed, law_index_adds_up, law_index_covers_its_records, padded_total};
use super::image::{infos, record_image};
use super::writer::{append_refusal, batch_fault, record_fault, LogError};
use super::{IndexError, IndexView, RecordInfo};
use crate::messages::{parsed_base, MSG_VOTE};

verus! {

/// Record `i` is a vote.
pub open spec fn vote_at(records: Seq<RecordInfo>, i: int) -> bool {
    0 <= i < records.len() && records[i].msg_id == MSG_VOTE
}

/// Records `i` and `j` are votes, and there is no vote between them.
pub open spec fn votes_in_a_row(records: Seq<RecordInfo>, i: int, j: int) -> bool {
    &&& i < j
    &&& vote_at(records, i)
    &&& vote_at(records, j)
    &&& forall|k: int| i < k < j ==> !#[trigger] vote_at(records, k)
}

/// Every vote is on the decree of the vote before it, or on the next one.
pub open spec fn votes_in_order(records: Seq<RecordInfo>) -> bool {
    forall|i: int, j: int| #[trigger]
        votes_in_a_row(records, i, j) ==> records[j].decree == records[i].decree
            || records[j].decree == records[i].decree + 1
}

/// Record `j` is the last vote on its decree.
pub open spec fn last_on_decree(records: Seq<RecordInfo>, j: int) -> bool {
    &&& vote_at(records, j)
    &&& forall|k: int|
        j < k && #[trigger] vote_at(records, k) ==> records[k].decree != records[j].decree
}

/// The records follow one another from the start of a log.
pub open spec fn in_a_row(records: Seq<RecordInfo>) -> bool {
    &&& records.len() > 0 ==> records[0].offset == 0
    &&& forall|k: int|
        0 <= k < records.len() - 1 ==> (#[trigger] records[k]).offset + records[k].padded_len
            == records[k + 1].offset
}

/// Record `j` is the last vote.
spec fn last_vote_at(records: Seq<RecordInfo>, j: int) -> bool {
    vote_at(records, j) && forall|k: int| j < k ==> !#[trigger] vote_at(records, k)
}

proof fn lemma_total_at(records: Seq<RecordInfo>, j: int)
    requires
        in_a_row(records),
        0 <= j < records.len(),
    ensures
        padded_total(records.take(j)) == records[j].offset,
    decreases j,
{
    if j == 0 {
        assert(records.take(0) =~= Seq::empty());
    } else {
        lemma_total_at(records, j - 1);
        lemma_total_push(records.take(j - 1), records[j - 1]);
        assert(records.take(j - 1).push(records[j - 1]) =~= records.take(j));
        assert(records[j - 1].offset + records[j - 1].padded_len == records[j - 1 + 1].offset);
    }
}

proof fn lemma_total_push(records: Seq<RecordInfo>, last: RecordInfo)
    ensures
        padded_total(records.push(last)) == padded_total(records) + last.padded_len,
    decreases records.len(),
{
    if records.len() == 0 {
        assert(records.push(last).skip(1) =~= Seq::empty());
        assert(padded_total(Seq::empty()) == 0);
    } else {
        assert(records.push(last).skip(1) =~= records.skip(1).push(last));
        lemma_total_push(records.skip(1), last);
    }
}

/// What holds of an index and the records that it was made from.
spec fn finds(ix: IndexView, records: Seq<RecordInfo>) -> bool {
    &&& ix.offsets.len() == 0 <==> forall|k: int| !#[trigger] vote_at(records, k)
    &&& forall|j: int| #[trigger]
        last_vote_at(records, j) ==> ix.offsets.len() > 0 && ix.max_decree() == records[j].decree
    &&& forall|j: int| #[trigger]
        last_on_decree(records, j) ==> ix.has(records[j].decree as int)
            && ix.offsets[records[j].decree - ix.min_decree] == records[j].offset
    &&& forall|d: int| #[trigger] ix.has(d) ==> exists|j: int| #[trigger]
        vote_at(records, j) && records[j].decree == d
    &&& forall|j: int| #[trigger] vote_at(records, j) ==> ix.has(records[j].decree as int)
}

proof fn lemma_some_last_vote(records: Seq<RecordInfo>, i: int) -> (j: int)
    requires
        vote_at(records, i),
    ensures
        last_vote_at(records, j),
        i <= j,
    decreases records.len() - i,
{
    if exists|k: int| i < k && #[trigger] vote_at(records, k) {
        let k = choose|k: int| i < k && #[trigger] vote_at(records, k);
        lemma_some_last_vote(records, k)
    } else {
        i
    }
}

proof fn lemma_front_in_a_row(records: Seq<RecordInfo>)
    requires
        in_a_row(records),
        records.len() > 0,
    ensures
        in_a_row(records.drop_last()),
{
    let front = records.drop_last();
    assert forall|k: int| 0 <= k < front.len() - 1 implies (#[trigger] front[k]).offset
        + front[k].padded_len == front[k + 1].offset by {
        assert(front[k] == records[k] && front[k + 1] == records[k + 1]);
        assert(records[k].offset + records[k].padded_len == records[k + 1].offset);
    }
}

proof fn lemma_vote_in_front(records: Seq<RecordInfo>, j: int)
    requires
        records.len() > 0,
    ensures
        j < records.len() - 1 ==> vote_at(records.drop_last(), j) == vote_at(records, j),
        j >= records.len() - 1 ==> !vote_at(records.drop_last(), j),
{
}

#[verifier::spinoff_prover]
#[verifier::rlimit(80)]
proof fn lemma_index(records: Seq<RecordInfo>)
    requires
        in_a_row(records),
    ensures
        indexed(IndexView::none(), records) is Ok <==> votes_in_order(records),
        indexed(IndexView::none(), records) is Ok ==> finds(
            indexed(IndexView::none(), records)->Ok_0,
            records,
        ),
        indexed(IndexView::none(), records) is Ok ==> indexed(
            IndexView::none(),
            records,
        )->Ok_0.min_decree >= 0,
    decreases records.len(),
{
    let none = IndexView::none();
    if records.len() == 0 {
        assert forall|i: int, j: int| !#[trigger] votes_in_a_row(records, i, j) by {}
    } else {
        let front = records.drop_last();
        let last = records.last();
        let n = front.len() as int;
        let one = seq![last];
        lemma_front_in_a_row(records);
        lemma_index(front);
        assert(front + one =~= records);
        law_index_adds_up(none, front, one);
        assert forall|j: int| #[trigger] vote_at(front, j) == (j < n && vote_at(records, j)) by {
            lemma_vote_in_front(records, j);
        }
        assert forall|i: int, j: int| #[trigger]
            votes_in_a_row(front, i, j) == (j < n && votes_in_a_row(records, i, j)) by {
            if votes_in_a_row(front, i, j) {
                assert forall|k: int| i < k < j implies !#[trigger] vote_at(records, k) by {
                    assert(!vote_at(front, k));
                }
            }
            if j < n && votes_in_a_row(records, i, j) {
                assert forall|k: int| i < k < j implies !#[trigger] vote_at(front, k) by {
                    assert(!vote_at(records, k));
                }
            }
        }
        if votes_in_order(records) {
            assert(votes_in_order(front)) by {
                assert forall|i: int, j: int| #[trigger] votes_in_a_row(front, i, j) implies front[
                j].decree == front[i].decree || front[j].decree == front[i].decree + 1 by {
                    assert(votes_in_a_row(records, i, j));
                }
            }
        }
        if indexed(none, front) is Ok {
            let ix = indexed(none, front)->Ok_0;
            law_index_covers_its_records(none, front);
            lemma_total_at(records, n);
            assert(records.take(n) =~= front);
            assert(ix.data_len == last.offset);
            assert(one.skip(1) =~= Seq::empty());
            let taken = ix.takes(last.msg_id, last.decree);
            let next = ix.with(last.msg_id, last.decree, last.padded_len);
            assert(indexed(next, one.skip(1)) == Ok::<IndexView, IndexError>(next));
            assert(indexed(ix, one) is Ok <==> taken);
            lemma_last_pair(records, ix);
            if taken {
                assert(indexed(none, records) == Ok::<IndexView, IndexError>(next));
                lemma_finds_more(records, ix, next);
            }
        } else {
            let (i, j) = choose|i: int, j: int| #[trigger]
                votes_in_a_row(front, i, j) && !(front[j].decree == front[i].decree
                    || front[j].decree == front[i].decree + 1);
            assert(votes_in_a_row(records, i, j));
            assert(!votes_in_order(records));
        }
    }
}

/// Whether a last record is taken is whether it keeps the votes in order.
proof fn lemma_last_pair(records: Seq<RecordInfo>, ix: IndexView)
    requires
        records.len() > 0,
        finds(ix, records.drop_last()),
        votes_in_order(records.drop_last()),
        forall|j: int| #[trigger]
            vote_at(records.drop_last(), j) == (j < records.len() - 1 && vote_at(records, j)),
        forall|i: int, j: int| #[trigger]
            votes_in_a_row(records.drop_last(), i, j) == (j < records.len() - 1 && votes_in_a_row(
                records,
                i,
                j,
            )),
    ensures
        ix.takes(records.last().msg_id, records.last().decree) <==> votes_in_order(records),
{
    let front = records.drop_last();
    let last = records.last();
    let n = front.len() as int;
    if last.msg_id != MSG_VOTE || ix.offsets.len() == 0 {
        assert forall|i: int, j: int| #[trigger] votes_in_a_row(records, i, j) implies records[
        j].decree == records[i].decree || records[j].decree == records[i].decree + 1 by {
            assert(vote_at(records, j));
            if j < n {
                assert(votes_in_a_row(front, i, j));
            } else {
                assert(vote_at(front, i));
            }
        }
    } else {
        let v = choose|v: int| #[trigger] vote_at(front, v);
        let m = lemma_some_last_vote(front, v);
        assert(last_vote_at(front, m));
        assert(vote_at(records, m) && vote_at(records, n));
        assert(votes_in_a_row(records, m, n)) by {
            assert forall|k: int| m < k < n implies !#[trigger] vote_at(records, k) by {
                assert(!vote_at(front, k));
            }
        }
        if ix.takes(last.msg_id, last.decree) {
            assert forall|i: int, j: int| #[trigger] votes_in_a_row(records, i, j) implies records[
            j].decree == records[i].decree || records[j].decree == records[i].decree + 1 by {
                if j < n {
                    assert(votes_in_a_row(front, i, j));
                } else {
                    assert(vote_at(records, j));
                    assert(j == n);
                    assert(vote_at(front, i));
                    if i < m {
                        assert(vote_at(records, m));
                    }
                    assert(i == m);
                }
            }
        }
    }
}

#[verifier::spinoff_prover]
#[verifier::rlimit(80)]
proof fn lemma_finds_more(records: Seq<RecordInfo>, ix: IndexView, next: IndexView)
    requires
        records.len() > 0,
        finds(ix, records.drop_last()),
        ix.min_decree >= 0,
        ix.data_len == records.last().offset,
        ix.takes(records.last().msg_id, records.last().decree),
        next == ix.with(
            records.last().msg_id,
            records.last().decree,
            records.last().padded_len,
        ),
        forall|j: int| #[trigger]
            vote_at(records.drop_last(), j) == (j < records.len() - 1 && vote_at(records, j)),
    ensures
        finds(next, records),
        next.min_decree >= 0,
{
    let front = records.drop_last();
    let last = records.last();
    let n = front.len() as int;
    let voted = last.msg_id == MSG_VOTE;
    if !voted {
        assert(!vote_at(records, n));
        assert forall|j: int| #[trigger] vote_at(records, j) == vote_at(front, j) by {}
        assert forall|j: int| #[trigger] last_vote_at(records, j) implies next.offsets.len() > 0
            && next.max_decree() == records[j].decree by {
            assert(vote_at(front, j));
            assert(last_vote_at(front, j)) by {
                assert forall|k: int| j < k implies !#[trigger] vote_at(front, k) by {
                    assert(!vote_at(records, k));
                }
            }
        }
        assert forall|j: int| #[trigger] last_on_decree(records, j) implies next.has(
            records[j].decree as int,
        ) && next.offsets[records[j].decree - next.min_decree] == records[j].offset by {
            assert(vote_at(front, j));
            assert(last_on_decree(front, j)) by {
                assert forall|k: int| j < k && #[trigger] vote_at(front, k) implies front[k].decree
                    != front[j].decree by {
                    assert(vote_at(records, k));
                }
            }
        }
        assert forall|d: int| #[trigger] next.has(d) implies exists|j: int| #[trigger]
            vote_at(records, j) && records[j].decree == d by {
            assert(ix.has(d));
            let j = choose|j: int| #[trigger] vote_at(front, j) && front[j].decree == d;
            assert(vote_at(records, j));
        }
        assert forall|j: int| #[trigger] vote_at(records, j) implies next.has(
            records[j].decree as int,
        ) by {
            assert(vote_at(front, j));
            assert(ix.has(front[j].decree as int));
        }
    } else {
        assert(vote_at(records, n));
        let d0 = last.decree as int;
        assert(next.has(d0) && next.max_decree() == d0);
        assert(next.offsets[d0 - next.min_decree] == last.offset);
        assert forall|d: int| d != d0 implies #[trigger] next.has(d) == ix.has(d) by {}
        assert forall|d: int| d != d0 && #[trigger] ix.has(d) implies next.offsets[d
            - next.min_decree] == ix.offsets[d - ix.min_decree] by {}
        assert forall|j: int| #[trigger] last_vote_at(records, j) implies next.offsets.len() > 0
            && next.max_decree() == records[j].decree by {
            assert(vote_at(records, n));
            assert(vote_at(records, j));
            assert(j == n);
        }
        assert forall|j: int| #[trigger] last_on_decree(records, j) implies next.has(
            records[j].decree as int,
        ) && next.offsets[records[j].decree - next.min_decree] == records[j].offset by {
            assert(vote_at(records, j));
            if j < n {
                assert(vote_at(records, n));
                assert(vote_at(front, j));
                assert(last_on_decree(front, j)) by {
                    assert forall|k: int| j < k && #[trigger] vote_at(
                        front,
                        k,
                    ) implies front[k].decree != front[j].decree by {
                        assert(vote_at(records, k));
                    }
                }
                assert(ix.has(records[j].decree as int));
            }
        }
        assert forall|d: int| #[trigger] next.has(d) implies exists|j: int| #[trigger]
            vote_at(records, j) && records[j].decree == d by {
            if d == d0 {
                assert(vote_at(records, n) && records[n].decree == d);
            } else {
                assert(ix.has(d));
                let j = choose|j: int| #[trigger] vote_at(front, j) && front[j].decree == d;
                assert(vote_at(records, j));
            }
        }
        assert forall|j: int| #[trigger] vote_at(records, j) implies next.has(
            records[j].decree as int,
        ) by {
            if j < n {
                assert(vote_at(front, j));
                assert(ix.has(front[j].decree as int));
            }
        }
    }
}

/// The records of a log can be indexed if and only if every vote is on the decree
/// of the vote before it, or on the next one. Messages that are no votes make no
/// difference.
pub proof fn law_votes_are_indexed_in_order(records: Seq<RecordInfo>)
    requires
        in_a_row(records),
    ensures
        indexed(IndexView::none(), records) is Ok <==> votes_in_order(records),
{
    lemma_index(records);
}

/// An index finds the last vote on each decree, at the offset where it stands in
/// the log, and it holds the decrees of the votes and no others. Its highest
/// decree is that of the last vote.
pub proof fn law_index_finds_the_votes(records: Seq<RecordInfo>, j: int, d: int)
    requires
        in_a_row(records),
        indexed(IndexView::none(), records) is Ok,
    ensures
        ({
            let ix = indexed(IndexView::none(), records)->Ok_0;
            &&& last_on_decree(records, j) ==> ix.has(records[j].decree as int)
                && ix.offsets[records[j].decree - ix.min_decree] == records[j].offset
            &&& ix.has(d) <==> exists|k: int| #[trigger]
                vote_at(records, k) && records[k].decree == d
            &&& vote_at(records, j) && (forall|k: int| j < k ==> !#[trigger] vote_at(records, k))
                ==> ix.max_decree() == records[j].decree
            &&& ix.data_len == (if records.len() == 0 {
                0
            } else {
                records.last().offset + records.last().padded_len
            })
        }),
{
    lemma_index(records);
    law_index_covers_its_records(IndexView::none(), records);
    let ix = indexed(IndexView::none(), records)->Ok_0;
    if vote_at(records, j) && (forall|k: int| j < k ==> !#[trigger] vote_at(records, k)) {
        assert(last_vote_at(records, j));
    }
    if exists|k: int| #[trigger] vote_at(records, k) && records[k].decree == d {
        let k = choose|k: int| #[trigger] vote_at(records, k) && records[k].decree == d;
        assert(ix.has(records[k].decree as int));
    }
    if records.len() > 0 {
        let n = records.len() - 1;
        lemma_total_at(records, n);
        lemma_total_push(records.take(n), records[n]);
        assert(records.take(n).push(records[n]) =~= records);
    }
}

/// A record without a fault is refused if and only if it is a vote, the log has
/// votes, and the last of them is neither on its decree nor on the one before. The
/// refusal names both decrees.
pub proof fn law_vote_out_of_order_is_refused<E>(
    index: IndexView,
    record: Seq<u8>,
    first: u64,
    offsets: Seq<u64>,
    data_len: int,
)
    requires
        record_fault::<E>(record) is None,
        index == (IndexView { min_decree: first as int, offsets, data_len }),
        first + offsets.len() <= u64::MAX,
    ensures
        ({
            let h = parsed_base(record)->Some_0;
            let last = first + offsets.len() - 1;
            let refusal = append_refusal::<E>(index, seq![record]);
            let astray = h.msg_id == 1 && offsets.len() > 0 && h.decree != last && h.decree != last
                + 1;
            &&& !astray ==> refusal is None
            &&& astray ==> refusal == Some(
                LogError::<E>::Index(IndexError { decree: h.decree, max_decree: last as u64 }),
            )
        }),
{
    let records = seq![record];
    assert(records.skip(1) =~= Seq::empty());
    assert(batch_fault::<E>(records.skip(1)) is None);
    let found = infos(records, index.data_len);
    assert(infos(records.skip(1), index.data_len + record_image(record).len()) =~= Seq::empty());
    assert(found.skip(1) =~= Seq::empty());
    let r = found[0];
    assert(indexed(index.with(r.msg_id, r.decree, r.padded_len), found.skip(1)) is Ok);
}

} // verus!
