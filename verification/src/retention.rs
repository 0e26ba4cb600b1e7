//! What the store keeps. A message that has been written is kept: its unit stays
//! in the index of its queue and its record in the commit log, whatever is
//! written after it, and a read gives its payload back.

use vstd::prelude::*;
use crate::codec::le_value;
use crate::commit_log::footprint;
use crate::commit_log::lemma_record_round_trip;
use crate::commit_log::record_bytes;
use crate::commit_log::record_payload;
use crate::commit_log::LENGTH_PREFIX_SIZE;
use crate::error::Error;
use crate::index_store::Progress;
use crate::layout::queue_index_path;
use crate::mapped_file_queue::lemma_append_wf;
use crate::mapped_file_queue::lemma_committed_bytes_stay;
use crate::mapped_file_queue::lemma_nothing_behind_frontier;
use crate::mapped_file_queue::lemma_read_appended;
use crate::mapped_file_queue::lemma_rolled_wf;
use crate::mapped_file_queue::QueueView;
use crate::msg_index::lemma_unit_keeps_aligned;
use crate::msg_index::lemma_unit_round_trip;
use crate::msg_index::unit_aligned;
use crate::msg_index::MessageIndexUnit;
use crate::msg_index::MSG_INDEX_UNIT_SIZE;
use crate::msg_store::MessageStoreView;

verus! {

/// The number of messages that the index of a queue holds: the logical index of
/// the next.
pub open spec fn count(s: MessageStoreView, topic: Seq<char>, queue_id: u32) -> nat {
    s.index_store.indexes[(topic, queue_id)].frontier() / 12
}

/// The unit at the logical index `i` of a queue.
pub open spec fn unit_of(s: MessageStoreView, topic: Seq<char>, queue_id: u32, i: nat)
    -> MessageIndexUnit {
    let index = s.index_store.indexes[(topic, queue_id)];
    MessageIndexUnit::spec_decode(index.holder(12 * i).read(12 * i, MSG_INDEX_UNIT_SIZE as nat))
}

/// The record that the unit at the logical index `i` of a queue points to.
pub open spec fn record_of(s: MessageStoreView, topic: Seq<char>, queue_id: u32, i: nat) -> Seq<
    u8,
> {
    let unit = unit_of(s, topic, queue_id, i);
    s.commit_log.holder(unit.offset as nat).read(unit.offset as nat, unit.size as nat)
}

/// The payload of the message with the logical index `i` of a queue.
#[verifier::opaque]
pub open spec fn payload_of(s: MessageStoreView, topic: Seq<char>, queue_id: u32, i: nat) -> Seq<
    u8,
> {
    record_payload(record_of(s, topic, queue_id, i))
}

/// Whether the store keeps the message with the logical index `i` of a queue:
/// its unit is committed in the queue's index, the unit's size is eight and
/// the length of a payload, and the record that the unit points to is committed
/// in one segment of the commit log and begins with that length.
#[verifier::opaque]
pub open spec fn keeps(s: MessageStoreView, topic: Seq<char>, queue_id: u32, i: nat) -> bool {
    let index = s.index_store.indexes[(topic, queue_id)];
    let unit = unit_of(s, topic, queue_id, i);
    &&& s.index_store.is_open(topic, queue_id)
    &&& index.holds(12 * i, MSG_INDEX_UNIT_SIZE as nat)
    &&& unit.size >= LENGTH_PREFIX_SIZE
    &&& s.commit_log.holds(unit.offset as nat, unit.size as nat)
    &&& le_value(record_of(s, topic, queue_id, i).subrange(0, LENGTH_PREFIX_SIZE as int))
        == unit.size - LENGTH_PREFIX_SIZE
}

/// Whether neither the unit nor the record of a kept message ends with the
/// mapping of its segment: what ends there is out of the range of every read.
#[verifier::opaque]
pub open spec fn in_range(s: MessageStoreView, topic: Seq<char>, queue_id: u32, i: nat) -> bool {
    let index = s.index_store.indexes[(topic, queue_id)];
    let unit = unit_of(s, topic, queue_id, i);
    &&& index.holder(12 * i).readable(12 * i, MSG_INDEX_UNIT_SIZE as nat)
    &&& s.commit_log.holder(unit.offset as nat).readable(unit.offset as nat, unit.size as nat)
}

/// Whether the store keeps every message that the indexes count.
pub open spec fn keeps_all(s: MessageStoreView) -> bool {
    forall|topic: Seq<char>, queue_id: u32, i: nat|
        s.index_store.is_open(topic, queue_id) && i < count(s, topic, queue_id) ==> #[trigger] keeps(
            s,
            topic,
            queue_id,
            i,
        )
}

/// A read of a kept message gives its payload, unless the unit or the record
/// ends with the mapping of its segment: then the read is out of range.
pub proof fn lemma_read_kept(s: MessageStoreView, topic: Seq<char>, queue_id: u32, i: u64)
    requires
        s.wf(),
        keeps(s, topic, queue_id, i as nat),
    ensures
        s.read(topic, queue_id, Some(i)) == (if in_range(s, topic, queue_id, i as nat) {
            Ok::<Progress<Seq<u8>>, Error>(Progress::Done(payload_of(s, topic, queue_id, i as nat)))
        } else {
            Err::<Progress<Seq<u8>>, Error>(Error::OutOfRange)
        }),
{
    reveal(keeps);
    reveal(payload_of);
    reveal(in_range);    assert(i as nat * 12 == 12 * i as nat);
}

/// A read behind the last message of a queue finds nothing.
pub proof fn lemma_read_behind(s: MessageStoreView, topic: Seq<char>, queue_id: u32, i: u64)
    requires
        s.wf(),
        s.index_store.is_open(topic, queue_id),
        i >= count(s, topic, queue_id),
    ensures
        s.read(topic, queue_id, Some(i)) == Err::<Progress<Seq<u8>>, Error>(Error::OffsetNotFound),
{
    let index = s.index_store.indexes[(topic, queue_id)];
    assert(s.index_store.indexes.dom().contains((topic, queue_id)));
    lemma_frontier_aligned(index);
    lemma_nothing_behind_frontier(index, i as nat * 12, MSG_INDEX_UNIT_SIZE as nat);
}

/// The frontier of an index of whole units is twelve times the number of its units.
pub proof fn lemma_frontier_aligned(index: QueueView)
    requires
        unit_aligned(index.segments),
    ensures
        index.frontier() == 12 * (index.frontier() / 12),
{
    if index.segments.len() > 0 {
        assert(index.segments[index.segments.len() - 1].max_offset % 12 == 0);
    }
}

/// A store that is ready for the write of a payload keeps the message once it
/// is written, with the payload it was written with and with the logical index
/// that the write answers with, the number of messages that the queue had; the
/// queue has one message more. A read of the message gives the payload back,
/// unless its unit or its record ends with the mapping of its segment.
pub proof fn lemma_written_is_kept(
    s: MessageStoreView,
    topic: Seq<char>,
    queue_id: u32,
    payload: Seq<u8>,
)
    requires
        s.wf(),
        s.ready(topic, queue_id, payload) == Ok::<Progress<()>, Error>(Progress::Done(())),
    ensures
        s.written(topic, queue_id, payload).wf(),
        count(s.written(topic, queue_id, payload), topic, queue_id) == count(s, topic, queue_id) + 1,
        keeps(s.written(topic, queue_id, payload), topic, queue_id, count(s, topic, queue_id)),
        unit_of(s.written(topic, queue_id, payload), topic, queue_id, count(s, topic, queue_id))
            == s.next_unit(payload),
        payload_of(s.written(topic, queue_id, payload), topic, queue_id, count(s, topic, queue_id))
            == payload,
        in_range(s.written(topic, queue_id, payload), topic, queue_id, count(s, topic, queue_id))
            <==> s.index_store.indexes[(topic, queue_id)].segments.last().used()
            + MSG_INDEX_UNIT_SIZE < s.index_store.capacity && s.commit_log.segments.last().used()
            + footprint(payload.len()) < s.commit_log.capacity,
{
    reveal(keeps);
    reveal(payload_of);
    reveal(in_range);    let after = s.written(topic, queue_id, payload);
    let log = s.commit_log;
    let key = (topic, queue_id);
    assert(s.index_store.indexes.dom().contains(key));
    let index = s.index_store.indexes[key];
    let record = record_bytes(payload);
    let unit = s.next_unit(payload);
    let unit_bytes = unit.spec_encode();
    let i = count(s, topic, queue_id);
    lemma_record_round_trip(payload);
    lemma_unit_round_trip(unit);
    lemma_frontier_aligned(index);
    lemma_append_wf(log, record);
    lemma_append_wf(index, unit_bytes);
    lemma_unit_keeps_aligned(index, unit_bytes);
    lemma_read_appended(log, record);
    lemma_read_appended(index, unit_bytes);
    assert(log.segments[log.segments.len() - 1].wf());
    assert(index.segments[index.segments.len() - 1].wf());
    assert(after.index_store.indexes[key] == index.append(unit_bytes));
    assert(unit.offset == log.frontier());
    assert(unit.size == footprint(payload.len()));
    assert(unit_of(after, topic, queue_id, i) == unit);
    assert(record_of(after, topic, queue_id, i) == record);
    assert(after.index_store.wf()) by {
        assert forall|k: (Seq<char>, u32)| #[trigger]
            after.index_store.indexes.dom().contains(k) implies {
            &&& after.index_store.indexes[k].wf()
            &&& unit_aligned(after.index_store.indexes[k].segments)
            &&& after.index_store.indexes[k].capacity == after.index_store.capacity
            &&& after.index_store.indexes[k].store_path == queue_index_path(
                after.index_store.index_store_path,
                k.0,
                k.1 as nat,
            )
        } by {
            assert(s.index_store.indexes.dom().contains(k));
        }
    }
}

/// A message that the store keeps is kept when another is written, with the
/// same payload, and a read of it gives what it gave. The queues that the
/// write does not name count the messages they counted.
pub proof fn lemma_kept_stays_kept(
    s: MessageStoreView,
    topic: Seq<char>,
    queue_id: u32,
    payload: Seq<u8>,
    other_topic: Seq<char>,
    other_queue: u32,
    i: nat,
)
    requires
        s.wf(),
        s.ready(topic, queue_id, payload) == Ok::<Progress<()>, Error>(Progress::Done(())),
        keeps(s, other_topic, other_queue, i),
    ensures
        keeps(s.written(topic, queue_id, payload), other_topic, other_queue, i),
        unit_of(s.written(topic, queue_id, payload), other_topic, other_queue, i) == unit_of(
            s,
            other_topic,
            other_queue,
            i,
        ),
        payload_of(s.written(topic, queue_id, payload), other_topic, other_queue, i) == payload_of(
            s,
            other_topic,
            other_queue,
            i,
        ),
        in_range(s.written(topic, queue_id, payload), other_topic, other_queue, i) == in_range(
            s,
            other_topic,
            other_queue,
            i,
        ),
        (other_topic, other_queue) != (topic, queue_id) ==> count(
            s.written(topic, queue_id, payload),
            other_topic,
            other_queue,
        ) == count(s, other_topic, other_queue),
{
    reveal(keeps);
    reveal(payload_of);
    reveal(in_range);    let after = s.written(topic, queue_id, payload);
    let log = s.commit_log;
    let key = (topic, queue_id);
    let other = (other_topic, other_queue);
    assert(s.index_store.indexes.dom().contains(key));
    assert(s.index_store.indexes.dom().contains(other));
    let index = s.index_store.indexes[key];
    let kept_index = s.index_store.indexes[other];
    let record = record_bytes(payload);
    let unit_bytes = s.next_unit(payload).spec_encode();
    let unit = unit_of(s, other_topic, other_queue, i);
    lemma_unit_round_trip(s.next_unit(payload));
    lemma_record_round_trip(payload);
    if other == key {
        lemma_committed_bytes_stay(
            kept_index,
            12 * i,
            MSG_INDEX_UNIT_SIZE as nat,
            unit_bytes,
            unit_bytes,
        );
        assert(after.index_store.indexes[other] == index.append(unit_bytes));
    } else {
        assert(after.index_store.indexes[other] == kept_index);
    }
    lemma_committed_bytes_stay(log, unit.offset as nat, unit.size as nat, record, record);
    assert(unit_of(after, other_topic, other_queue, i) == unit);
    lemma_same_holder(log, log.append(record), unit.offset as nat, unit.size as nat);
    lemma_same_holder(
        kept_index,
        after.index_store.indexes[other],
        12 * i,
        MSG_INDEX_UNIT_SIZE as nat,
    );
}

/// Bytes that a read gives again after a change are readable after it exactly
/// where they were before.
pub proof fn lemma_same_holder(before: QueueView, after: QueueView, offset: nat, size: nat)
    requires
        before.holds(offset, size),
        after.holds(offset, size),
        after.try_read(offset, size) == before.try_read(offset, size),
    ensures
        after.holder(offset).readable(offset, size) == before.holder(offset).readable(offset, size),
{
}

/// A store that keeps every message that its indexes count does so after a
/// write.
pub proof fn lemma_write_keeps_all(
    s: MessageStoreView,
    topic: Seq<char>,
    queue_id: u32,
    payload: Seq<u8>,
)
    requires
        s.wf(),
        keeps_all(s),
        s.ready(topic, queue_id, payload) == Ok::<Progress<()>, Error>(Progress::Done(())),
    ensures
        keeps_all(s.written(topic, queue_id, payload)),
{
    let after = s.written(topic, queue_id, payload);
    lemma_written_is_kept(s, topic, queue_id, payload);
    assert forall|t: Seq<char>, q: u32, i: nat|
        after.index_store.is_open(t, q) && i < count(after, t, q) implies #[trigger] keeps(
        after,
        t,
        q,
        i,
    ) by {
        assert(s.index_store.indexes.dom().contains((topic, queue_id)));
        assert(s.index_store.is_open(t, q));
        if (t, q) == (topic, queue_id) && i == count(s, topic, queue_id) {
        } else {
            if (t, q) != (topic, queue_id) {
                assert(after.index_store.indexes[(t, q)] == s.index_store.indexes[(t, q)]);
            }
            assert(keeps(s, t, q, i));
            lemma_kept_stays_kept(s, topic, queue_id, payload, t, q, i);
        }
    }
}

/// The store with a new, empty tail over `bytes` at the frontier of the commit
/// log.
pub open spec fn with_log_tail(s: MessageStoreView, bytes: Seq<u8>) -> MessageStoreView {
    MessageStoreView { commit_log: s.commit_log.rolled(bytes), ..s }
}

/// The store with a new, empty tail over `bytes` at the frontier of the index of
/// a queue.
pub open spec fn with_index_tail(
    s: MessageStoreView,
    topic: Seq<char>,
    queue_id: u32,
    bytes: Seq<u8>,
) -> MessageStoreView {
    MessageStoreView {
        index_store: s.index_store.with_index(
            topic,
            queue_id,
            s.index_store.indexes[(topic, queue_id)].rolled(bytes),
        ),
        ..s
    }
}

/// A message that the store keeps is kept when the commit log gets a new tail:
/// nothing changes for it, and no queue counts other than before.
pub proof fn lemma_kept_with_log_tail(
    s: MessageStoreView,
    bytes: Seq<u8>,
    topic: Seq<char>,
    queue_id: u32,
    i: nat,
)
    requires
        s.wf(),
        s.commit_log.takes_tail(s.commit_log.frontier(), bytes.len()),
    ensures
        with_log_tail(s, bytes).wf(),
        with_log_tail(s, bytes).index_store == s.index_store,
        keeps(s, topic, queue_id, i) ==> {
            &&& keeps(with_log_tail(s, bytes), topic, queue_id, i)
            &&& payload_of(with_log_tail(s, bytes), topic, queue_id, i) == payload_of(
                s,
                topic,
                queue_id,
                i,
            )
            &&& in_range(with_log_tail(s, bytes), topic, queue_id, i) == in_range(
                s,
                topic,
                queue_id,
                i,
            )
        },
{
    reveal(keeps);
    reveal(payload_of);
    reveal(in_range);    lemma_rolled_wf(s.commit_log, bytes);
    if keeps(s, topic, queue_id, i) {
        let unit = unit_of(s, topic, queue_id, i);
        lemma_committed_bytes_stay(
            s.commit_log,
            unit.offset as nat,
            unit.size as nat,
            bytes,
            bytes,
        );
        lemma_same_holder(
            s.commit_log,
            s.commit_log.rolled(bytes),
            unit.offset as nat,
            unit.size as nat,
        );
    }
}

/// A message that the store keeps is kept when the index of a queue gets a new
/// tail: nothing changes for it, and no queue counts other than before.
pub proof fn lemma_kept_with_index_tail(
    s: MessageStoreView,
    topic: Seq<char>,
    queue_id: u32,
    bytes: Seq<u8>,
    other_topic: Seq<char>,
    other_queue: u32,
    i: nat,
)
    requires
        s.wf(),
        s.index_store.is_open(topic, queue_id),
        s.index_store.indexes[(topic, queue_id)].takes_tail(
            s.index_store.indexes[(topic, queue_id)].frontier(),
            bytes.len(),
        ),
    ensures
        with_index_tail(s, topic, queue_id, bytes).wf(),
        with_index_tail(s, topic, queue_id, bytes).commit_log == s.commit_log,
        with_index_tail(s, topic, queue_id, bytes).index_store.is_open(other_topic, other_queue)
            == s.index_store.is_open(other_topic, other_queue),
        count(with_index_tail(s, topic, queue_id, bytes), other_topic, other_queue) == count(
            s,
            other_topic,
            other_queue,
        ),
        keeps(s, other_topic, other_queue, i) ==> {
            &&& keeps(with_index_tail(s, topic, queue_id, bytes), other_topic, other_queue, i)
            &&& payload_of(with_index_tail(s, topic, queue_id, bytes), other_topic, other_queue, i)
                == payload_of(s, other_topic, other_queue, i)
            &&& in_range(with_index_tail(s, topic, queue_id, bytes), other_topic, other_queue, i)
                == in_range(s, other_topic, other_queue, i)
        },
{
    reveal(keeps);
    reveal(payload_of);
    reveal(in_range);    let after = with_index_tail(s, topic, queue_id, bytes);
    let key = (topic, queue_id);
    let other = (other_topic, other_queue);
    assert(s.index_store.indexes.dom().contains(key));
    let index = s.index_store.indexes[key];
    lemma_rolled_wf(index, bytes);
    assert(unit_aligned(index.rolled(bytes).segments)) by {
        lemma_frontier_aligned(index);
        assert forall|j: int| 0 <= j < index.rolled(bytes).segments.len() implies (
        #[trigger] index.rolled(bytes).segments[j]).min_offset % 12 == 0 && index.rolled(
            bytes,
        ).segments[j].max_offset % 12 == 0 by {
            if j < index.segments.len() {
                assert(index.rolled(bytes).segments[j] == index.segments[j]);
            }
        }
    }
    assert(after.index_store.wf()) by {
        assert forall|k: (Seq<char>, u32)| #[trigger]
            after.index_store.indexes.dom().contains(k) implies {
            &&& after.index_store.indexes[k].wf()
            &&& unit_aligned(after.index_store.indexes[k].segments)
            &&& after.index_store.indexes[k].capacity == after.index_store.capacity
            &&& after.index_store.indexes[k].store_path == queue_index_path(
                after.index_store.index_store_path,
                k.0,
                k.1 as nat,
            )
        } by {
            assert(s.index_store.indexes.dom().contains(k));
        }
    }
    if other == key {
        assert(after.index_store.indexes[other] == index.rolled(bytes));
    } else {
        assert(after.index_store.indexes[other] == s.index_store.indexes[other]);
    }
    if keeps(s, other_topic, other_queue, i) {
        if other == key {
            lemma_committed_bytes_stay(index, 12 * i, MSG_INDEX_UNIT_SIZE as nat, bytes, bytes);
            lemma_same_holder(index, index.rolled(bytes), 12 * i, MSG_INDEX_UNIT_SIZE as nat);
        }
    }
}

/// The store once the outside work that the write of a payload of `len` bytes
/// to a queue waits for has been done on new files: the commit log has a new
/// tail of zeros where the record did not fit in its tail, and the index of the
/// queue where the unit did not fit.
pub open spec fn provisioned(s: MessageStoreView, topic: Seq<char>, queue_id: u32, len: nat)
    -> MessageStoreView {
    let with_log = if s.commit_log.has_room(footprint(len)) {
        s
    } else {
        with_log_tail(s, Seq::new(s.commit_log.capacity, |i: int| 0u8))
    };
    if with_log.index_store.indexes[(topic, queue_id)].has_room(MSG_INDEX_UNIT_SIZE as nat) {
        with_log
    } else {
        with_index_tail(with_log, topic, queue_id, Seq::new(s.index_store.capacity, |i: int| 0u8))
    }
}

/// The store after the payloads have been written to a queue one after another,
/// each once the store was provisioned for it.
pub open spec fn fed(s: MessageStoreView, topic: Seq<char>, queue_id: u32, payloads: Seq<Seq<u8>>)
    -> MessageStoreView
    decreases payloads.len(),
{
    if payloads.len() == 0 {
        s
    } else {
        fed_one(fed(s, topic, queue_id, payloads.drop_last()), topic, queue_id, payloads.last())
    }
}

/// Whether the addresses of the commit log and of the index of a queue do not
/// run out while the payloads are written: a new tail at the frontier ends at a
/// `usize` whenever one is needed.
pub open spec fn has_addresses(
    s: MessageStoreView,
    topic: Seq<char>,
    queue_id: u32,
    payloads: Seq<Seq<u8>>,
) -> bool
    decreases payloads.len(),
{
    if payloads.len() == 0 {
        true
    } else {
        let before = fed(s, topic, queue_id, payloads.drop_last());
        &&& has_addresses(s, topic, queue_id, payloads.drop_last())
        &&& before.commit_log.frontier() + before.commit_log.capacity <= usize::MAX
        &&& before.index_store.indexes[(topic, queue_id)].frontier() + before.index_store.capacity
            <= usize::MAX
    }
}

/// Rollover hides the capacity of a segment: once the store has been
/// provisioned for a payload that it accepts, it is ready for the write, and the
/// messages that it kept are kept.
pub proof fn lemma_provisioned_is_ready(
    s: MessageStoreView,
    topic: Seq<char>,
    queue_id: u32,
    payload: Seq<u8>,
)
    requires
        s.wf(),
        s.accepts(payload) is Ok,
        s.index_store.is_open(topic, queue_id),
        MSG_INDEX_UNIT_SIZE <= s.index_store.capacity,
        s.commit_log.frontier() + s.commit_log.capacity <= usize::MAX,
        s.index_store.indexes[(topic, queue_id)].frontier() + s.index_store.capacity <= usize::MAX,
    ensures
        provisioned(s, topic, queue_id, payload.len()).wf(),
        provisioned(s, topic, queue_id, payload.len()).ready(topic, queue_id, payload) == Ok::<
            Progress<()>,
            Error,
        >(Progress::Done(())),
        count(provisioned(s, topic, queue_id, payload.len()), topic, queue_id) == count(
            s,
            topic,
            queue_id,
        ),
        forall|t: Seq<char>, q: u32, i: nat| #[trigger]
            keeps(s, t, q, i) ==> {
                &&& keeps(provisioned(s, topic, queue_id, payload.len()), t, q, i)
                &&& payload_of(provisioned(s, topic, queue_id, payload.len()), t, q, i)
                    == payload_of(s, t, q, i)
                &&& in_range(provisioned(s, topic, queue_id, payload.len()), t, q, i) == in_range(
                    s,
                    t,
                    q,
                    i,
                )
            },
{
    let len = payload.len();
    let key = (topic, queue_id);
    assert(s.index_store.indexes.dom().contains(key));
    let log_zeros = Seq::new(s.commit_log.capacity, |i: int| 0u8);
    let index_zeros = Seq::new(s.index_store.capacity, |i: int| 0u8);
    let with_log = if s.commit_log.has_room(footprint(len)) {
        s
    } else {
        with_log_tail(s, log_zeros)
    };
    if !s.commit_log.has_room(footprint(len)) {
        lemma_tail_is_due(s.commit_log, footprint(len));
        lemma_rolled_wf(s.commit_log, log_zeros);
        lemma_kept_with_log_tail(s, log_zeros, topic, queue_id, 0);
    }
    assert(with_log.wf());
    let index = with_log.index_store.indexes[key];
    assert(index == s.index_store.indexes[key]);
    if !index.has_room(MSG_INDEX_UNIT_SIZE as nat) {
        lemma_tail_is_due(index, MSG_INDEX_UNIT_SIZE as nat);
        lemma_rolled_wf(index, index_zeros);
        lemma_kept_with_index_tail(with_log, topic, queue_id, index_zeros, topic, queue_id, 0);
    }
    let after = provisioned(s, topic, queue_id, len);
    assert(after.index_store.indexes.dom().contains(key));
    assert forall|t: Seq<char>, q: u32, i: nat| #[trigger] keeps(s, t, q, i) implies {
        &&& keeps(after, t, q, i)
        &&& payload_of(after, t, q, i) == payload_of(s, t, q, i)
        &&& in_range(after, t, q, i) == in_range(s, t, q, i)
    } by {
        if !s.commit_log.has_room(footprint(len)) {
            lemma_kept_with_log_tail(s, log_zeros, t, q, i);
        }
        if !index.has_room(MSG_INDEX_UNIT_SIZE as nat) {
            lemma_kept_with_index_tail(with_log, topic, queue_id, index_zeros, t, q, i);
        }
    }
}

/// A store that keeps every message that its indexes count does so once it has
/// been provisioned for a write.
pub proof fn lemma_provisioned_keeps_all(
    s: MessageStoreView,
    topic: Seq<char>,
    queue_id: u32,
    payload: Seq<u8>,
)
    requires
        s.wf(),
        keeps_all(s),
        s.accepts(payload) is Ok,
        s.index_store.is_open(topic, queue_id),
        MSG_INDEX_UNIT_SIZE <= s.index_store.capacity,
        s.commit_log.frontier() + s.commit_log.capacity <= usize::MAX,
        s.index_store.indexes[(topic, queue_id)].frontier() + s.index_store.capacity <= usize::MAX,
    ensures
        keeps_all(provisioned(s, topic, queue_id, payload.len())),
{
    let len = payload.len();
    let key = (topic, queue_id);
    assert(s.index_store.indexes.dom().contains(key));
    let log_zeros = Seq::new(s.commit_log.capacity, |i: int| 0u8);
    let index_zeros = Seq::new(s.index_store.capacity, |i: int| 0u8);
    let with_log = if s.commit_log.has_room(footprint(len)) {
        s
    } else {
        with_log_tail(s, log_zeros)
    };
    let index = s.index_store.indexes[key];
    let after = provisioned(s, topic, queue_id, len);
    lemma_provisioned_is_ready(s, topic, queue_id, payload);
    if !s.commit_log.has_room(footprint(len)) {
        lemma_tail_is_due(s.commit_log, footprint(len));
        lemma_kept_with_log_tail(s, log_zeros, topic, queue_id, 0);
    }
    if !index.has_room(MSG_INDEX_UNIT_SIZE as nat) {
        lemma_tail_is_due(index, MSG_INDEX_UNIT_SIZE as nat);
    }
    assert forall|t: Seq<char>, q: u32, i: nat|
        after.index_store.is_open(t, q) && i < count(after, t, q) implies #[trigger] keeps(
        after,
        t,
        q,
        i,
    ) by {
        if !index.has_room(MSG_INDEX_UNIT_SIZE as nat) {
            lemma_kept_with_index_tail(with_log, topic, queue_id, index_zeros, t, q, i);
        }
        assert(s.index_store.is_open(t, q));
        assert(count(s, t, q) == count(after, t, q));
        assert(keeps(s, t, q, i));
    }
}

/// A store that keeps every message that its indexes count does so after
/// payloads have been written to a queue one after another: the unit at every
/// logical index that a queue counts has a size of eight and more, and points to
/// a record of the commit log that begins with the size less eight.
pub proof fn lemma_fed_keeps_all(
    s: MessageStoreView,
    topic: Seq<char>,
    queue_id: u32,
    payloads: Seq<Seq<u8>>,
)
    requires
        s.wf(),
        keeps_all(s),
        s.index_store.is_open(topic, queue_id),
        MSG_INDEX_UNIT_SIZE <= s.index_store.capacity,
        forall|k: int| 0 <= k < payloads.len() ==> s.accepts(#[trigger] payloads[k]) is Ok,
        has_addresses(s, topic, queue_id, payloads),
    ensures
        keeps_all(fed(s, topic, queue_id, payloads)),
    decreases payloads.len(),
{
    if payloads.len() > 0 {
        let front = payloads.drop_last();
        let last = payloads.last();
        assert forall|k: int| 0 <= k < front.len() implies s.accepts(#[trigger] front[k]) is Ok by {
            assert(front[k] == payloads[k]);
        }
        lemma_fed_counts(s, topic, queue_id, front);
        lemma_fed_keeps_all(s, topic, queue_id, front);
        let before = fed(s, topic, queue_id, front);
        assert(s.accepts(payloads[payloads.len() - 1]) is Ok);
        assert(before.accepts(last) == s.accepts(last));
        lemma_provisioned_is_ready(before, topic, queue_id, last);
        lemma_provisioned_keeps_all(before, topic, queue_id, last);
        lemma_write_keeps_all(provisioned(before, topic, queue_id, last.len()), topic, queue_id, last);
    }
}

/// A queue that has no room for bytes that a segment can hold takes a new tail
/// at its frontier, if the addresses do not run out.
pub proof fn lemma_tail_is_due(q: QueueView, len: nat)
    requires
        q.wf(),
        len <= q.capacity,
        !q.has_room(len),
        q.frontier() + q.capacity <= usize::MAX,
    ensures
        q.takes_tail(q.frontier(), q.capacity),
{
    if q.segments.len() > 0 {
        assert(q.segments[q.segments.len() - 1].wf());
    }
}

/// The store after a payload has been written to a queue, once the store was
/// provisioned for it.
pub open spec fn fed_one(s: MessageStoreView, topic: Seq<char>, queue_id: u32, payload: Seq<u8>)
    -> MessageStoreView {
    provisioned(s, topic, queue_id, payload.len()).written(topic, queue_id, payload)
}

/// A payload that the store accepts is written once the store has been
/// provisioned for it: the store keeps the message at the logical index that
/// follows the queue's last, and keeps what it kept.
pub proof fn lemma_fed_one(s: MessageStoreView, topic: Seq<char>, queue_id: u32, payload: Seq<u8>)
    requires
        s.wf(),
        s.accepts(payload) is Ok,
        s.index_store.is_open(topic, queue_id),
        MSG_INDEX_UNIT_SIZE <= s.index_store.capacity,
        s.commit_log.frontier() + s.commit_log.capacity <= usize::MAX,
        s.index_store.indexes[(topic, queue_id)].frontier() + s.index_store.capacity <= usize::MAX,
    ensures
        fed_one(s, topic, queue_id, payload).wf(),
        fed_one(s, topic, queue_id, payload).index_store.is_open(topic, queue_id),
        fed_one(s, topic, queue_id, payload).commit_log.capacity == s.commit_log.capacity,
        fed_one(s, topic, queue_id, payload).index_store.capacity == s.index_store.capacity,
        count(fed_one(s, topic, queue_id, payload), topic, queue_id) == count(s, topic, queue_id)
            + 1,
        keeps(fed_one(s, topic, queue_id, payload), topic, queue_id, count(s, topic, queue_id)),
        payload_of(fed_one(s, topic, queue_id, payload), topic, queue_id, count(s, topic, queue_id))
            == payload,
{
    lemma_provisioned_is_ready(s, topic, queue_id, payload);
    let ready = provisioned(s, topic, queue_id, payload.len());
    lemma_written_is_kept(ready, topic, queue_id, payload);
    let after = fed_one(s, topic, queue_id, payload);
    assert(after.index_store.indexes.dom().contains((topic, queue_id)));
}

/// A message that the store keeps is kept, with its payload, when a payload
/// that the store accepts is written once the store has been provisioned for it.
pub proof fn lemma_fed_one_keeps(
    s: MessageStoreView,
    topic: Seq<char>,
    queue_id: u32,
    payload: Seq<u8>,
    other_topic: Seq<char>,
    other_queue: u32,
    i: nat,
)
    requires
        s.wf(),
        s.accepts(payload) is Ok,
        s.index_store.is_open(topic, queue_id),
        MSG_INDEX_UNIT_SIZE <= s.index_store.capacity,
        s.commit_log.frontier() + s.commit_log.capacity <= usize::MAX,
        s.index_store.indexes[(topic, queue_id)].frontier() + s.index_store.capacity <= usize::MAX,
        keeps(s, other_topic, other_queue, i),
    ensures
        keeps(fed_one(s, topic, queue_id, payload), other_topic, other_queue, i),
        payload_of(fed_one(s, topic, queue_id, payload), other_topic, other_queue, i) == payload_of(
            s,
            other_topic,
            other_queue,
            i,
        ),
        in_range(fed_one(s, topic, queue_id, payload), other_topic, other_queue, i) == in_range(
            s,
            other_topic,
            other_queue,
            i,
        ),
{
    lemma_provisioned_is_ready(s, topic, queue_id, payload);
    let ready = provisioned(s, topic, queue_id, payload.len());
    assert(keeps(ready, other_topic, other_queue, i));
    lemma_kept_stays_kept(ready, topic, queue_id, payload, other_topic, other_queue, i);
}

/// Writing payloads to a queue one after another leaves a well-formed store of
/// the same capacities, in which the queue counts as many messages more as
/// payloads were written: the logical indexes follow the queue's last without
/// gaps.
pub proof fn lemma_fed_counts(
    s: MessageStoreView,
    topic: Seq<char>,
    queue_id: u32,
    payloads: Seq<Seq<u8>>,
)
    requires
        s.wf(),
        s.index_store.is_open(topic, queue_id),
        MSG_INDEX_UNIT_SIZE <= s.index_store.capacity,
        forall|k: int| 0 <= k < payloads.len() ==> s.accepts(#[trigger] payloads[k]) is Ok,
        has_addresses(s, topic, queue_id, payloads),
    ensures
        fed(s, topic, queue_id, payloads).wf(),
        fed(s, topic, queue_id, payloads).index_store.is_open(topic, queue_id),
        fed(s, topic, queue_id, payloads).commit_log.capacity == s.commit_log.capacity,
        fed(s, topic, queue_id, payloads).index_store.capacity == s.index_store.capacity,
        count(fed(s, topic, queue_id, payloads), topic, queue_id) == count(s, topic, queue_id)
            + payloads.len(),
    decreases payloads.len(),
{
    if payloads.len() > 0 {
        let front = payloads.drop_last();
        let last = payloads.last();
        assert forall|k: int| 0 <= k < front.len() implies s.accepts(#[trigger] front[k]) is Ok by {
            assert(front[k] == payloads[k]);
        }
        lemma_fed_counts(s, topic, queue_id, front);
        let before = fed(s, topic, queue_id, front);
        assert(s.accepts(payloads[payloads.len() - 1]) is Ok);
        assert(before.accepts(last) == s.accepts(last));
        lemma_fed_one(before, topic, queue_id, last);
    }
}

/// The store keeps each of the messages that were written to a queue one after
/// another, with the payload it was written with, at the logical index that it
/// got: a read at that index gives the payload back, unless the message's unit
/// or its record ends with the mapping of its segment.
pub proof fn lemma_fed_messages_are_kept(
    s: MessageStoreView,
    topic: Seq<char>,
    queue_id: u32,
    payloads: Seq<Seq<u8>>,
    k: int,
)
    requires
        s.wf(),
        s.index_store.is_open(topic, queue_id),
        MSG_INDEX_UNIT_SIZE <= s.index_store.capacity,
        forall|j: int| 0 <= j < payloads.len() ==> s.accepts(#[trigger] payloads[j]) is Ok,
        has_addresses(s, topic, queue_id, payloads),
        0 <= k < payloads.len(),
    ensures
        keeps(
            fed(s, topic, queue_id, payloads),
            topic,
            queue_id,
            (count(s, topic, queue_id) + k) as nat,
        ),
        payload_of(
            fed(s, topic, queue_id, payloads),
            topic,
            queue_id,
            (count(s, topic, queue_id) + k) as nat,
        ) == payloads[k],
    decreases payloads.len(),
{
    let front = payloads.drop_last();
    let last = payloads.last();
    assert forall|j: int| 0 <= j < front.len() implies s.accepts(#[trigger] front[j]) is Ok by {
        assert(front[j] == payloads[j]);
    }
    lemma_fed_counts(s, topic, queue_id, front);
    let before = fed(s, topic, queue_id, front);
    assert(s.accepts(payloads[payloads.len() - 1]) is Ok);
    assert(before.accepts(last) == s.accepts(last));
    if k < front.len() {
        lemma_fed_messages_are_kept(s, topic, queue_id, front, k);
        assert(front[k] == payloads[k]);
        lemma_fed_one_keeps(
            before,
            topic,
            queue_id,
            last,
            topic,
            queue_id,
            (count(s, topic, queue_id) + k) as nat,
        );
    } else {
        lemma_fed_one(before, topic, queue_id, last);
    }
}

/// Writing messages and then reading their logical indexes gives their payloads:
/// a read of each of the messages that were written to a queue one after another
/// gives the payload that the message was written with, unless the message's
/// unit or its record ends with the mapping of its segment.
pub proof fn lemma_fed_messages_read_back(
    s: MessageStoreView,
    topic: Seq<char>,
    queue_id: u32,
    payloads: Seq<Seq<u8>>,
    k: int,
)
    requires
        s.wf(),
        s.index_store.is_open(topic, queue_id),
        MSG_INDEX_UNIT_SIZE <= s.index_store.capacity,
        forall|j: int| 0 <= j < payloads.len() ==> s.accepts(#[trigger] payloads[j]) is Ok,
        has_addresses(s, topic, queue_id, payloads),
        0 <= k < payloads.len(),
    ensures
        count(s, topic, queue_id) + k <= u64::MAX,
        fed(s, topic, queue_id, payloads).read(
            topic,
            queue_id,
            Some((count(s, topic, queue_id) + k) as u64),
        ) == (if in_range(
            fed(s, topic, queue_id, payloads),
            topic,
            queue_id,
            (count(s, topic, queue_id) + k) as nat,
        ) {
            Ok::<Progress<Seq<u8>>, Error>(Progress::Done(payloads[k]))
        } else {
            Err::<Progress<Seq<u8>>, Error>(Error::OutOfRange)
        }),
{
    lemma_fed_counts(s, topic, queue_id, payloads);
    lemma_fed_messages_are_kept(s, topic, queue_id, payloads, k);
    let after = fed(s, topic, queue_id, payloads);
    let index = after.index_store.indexes[(topic, queue_id)];
    assert(after.index_store.indexes.dom().contains((topic, queue_id)));
    assert(index.frontier() <= usize::MAX) by {
        if index.segments.len() > 0 {
            assert(index.segments[index.segments.len() - 1].wf());
        }
    }
    lemma_read_kept(after, topic, queue_id, (count(s, topic, queue_id) + k) as u64);
}

} // verus!
