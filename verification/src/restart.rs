//! What a restart keeps. A queue whose segments hold whole records, and zeros
//! behind them, is recovered from its files as it was; writes keep a queue so.

use vstd::prelude::*;
use vstd::seq_lib::to_multiset_build;
use vstd::seq_lib::to_multiset_contains;
use vstd::seq_lib::to_multiset_insert;
use vstd::seq_lib::to_multiset_len;
use vstd::seq_lib::to_multiset_remove;
use crate::codec::lemma_fixed_width;
use crate::codec::lemma_le_value_zero;
use crate::codec::spec_u32_bytes;
use crate::codec::spec_u64_bytes;
use crate::commit_log::CommitLogParser;
use crate::commit_log::footprint;
use crate::commit_log::record_bytes;
use crate::error::Error;
use crate::index_store::Progress;
use crate::mapped_file_queue::insert_by_offset;
use crate::mapped_file_queue::lemma_segments_ascend;
use crate::mapped_file_queue::lemma_sort_ascends;
use crate::mapped_file_queue::lemma_sort_keeps;
use crate::mapped_file_queue::QueueView;
use crate::mapped_file_queue::recover_all;
use crate::mapped_file_queue::recovers;
use crate::mapped_file_queue::sort_by_offset;
use crate::mmap_file::SegmentView;
use crate::msg_index::indexable;
use crate::msg_index::IndexParser;
use crate::msg_index::MessageIndexUnit;
use crate::msg_index::MSG_INDEX_UNIT_SIZE;
use crate::msg_store::MessageStoreView;
use crate::record::lemma_scan_frame;
use crate::record::RecordParser;
use crate::record::scan_end;
use crate::record::zero_from;
use crate::retention::fed;
use crate::retention::has_addresses;
use crate::retention::lemma_fed_counts;
use crate::retention::lemma_provisioned_is_ready;
use crate::retention::provisioned;

verus! {

/// Whether a restart finds every segment as it is: a scan of each stops at its
/// frontier, and zeros follow.
pub open spec fn restorable<P: RecordParser>(q: QueueView, parser: &P) -> bool {
    forall|i: int|
        0 <= i < q.segments.len() ==> (#[trigger] q.segments[i]).is_clean()
            && q.segments[i].scans_back(parser)
}

/// The segments as they are when their files have just been mapped: with nothing
/// committed.
pub open spec fn reopened(segments: Seq<SegmentView>) -> Seq<SegmentView> {
    Seq::new(segments.len(), |i: int| segments[i].reopened())
}

/// Segments in ascending order are the same segments, each as often as before.
pub proof fn lemma_sort_permutes(segments: Seq<SegmentView>)
    ensures
        sort_by_offset(segments).to_multiset() == segments.to_multiset(),
    decreases segments.len(),
{
    if segments.len() > 0 {
        let rest = segments.drop_first();
        lemma_sort_permutes(rest);
        lemma_insert_permutes(sort_by_offset(rest), segments.first());
        assert(rest.insert(0, segments.first()) =~= segments);
        to_multiset_insert(rest, 0, segments.first());
    } else {
        assert(sort_by_offset(segments) =~= segments);
    }
}

/// A segment that gets its place among others is one segment more.
pub proof fn lemma_insert_permutes(sorted: Seq<SegmentView>, s: SegmentView)
    ensures
        insert_by_offset(sorted, s).to_multiset() == sorted.to_multiset().insert(s),
    decreases sorted.len(),
{
    if sorted.len() == 0 || sorted.last().min_offset <= s.min_offset {
        if sorted.len() == 0 {
            assert(seq![s] =~= sorted.push(s));
        }
        to_multiset_build(sorted, s);
    } else {
        let front = sorted.drop_last();
        lemma_insert_permutes(front, s);
        to_multiset_build(insert_by_offset(front, s), sorted.last());
        to_multiset_build(front, sorted.last());
        assert(front.push(sorted.last()) =~= sorted);
        assert(front.to_multiset().insert(s).insert(sorted.last()) =~= front.to_multiset().insert(
            sorted.last(),
        ).insert(s));
    }
}

/// Segments in ascending order that are the segments of others, which start at
/// rising addresses, are those in their order.
pub proof fn lemma_ascending_is_unique(sorted: Seq<SegmentView>, rising: Seq<SegmentView>)
    requires
        forall|i: int, j: int|
            0 <= i <= j < sorted.len() ==> sorted[i].min_offset <= sorted[j].min_offset,
        forall|i: int, j: int|
            0 <= i < j < rising.len() ==> rising[i].min_offset < rising[j].min_offset,
        sorted.to_multiset() == rising.to_multiset(),
    ensures
        sorted == rising,
    decreases sorted.len(),
{
    to_multiset_len(sorted);
    to_multiset_len(rising);
    if sorted.len() > 0 {
        let n = sorted.len() - 1;
        let y = sorted[n];
        let z = rising[n];
        to_multiset_contains(sorted, y);
        to_multiset_contains(rising, y);
        to_multiset_contains(sorted, z);
        to_multiset_contains(rising, z);
        assert(sorted.contains(y));
        assert(rising.contains(z));
        let j = choose|j: int| 0 <= j < rising.len() && rising[j] == y;
        let i = choose|i: int| 0 <= i < sorted.len() && sorted[i] == z;
        assert(y == z) by {
            if j < n {
                assert(rising[j].min_offset < rising[n].min_offset);
                assert(sorted[i].min_offset <= sorted[n].min_offset);
            }
        }
        to_multiset_remove(sorted, n);
        to_multiset_remove(rising, n);
        assert(sorted.remove(n) =~= sorted.drop_last());
        assert(rising.remove(n) =~= rising.drop_last());
        assert forall|a: int, b: int| 0 <= a <= b < sorted.drop_last().len() implies sorted.drop_last()[a].min_offset
            <= sorted.drop_last()[b].min_offset by {
            assert(sorted[a].min_offset <= sorted[b].min_offset);
        }
        assert forall|a: int, b: int| 0 <= a < b < rising.drop_last().len() implies rising.drop_last()[a].min_offset
            < rising.drop_last()[b].min_offset by {
            assert(rising[a].min_offset < rising[b].min_offset);
        }
        lemma_ascending_is_unique(sorted.drop_last(), rising.drop_last());
        assert(sorted =~= sorted.drop_last().push(y));
        assert(rising =~= rising.drop_last().push(z));
    } else {
        assert(sorted =~= rising);
    }
}

/// Files that are the same files in another order are, once scanned, the same
/// segments in another order.
pub proof fn lemma_scan_permutes<P: RecordParser>(
    found: Seq<SegmentView>,
    files: Seq<SegmentView>,
    parser: &P,
)
    requires
        found.to_multiset() == files.to_multiset(),
    ensures
        recover_all(found, parser).to_multiset() == recover_all(files, parser).to_multiset(),
    decreases found.len(),
{
    broadcast use vstd::multiset::group_multiset_axioms;

    to_multiset_len(found);
    to_multiset_len(files);
    if found.len() > 0 {
        let n = found.len() - 1;
        let x = found[n];
        to_multiset_contains(found, x);
        to_multiset_contains(files, x);
        assert(found.contains(x));
        let j = choose|j: int| 0 <= j < files.len() && files[j] == x;
        to_multiset_remove(found, n);
        to_multiset_remove(files, j);
        lemma_scan_permutes(found.remove(n), files.remove(j), parser);
        let scanned = recover_all(found, parser);
        let expected = recover_all(files, parser);
        assert(scanned.remove(n) =~= recover_all(found.remove(n), parser));
        assert(expected.remove(j) =~= recover_all(files.remove(j), parser));
        to_multiset_remove(scanned, n);
        to_multiset_remove(expected, j);
        to_multiset_contains(scanned, scanned[n]);
        to_multiset_contains(expected, expected[j]);
        assert(scanned.contains(scanned[n]));
        assert(expected.contains(expected[j]));
        assert(scanned.to_multiset() =~= scanned.remove(n).to_multiset().insert(scanned[n]));
        assert(expected.to_multiset() =~= expected.remove(j).to_multiset().insert(expected[j]));
    } else {
        assert(recover_all(found, parser) =~= recover_all(files, parser));
    }
}

/// A restart of a restorable queue recovers its segments as they were, in
/// whatever order the directory gives their files.
pub proof fn lemma_restart_restores_any_order<P: RecordParser>(
    q: QueueView,
    parser: &P,
    found: Seq<SegmentView>,
)
    requires
        q.wf(),
        restorable(q, parser),
        found.to_multiset() == reopened(q.segments).to_multiset(),
    ensures
        recovers(q.capacity, found, parser) == Ok::<Seq<SegmentView>, Error>(q.segments),
{
    let files = reopened(q.segments);
    assert forall|i: int| 0 <= i < found.len() implies (#[trigger] found[i]).capacity()
        == q.capacity by {
        to_multiset_contains(found, found[i]);
        to_multiset_contains(files, found[i]);
        assert(found.contains(found[i]));
        let j = choose|j: int| 0 <= j < files.len() && files[j] == found[i];
        assert(q.segments[j].wf());
    }
    lemma_scan_permutes(found, files, parser);
    assert forall|i: int| 0 <= i < q.segments.len() implies recover_all(files, parser)[i]
        == q.segments[i] by {
        assert(q.segments[i].wf());
        assert(q.segments[i].scans_back(parser));
    }
    assert(recover_all(files, parser) =~= q.segments);
    let scanned = recover_all(found, parser);
    let sorted = sort_by_offset(scanned);
    lemma_sort_permutes(scanned);
    lemma_sort_keeps(scanned, |s: SegmentView| true);
    assert forall|i: int, j: int| 0 <= i <= j < sorted.len() implies sorted[i].min_offset
        <= sorted[j].min_offset by {
        lemma_sort_ascends(scanned, i, j);
    }
    assert forall|i: int, j: int| 0 <= i < j < q.segments.len() implies q.segments[i].min_offset
        < q.segments[j].min_offset by {
        lemma_segments_ascend(q, i, j);
        assert(q.segments[i].wf());
    }
    lemma_ascending_is_unique(sorted, q.segments);
}

/// A queue without segments is restorable.
pub proof fn lemma_empty_restorable<P: RecordParser>(q: QueueView, parser: &P)
    requires
        q.segments.len() == 0,
    ensures
        restorable(q, parser),
{
}

/// A restorable queue stays so with a new tail of zeros, in which no record
/// starts.
pub proof fn lemma_new_tail_restorable<P: RecordParser>(q: QueueView, parser: &P, bytes: Seq<u8>)
    requires
        restorable(q, parser),
        zero_from(bytes, 0),
        parser.record_len(bytes, 0) is None,
    ensures
        restorable(q.rolled(bytes), parser),
{
    let r = q.rolled(bytes);
    assert forall|i: int| 0 <= i < r.segments.len() implies (#[trigger] r.segments[i]).is_clean()
        && r.segments[i].scans_back(parser) by {
        if i < q.segments.len() {
            assert(r.segments[i] == q.segments[i]);
        }
    }
}

/// No record of the commit log starts where only zeros follow, and no unit of an
/// index.
pub proof fn lemma_zeros_end_scan(bytes: Seq<u8>, pos: nat)
    requires
        zero_from(bytes, pos),
    ensures
        CommitLogParser.record_len(bytes, pos) is None,
        IndexParser.record_len(bytes, pos) is None,
{
    if pos + 8 <= bytes.len() {
        lemma_le_value_zero(bytes.subrange(pos as int, pos + 8 as int));
    }
    if pos + 12 <= bytes.len() {
        lemma_le_value_zero(bytes.subrange(pos + 8 as int, pos + 12 as int));
    }
}

/// A segment that a restart finds as it is, is found as it is once one more
/// record has been appended: the scan steps over the records as before, then
/// over the new one, and stops at the zeros behind it.
pub proof fn lemma_record_keeps_segment<P: RecordParser>(
    s: SegmentView,
    parser: &P,
    data: Seq<u8>,
)
    requires
        s.wf(),
        s.fits(data.len()),
        s.is_clean(),
        s.scans_back(parser),
        parser.record_len(s.written(data), s.used()) == Some(data.len()),
        data.len() > 0,
        parser.record_len(s.written(data), s.used() + data.len()) is None,
        forall|p: nat|
            (#[trigger] parser.record_len(s.bytes, p) matches Some(m) && p + m <= s.used())
                ==> parser.record_len(s.written(data), p) == parser.record_len(s.bytes, p),
    ensures
        s.append(data).is_clean(),
        s.append(data).scans_back(parser),
{
    let after = s.written(data);
    lemma_scan_frame(parser, s.bytes, after, 0, s.used());
    assert(scan_end(parser, after, s.used()) == scan_end(parser, after, s.used() + data.len()));
}

/// The commit log stays restorable when a record is written.
pub proof fn lemma_log_write_restorable(log: QueueView, payload: Seq<u8>)
    requires
        log.wf(),
        restorable(log, &CommitLogParser),
        payload.len() > 0,
        footprint(payload.len()) <= usize::MAX,
        log.has_room(footprint(payload.len())),
    ensures
        record_bytes(payload).len() == footprint(payload.len()),
        restorable(log.append(record_bytes(payload)), &CommitLogParser),
{
    lemma_fixed_width(payload.len() as u64, 0);
    let data = record_bytes(payload);
    let last = log.segments.len() - 1;
    let s = log.segments[last];
    assert(s.wf() && s.is_clean() && s.scans_back(&CommitLogParser));
    let after = s.written(data);
    let used = s.used();
    assert(after.subrange(used as int, used + 8 as int) =~= data.subrange(0, 8));
    assert(data.subrange(0, 8) =~= spec_u64_bytes(payload.len() as u64));
    assert(zero_from(after, used + data.len()));
    lemma_zeros_end_scan(after, used + data.len());
    assert forall|p: nat|
        (#[trigger] CommitLogParser.record_len(s.bytes, p) matches Some(m) && p + m <= used)
            implies CommitLogParser.record_len(after, p) == CommitLogParser.record_len(
        s.bytes,
        p,
    ) by {
        assert(after.subrange(p as int, p + 8 as int) =~= s.bytes.subrange(
            p as int,
            p + 8 as int,
        ));
    }
    lemma_record_keeps_segment(s, &CommitLogParser, data);
    let next = log.append(data);
    assert forall|i: int| 0 <= i < next.segments.len() implies (
    #[trigger] next.segments[i]).is_clean() && next.segments[i].scans_back(&CommitLogParser) by {
        if i < last {
            assert(next.segments[i] == log.segments[i]);
        }
    }
}

/// An index stays restorable when a unit is put.
pub proof fn lemma_index_put_restorable(index: QueueView, unit: MessageIndexUnit)
    requires
        index.wf(),
        restorable(index, &IndexParser),
        indexable(unit.size as nat),
        index.has_room(MSG_INDEX_UNIT_SIZE as nat),
    ensures
        unit.spec_encode().len() == MSG_INDEX_UNIT_SIZE,
        restorable(index.append(unit.spec_encode()), &IndexParser),
{
    lemma_fixed_width(unit.offset, unit.size);
    let data = unit.spec_encode();
    let last = index.segments.len() - 1;
    let s = index.segments[last];
    assert(s.wf() && s.is_clean() && s.scans_back(&IndexParser));
    let after = s.written(data);
    let used = s.used();
    assert(after.subrange(used + 8 as int, used + 12 as int) =~= data.subrange(8, 12));
    assert(data.subrange(8, 12) =~= spec_u32_bytes(unit.size));
    assert(zero_from(after, used + data.len()));
    lemma_zeros_end_scan(after, used + data.len());
    assert forall|p: nat|
        (#[trigger] IndexParser.record_len(s.bytes, p) matches Some(m) && p + m <= used)
            implies IndexParser.record_len(after, p) == IndexParser.record_len(s.bytes, p) by {
        assert(after.subrange(p + 8 as int, p + 12 as int) =~= s.bytes.subrange(
            p + 8 as int,
            p + 12 as int,
        ));
    }
    lemma_record_keeps_segment(s, &IndexParser, data);
    let next = index.append(data);
    assert forall|i: int| 0 <= i < next.segments.len() implies (
    #[trigger] next.segments[i]).is_clean() && next.segments[i].scans_back(&IndexParser) by {
        if i < last {
            assert(next.segments[i] == index.segments[i]);
        }
    }
}

/// Whether a restart finds the commit log and every index as they are.
pub open spec fn store_restorable(s: MessageStoreView) -> bool {
    &&& restorable(s.commit_log, &CommitLogParser)
    &&& forall|k: (Seq<char>, u32)| #[trigger]
        s.index_store.indexes.dom().contains(k) ==> restorable(
            s.index_store.indexes[k],
            &IndexParser,
        )
}

/// A store that a restart finds as it is, is found as it is after a write.
pub proof fn lemma_written_restorable(
    s: MessageStoreView,
    topic: Seq<char>,
    queue_id: u32,
    payload: Seq<u8>,
)
    requires
        s.wf(),
        store_restorable(s),
        s.ready(topic, queue_id, payload) == Ok::<Progress<()>, Error>(Progress::Done(())),
    ensures
        store_restorable(s.written(topic, queue_id, payload)),
{
    let key = (topic, queue_id);
    assert(s.index_store.indexes.dom().contains(key));
    lemma_log_write_restorable(s.commit_log, payload);
    lemma_index_put_restorable(s.index_store.indexes[key], s.next_unit(payload));
    let after = s.written(topic, queue_id, payload);
    assert forall|k: (Seq<char>, u32)| #[trigger]
        after.index_store.indexes.dom().contains(k) implies restorable(
        after.index_store.indexes[k],
        &IndexParser,
    ) by {
        assert(s.index_store.indexes.dom().contains(k));
    }
}

/// A store that a restart finds as it is, is found as it is once it has been
/// provisioned for a write with new files, which hold zeros.
pub proof fn lemma_provisioned_restorable(
    s: MessageStoreView,
    topic: Seq<char>,
    queue_id: u32,
    len: nat,
)
    requires
        store_restorable(s),
        s.index_store.is_open(topic, queue_id),
    ensures
        store_restorable(provisioned(s, topic, queue_id, len)),
{
    let key = (topic, queue_id);
    assert(s.index_store.indexes.dom().contains(key));
    let log_zeros = Seq::new(s.commit_log.capacity, |i: int| 0u8);
    let index_zeros = Seq::new(s.index_store.capacity, |i: int| 0u8);
    lemma_zeros_end_scan(log_zeros, 0);
    lemma_zeros_end_scan(index_zeros, 0);
    lemma_new_tail_restorable(s.commit_log, &CommitLogParser, log_zeros);
    lemma_new_tail_restorable(s.index_store.indexes[key], &IndexParser, index_zeros);
    let after = provisioned(s, topic, queue_id, len);
    assert forall|k: (Seq<char>, u32)| #[trigger]
        after.index_store.indexes.dom().contains(k) implies restorable(
        after.index_store.indexes[k],
        &IndexParser,
    ) by {
        assert(s.index_store.indexes.dom().contains(k));
    }
}

/// A store that a restart finds as it is, is found as it is after messages have
/// been written to a queue one after another: the commit log and every index
/// are recovered from their files as they were, so that every read gives what it
/// gave and the next write gets the next logical index.
pub proof fn lemma_fed_restorable(
    s: MessageStoreView,
    topic: Seq<char>,
    queue_id: u32,
    payloads: Seq<Seq<u8>>,
)
    requires
        s.wf(),
        store_restorable(s),
        s.index_store.is_open(topic, queue_id),
        MSG_INDEX_UNIT_SIZE <= s.index_store.capacity,
        forall|k: int| 0 <= k < payloads.len() ==> s.accepts(#[trigger] payloads[k]) is Ok,
        has_addresses(s, topic, queue_id, payloads),
    ensures
        store_restorable(fed(s, topic, queue_id, payloads)),
    decreases payloads.len(),
{
    if payloads.len() > 0 {
        let front = payloads.drop_last();
        let last = payloads.last();
        assert forall|k: int| 0 <= k < front.len() implies s.accepts(#[trigger] front[k]) is Ok by {
            assert(front[k] == payloads[k]);
        }
        lemma_fed_counts(s, topic, queue_id, front);
        lemma_fed_restorable(s, topic, queue_id, front);
        let before = fed(s, topic, queue_id, front);
        assert(s.accepts(payloads[payloads.len() - 1]) is Ok);
        assert(before.accepts(last) == s.accepts(last));
        lemma_provisioned_is_ready(before, topic, queue_id, last);
        lemma_provisioned_restorable(before, topic, queue_id, last.len());
        lemma_written_restorable(provisioned(before, topic, queue_id, last.len()), topic, queue_id, last);
    }
}

} // verus!
