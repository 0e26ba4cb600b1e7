//! The indexes of all queues, each opened when its queue is first named. They are
//! kept in a list in which no queue occurs twice.

use vstd::prelude::*;
use memmap2::MmapMut;
use crate::config::ConfigOptions;
use crate::error::Error;
use crate::layout::index_root_dir;
use crate::layout::index_root_path;
use crate::layout::queue_index_path;
use crate::mapped_file_queue::recovers;
use crate::mapped_file_queue::views;
use crate::mapped_file_queue::QueueView;
use crate::mapped_file_queue::Step;
use crate::mapping::mmap_bytes;
use crate::message::DispatchMessage;
use crate::mmap_file::MemoryMappedFile;
use crate::msg_index::index_puts;
use crate::msg_index::index_read;
use crate::msg_index::unit_aligned;
use crate::msg_index::IndexParser;
use crate::msg_index::MessageIndex;
use crate::msg_index::MessageIndexUnit;
use crate::msg_index::MSG_INDEX_UNIT_SIZE;

verus! {

/// Outside work that an operation of the store waits for. Once it is done and
/// its result has been handed over, the operation is to be made again.
#[derive(Debug, Clone, Copy, PartialEq, Eq, Structural)]
pub enum Provision {
    /// The commit log needs a new tail segment, which starts at this address.
    CommitLogSegment(usize),
    /// The index of the queue has not been opened: the files of its directory are
    /// needed.
    Index,
    /// The index of the queue needs a new tail segment, which starts at this
    /// address.
    IndexSegment(usize),
}

/// What an operation of the store came to.
#[derive(Debug, PartialEq, Eq)]
pub enum Progress<T> {
    /// The operation is done, with this result.
    Done(T),
    /// Nothing was done: the operation waits for outside work.
    Need(Provision),
}

/// The index of one queue and the queue's name.
pub struct QueueIndex {
    topic: String,
    queue_id: u32,
    index: MessageIndex,
}

impl QueueIndex {
    /// The topic and the number of the queue.
    pub closed spec fn key(&self) -> (Seq<char>, u32) {
        (self.topic@, self.queue_id)
    }

    /// The index.
    pub closed spec fn index(&self) -> MessageIndex {
        self.index
    }

    /// The topic of the queue.
    pub fn topic(&self) -> (r: &str)
        ensures
            r@ == self.key().0,
    {
        self.topic.as_str()
    }

    /// The number of the queue in its topic.
    pub fn queue_id(&self) -> (r: u32)
        ensures
            r == self.key().1,
    {
        self.queue_id
    }

    /// Gives the index back.
    pub fn into_index(self) -> (r: MessageIndex)
        ensures
            r == self.index(),
    {
        self.index
    }
}

/// The indexes by the names of their queues: a later one with the name of an
/// earlier one would take its place.
pub open spec fn by_key(entries: Seq<QueueIndex>) -> Map<(Seq<char>, u32), QueueView>
    decreases entries.len(),
{
    if entries.len() == 0 {
        Map::empty()
    } else {
        by_key(entries.drop_last()).insert(entries.last().key(), entries.last().index()@)
    }
}

/// Whether no two of the indexes belong to one queue.
pub open spec fn keys_differ(entries: Seq<QueueIndex>) -> bool {
    forall|i: int, j: int|
        0 <= i < j < entries.len() ==> (#[trigger] entries[i]).key() != (#[trigger] entries[j]).key()
}

/// `by_key` holds the queues of the indexes and no others, and for each queue the
/// index that belongs to it, where no two belong to one queue.
pub proof fn lemma_by_key(entries: Seq<QueueIndex>)
    ensures
        forall|k: (Seq<char>, u32)|
            by_key(entries).dom().contains(k) <==> exists|i: int|
                0 <= i < entries.len() && (#[trigger] entries[i]).key() == k,
        keys_differ(entries) ==> forall|i: int|
            0 <= i < entries.len() ==> by_key(entries)[(#[trigger] entries[i]).key()]
                == entries[i].index()@,
    decreases entries.len(),
{
    if entries.len() > 0 {
        let front = entries.drop_last();
        lemma_by_key(front);
        assert forall|k: (Seq<char>, u32)|
            by_key(entries).dom().contains(k) <==> exists|i: int|
                0 <= i < entries.len() && (#[trigger] entries[i]).key() == k by {
            if by_key(entries).dom().contains(k) {
                if k == entries.last().key() {
                    assert(entries[entries.len() - 1].key() == k);
                } else {
                    assert(by_key(front).dom().contains(k));
                    let i = choose|i: int| 0 <= i < front.len() && (#[trigger] front[i]).key() == k;
                    assert(entries[i].key() == k);
                }
            }
            if exists|i: int| 0 <= i < entries.len() && (#[trigger] entries[i]).key() == k {
                let i = choose|i: int| 0 <= i < entries.len() && (#[trigger] entries[i]).key() == k;
                if i < front.len() {
                    assert(front[i].key() == k);
                    assert(by_key(front).dom().contains(k));
                }
            }
        }
        if keys_differ(entries) {
            assert(keys_differ(front)) by {
                assert forall|i: int, j: int| 0 <= i < j < front.len() implies (
                #[trigger] front[i]).key() != (#[trigger] front[j]).key() by {
                    assert(entries[i].key() != entries[j].key());
                }
            }
            assert forall|i: int| 0 <= i < entries.len() implies by_key(entries)[(
            #[trigger] entries[i]).key()] == entries[i].index()@ by {
                if i < front.len() {
                    assert(entries[i].key() != entries[entries.len() - 1].key());
                    assert(front[i] == entries[i]);
                }
            }
        }
    }
}

/// All indexes as plain values.
pub struct IndexStoreView {
    /// The directory of all indexes.
    pub index_store_path: Seq<char>,
    /// The capacity of every index segment.
    pub capacity: nat,
    /// The indexes that have been opened, by topic and number of the queue.
    pub indexes: Map<(Seq<char>, u32), QueueView>,
}

impl IndexStoreView {
    /// Every index that has been opened is a well-formed queue of whole units in
    /// the directory of its queue, with segments of the configured capacity.
    pub open spec fn wf(self) -> bool {
        forall|k: (Seq<char>, u32)| #[trigger]
            self.indexes.dom().contains(k) ==> {
                &&& self.indexes[k].wf()
                &&& unit_aligned(self.indexes[k].segments)
                &&& self.indexes[k].capacity == self.capacity
                &&& self.indexes[k].store_path == queue_index_path(
                    self.index_store_path,
                    k.0,
                    k.1 as nat,
                )
            }
    }

    /// Whether the index of a queue has been opened.
    pub open spec fn is_open(self, topic: Seq<char>, queue_id: u32) -> bool {
        self.indexes.dom().contains((topic, queue_id))
    }

    /// The store with the index of a queue replaced.
    pub open spec fn with_index(self, topic: Seq<char>, queue_id: u32, index: QueueView) -> Self {
        IndexStoreView { indexes: self.indexes.insert((topic, queue_id), index), ..self }
    }

    /// Whether the put of a record's unit into the index of a queue may answer `r`
    /// and leave the store as `after`. Where the index has not been opened,
    /// nothing changes and its files are asked for. Else the put is that of the
    /// index, a new tail that the index asks for is asked for by the store, and no
    /// other index changes.
    pub open spec fn puts(
        self,
        topic: Seq<char>,
        queue_id: u32,
        msg_offset: nat,
        msg_size: nat,
        r: Result<Progress<usize>, Error>,
        after: IndexStoreView,
    ) -> bool {
        if !self.is_open(topic, queue_id) {
            r == Ok::<Progress<usize>, Error>(Progress::Need(Provision::Index)) && after == self
        } else {
            &&& after.is_open(topic, queue_id)
            &&& after == self.with_index(topic, queue_id, after.indexes[(topic, queue_id)])
            &&& match r {
                Ok(Progress::Done(i)) => index_puts(
                    self.indexes[(topic, queue_id)],
                    msg_offset,
                    msg_size,
                    Ok(Step::Done(i)),
                    after.indexes[(topic, queue_id)],
                ),
                Ok(Progress::Need(Provision::IndexSegment(start))) => index_puts(
                    self.indexes[(topic, queue_id)],
                    msg_offset,
                    msg_size,
                    Ok(Step::Rollover(start)),
                    after.indexes[(topic, queue_id)],
                ),
                Ok(Progress::Need(_)) => false,
                Err(e) => index_puts(
                    self.indexes[(topic, queue_id)],
                    msg_offset,
                    msg_size,
                    Err(e),
                    after.indexes[(topic, queue_id)],
                ),
            }
        }
    }

    /// Whether a unit can be put into the index of a queue, and the outside work
    /// that a put waits for where it cannot: where the index has not been opened,
    /// its files; where its tail has no room for a unit, a new tail at the
    /// frontier. An index whose segments cannot hold a unit takes none.
    pub open spec fn ready(self, topic: Seq<char>, queue_id: u32) -> Result<Progress<()>, Error> {
        if !self.is_open(topic, queue_id) {
            Ok(Progress::Need(Provision::Index))
        } else if MSG_INDEX_UNIT_SIZE > self.capacity {
            Err(Error::RecordTooLarge)
        } else if !self.indexes[(topic, queue_id)].has_room(MSG_INDEX_UNIT_SIZE as nat) {
            Ok(
                Progress::Need(
                    Provision::IndexSegment(self.indexes[(topic, queue_id)].frontier() as usize),
                ),
            )
        } else {
            Ok(Progress::Done(()))
        }
    }

    /// What a read of the unit with the logical index `i` of a queue gives: where
    /// the index has not been opened, its files are asked for.
    pub open spec fn read(self, topic: Seq<char>, queue_id: u32, i: nat) -> Result<
        Progress<MessageIndexUnit>,
        Error,
    > {
        if !self.is_open(topic, queue_id) {
            Ok(Progress::Need(Provision::Index))
        } else {
            match index_read(self.indexes[(topic, queue_id)], i) {
                Ok(unit) => Ok(Progress::Done(unit)),
                Err(e) => Err(e),
            }
        }
    }
}

/// The indexes of all queues.
pub struct IndexStore {
    config: ConfigOptions,
    index_list: Vec<QueueIndex>,
    index_store_path: String,
}

impl View for IndexStore {
    type V = IndexStoreView;

    closed spec fn view(&self) -> IndexStoreView {
        IndexStoreView {
            index_store_path: self.index_store_path@,
            capacity: self.config.index_file_size as nat,
            indexes: by_key(self.index_list@),
        }
    }
}

impl IndexStore {
    /// The invariant of the store: no queue has two indexes, and every index is
    /// well formed.
    pub closed spec fn wf(&self) -> bool {
        &&& keys_differ(self.index_list@)
        &&& forall|i: int|
            0 <= i < self.index_list@.len() ==> {
                &&& (#[trigger] self.index_list@[i]).index().wf()
                &&& self.index_list@[i].index()@.capacity == self.config.index_file_size
                &&& self.index_list@[i].index()@.store_path == queue_index_path(
                    self.index_store_path@,
                    self.index_list@[i].key().0,
                    self.index_list@[i].key().1 as nat,
                )
            }
    }

    /// A well-formed store is well formed as plain values.
    pub proof fn lemma_wf(&self)
        requires
            self.wf(),
        ensures
            self@.wf(),
    {
        lemma_by_key(self.index_list@);
        assert forall|k: (Seq<char>, u32)| #[trigger]
            self@.indexes.dom().contains(k) implies {
            &&& self@.indexes[k].wf()
            &&& unit_aligned(self@.indexes[k].segments)
            &&& self@.indexes[k].capacity == self@.capacity
            &&& self@.indexes[k].store_path == queue_index_path(
                self@.index_store_path,
                k.0,
                k.1 as nat,
            )
        } by {
            let i = choose|i: int|
                0 <= i < self.index_list@.len() && (#[trigger] self.index_list@[i]).key() == k;
            assert(self.index_list@[i].index().wf());
        }
    }

    /// Makes the store of the indexes under `<msg_store_path>/index`, with no
    /// index opened.
    pub fn new(config: ConfigOptions) -> (r: Result<Self, Error>)
        ensures
            r matches Ok(store) && store.wf() && store@ == (IndexStoreView {
                index_store_path: index_root_path(config.msg_store_path@),
                capacity: config.index_file_size as nat,
                indexes: Map::empty(),
            }),
    {
        let index_store_path = index_root_dir(config.msg_store_path.as_str());
        Ok(IndexStore { config, index_list: Vec::new(), index_store_path })
    }

    /// The directory of all indexes.
    pub fn index_store_path(&self) -> (r: &str)
        ensures
            r@ == self@.index_store_path,
    {
        self.index_store_path.as_str()
    }

    /// The capacity of every index segment.
    pub fn index_file_size(&self) -> (r: u64)
        ensures
            r == self@.capacity,
    {
        self.config.index_file_size
    }

    /// Gives the indexes back.
    pub fn into_indexes(self) -> (r: Vec<QueueIndex>)
        ensures
            by_key(r@) == self@.indexes,
    {
        self.index_list
    }

    /// Where the index of a queue stands among the indexes.
    fn find_index(&self, topic: &str, queue_id: u32) -> (r: Option<usize>)
        requires
            self.wf(),
        ensures
            r is Some <==> self@.is_open(topic@, queue_id),
            r matches Some(i) ==> i < self.index_list@.len() && self.index_list@[i as int].key() == (
                topic@,
                queue_id,
            ) && self.index_list@[i as int].index()@ == self@.indexes[(topic@, queue_id)],
    {
        proof {
            lemma_by_key(self.index_list@);
        }
        let wanted = topic.to_owned();
        let n = self.index_list.len();
        let mut i: usize = 0;
        while i < n
            invariant
                i <= n,
                n == self.index_list@.len(),
                wanted@ == topic@,
                self.wf(),
                forall|j: int| 0 <= j < i ==> (#[trigger] self.index_list@[j]).key() != (topic@, queue_id),
            decreases n - i,
        {
            if self.index_list[i].queue_id == queue_id && self.index_list[i].topic == wanted {
                proof {
                    lemma_by_key(self.index_list@);
                    assert(self.index_list@[i as int].key() == (topic@, queue_id));
                }
                return Some(i);
            }
            i = i + 1;
        }
        None
    }

    /// Whether the index of a queue has been opened.
    pub fn is_open(&self, topic: &str, queue_id: u32) -> (r: bool)
        requires
            self.wf(),
        ensures
            r == self@.is_open(topic@, queue_id),
    {
        self.find_index(topic, queue_id).is_some()
    }

    /// Whether a unit can be put into the index of a queue, and the outside work
    /// that a put waits for where it cannot.
    pub fn ready(&self, topic: &str, queue_id: u32) -> (r: Result<Progress<()>, Error>)
        requires
            self.wf(),
        ensures
            r == self@.ready(topic@, queue_id),
    {
        match self.find_index(topic, queue_id) {
            None => Ok(Progress::Need(Provision::Index)),
            Some(i) => {
                if MSG_INDEX_UNIT_SIZE as u64 > self.config.index_file_size {
                    Err(Error::RecordTooLarge)
                } else if !self.index_list[i].index.has_room() {
                    Ok(Progress::Need(Provision::IndexSegment(self.index_list[i].index.frontier())))
                } else {
                    Ok(Progress::Done(()))
                }
            },
        }
    }

    /// Opens the index of a queue on the files found in its directory, as
    /// `MessageIndex::new` does. An index that has been opened before is not
    /// opened again: the call fails with `InvalidInput`.
    pub fn open_index(&mut self, topic: &str, queue_id: u32, files: Vec<MemoryMappedFile>) -> (r:
        Result<(), Error>)
        requires
            old(self).wf(),
            forall|i: int| 0 <= i < files@.len() ==> (#[trigger] files@[i]).wf(),
        ensures
            final(self).wf(),
            old(self)@.is_open(topic@, queue_id) ==> r == Err::<(), Error>(Error::InvalidInput)
                && final(self)@ == old(self)@,
            !old(self)@.is_open(topic@, queue_id) ==> match recovers(
                old(self)@.capacity,
                views(files@),
                &IndexParser,
            ) {
                Ok(segments) => r == Ok::<(), Error>(()) && final(self)@ == old(self)@.with_index(
                    topic@,
                    queue_id,
                    QueueView {
                        store_path: queue_index_path(
                            old(self)@.index_store_path,
                            topic@,
                            queue_id as nat,
                        ),
                        capacity: old(self)@.capacity,
                        segments,
                    },
                ),
                Err(e) => r == Err::<(), Error>(e) && final(self)@ == old(self)@,
            },
    {
        if self.find_index(topic, queue_id).is_some() {
            return Err(Error::InvalidInput);
        }
        match MessageIndex::new(
            self.index_store_path.as_str(),
            topic,
            queue_id,
            self.config.index_file_size,
            files,
        ) {
            Err(e) => Err(e),
            Ok(index) => {
                proof {
                    lemma_by_key(self.index_list@);
                }
                let entry = QueueIndex { topic: topic.to_owned(), queue_id, index };
                self.index_list.push(entry);
                proof {
                    assert(self.index_list@.drop_last() =~= old(self).index_list@);
                    assert(self@.indexes =~= old(self)@.indexes.insert((topic@, queue_id), index@));
                    assert forall|i: int, j: int| 0 <= i < j < self.index_list@.len() implies (
                    #[trigger] self.index_list@[i]).key() != (#[trigger] self.index_list@[j]).key() by {
                        assert(self.index_list@[i] == old(self).index_list@[i]);
                        if j < old(self).index_list@.len() {
                            assert(self.index_list@[j] == old(self).index_list@[j]);
                        }
                    }
                    assert forall|i: int| 0 <= i < self.index_list@.len() implies (
                    #[trigger] self.index_list@[i]).index().wf() by {
                        if i < old(self).index_list@.len() {
                            assert(self.index_list@[i] == old(self).index_list@[i]);
                        }
                    }
                }
                Ok(())
            },
        }
    }

    /// Adds a new, empty tail segment over `mmap` to the index of a queue, as
    /// `MappedFileQueue::create_mapped_file` does. The index has to be open: else
    /// the call fails with `InvalidInput`.
    pub fn create_mapped_file(
        &mut self,
        topic: &str,
        queue_id: u32,
        mmap: MmapMut,
        start_offset: usize,
    ) -> (r: Result<(), Error>)
        requires
            old(self).wf(),
        ensures
            final(self).wf(),
            r is Ok <==> old(self)@.is_open(topic@, queue_id) && old(self)@.indexes[(
                topic@,
                queue_id,
            )].takes_tail(start_offset as nat, mmap_bytes(mmap).len()),
            r is Ok ==> final(self)@ == old(self)@.with_index(
                topic@,
                queue_id,
                old(self)@.indexes[(topic@, queue_id)].rolled(mmap_bytes(mmap)),
            ),
            r matches Err(e) ==> e == Error::InvalidInput && final(self)@ == old(self)@,
    {
        match self.find_index(topic, queue_id) {
            None => Err(Error::InvalidInput),
            Some(i) => {
                let r = self.index_list[i].index.create_mapped_file(mmap, start_offset);
                proof {
                    self.lemma_replaced(*old(self), i as int);
                    if r is Err {
                        assert(self@.indexes =~= old(self)@.indexes);
                    }
                }
                r
            },
        }
    }

    /// A store in which one index has changed within its invariant, and kept its
    /// queue, its directory and its capacity, is well formed, and as plain values
    /// it is the store before with that index replaced.
    proof fn lemma_replaced(&self, before: IndexStore, i: int)
        requires
            before.wf(),
            0 <= i < before.index_list@.len(),
            self.config == before.config,
            self.index_store_path == before.index_store_path,
            self.index_list@.len() == before.index_list@.len(),
            forall|j: int|
                0 <= j < before.index_list@.len() && j != i ==> self.index_list@[j]
                    == before.index_list@[j],
            self.index_list@[i].key() == before.index_list@[i].key(),
            self.index_list@[i].index().wf(),
            self.index_list@[i].index()@.capacity == before.index_list@[i].index()@.capacity,
            self.index_list@[i].index()@.store_path == before.index_list@[i].index()@.store_path,
        ensures
            self.wf(),
            self@ == before@.with_index(
                before.index_list@[i].key().0,
                before.index_list@[i].key().1,
                self.index_list@[i].index()@,
            ),
    {
        lemma_by_key(before.index_list@);
        assert forall|a: int, b: int| 0 <= a < b < self.index_list@.len() implies (
        #[trigger] self.index_list@[a]).key() != (#[trigger] self.index_list@[b]).key() by {
            assert(before.index_list@[a].key() != before.index_list@[b].key());
        }
        assert forall|j: int| 0 <= j < self.index_list@.len() implies {
            &&& (#[trigger] self.index_list@[j]).index().wf()
            &&& self.index_list@[j].index()@.capacity == self.config.index_file_size
            &&& self.index_list@[j].index()@.store_path == queue_index_path(
                self.index_store_path@,
                self.index_list@[j].key().0,
                self.index_list@[j].key().1 as nat,
            )
        } by {
            assert(before.index_list@[j].index().wf());
        }
        lemma_by_key(self.index_list@);
        let key = before.index_list@[i].key();
        let expected = before@.indexes.insert(key, self.index_list@[i].index()@);
        assert forall|k: (Seq<char>, u32)| self@.indexes.dom().contains(k) <==> expected.dom().contains(
            k,
        ) by {
            if self@.indexes.dom().contains(k) {
                let j = choose|j: int|
                    0 <= j < self.index_list@.len() && (#[trigger] self.index_list@[j]).key() == k;
                assert(before.index_list@[j].key() == k);
            }
            if expected.dom().contains(k) {
                if k != key {
                    let j = choose|j: int|
                        0 <= j < before.index_list@.len() && (#[trigger] before.index_list@[j]).key()
                            == k;
                    assert(self.index_list@[j].key() == k);
                } else {
                    assert(self.index_list@[i].key() == k);
                }
            }
        }
        assert forall|k: (Seq<char>, u32)| self@.indexes.dom().contains(k) implies self@.indexes[k]
            == expected[k] by {
            let j = choose|j: int|
                0 <= j < self.index_list@.len() && (#[trigger] self.index_list@[j]).key() == k;
            assert(self@.indexes[self.index_list@[j].key()] == self.index_list@[j].index()@);
            if j != i {
                assert(before@.indexes[before.index_list@[j].key()] == before.index_list@[j].index()@);
                assert(before.index_list@[j].key() != before.index_list@[i].key());
            }
        }
        assert(self@.indexes =~= expected);
    }

    /// Appends the unit of a dispatched record to the index of its queue and
    /// answers with the record's logical index. Where the index has not been
    /// opened, or its tail has no room, nothing is written and the answer is the
    /// outside work that the put waits for.
    pub fn put_msg_index(&mut self, dispatch_msg: &DispatchMessage) -> (r: Result<
        Progress<usize>,
        Error,
    >)
        requires
            old(self).wf(),
        ensures
            final(self).wf(),
            old(self)@.puts(
                dispatch_msg.topic@,
                dispatch_msg.queue_id,
                dispatch_msg.msg_offset as nat,
                dispatch_msg.msg_size as nat,
                r,
                final(self)@,
            ),
    {
        match self.find_index(dispatch_msg.topic.as_str(), dispatch_msg.queue_id) {
            None => Ok(Progress::Need(Provision::Index)),
            Some(i) => {
                let put = self.index_list[i].index.put_msg_index(
                    dispatch_msg.msg_offset,
                    dispatch_msg.msg_size,
                );
                proof {
                    self.lemma_replaced(*old(self), i as int);
                    lemma_by_key(self.index_list@);
                }
                match put {
                    Ok(Step::Done(index)) => Ok(Progress::Done(index)),
                    Ok(Step::Rollover(start)) => Ok(Progress::Need(Provision::IndexSegment(start))),
                    Err(e) => Err(e),
                }
            },
        }
    }

    /// Reads the unit of the record with the logical index `index_offset` of a
    /// queue. Where the index has not been opened, the answer is that its files
    /// are needed.
    pub fn read_msg_index(&self, topic: &str, queue_id: u32, index_offset: usize) -> (r: Result<
        Progress<MessageIndexUnit>,
        Error,
    >)
        requires
            self.wf(),
        ensures
            r == self@.read(topic@, queue_id, index_offset as nat),
    {
        match self.find_index(topic, queue_id) {
            None => Ok(Progress::Need(Provision::Index)),
            Some(i) => {
                match self.index_list[i].index.read_msg_index(index_offset) {
                    Ok(unit) => Ok(Progress::Done(unit)),
                    Err(e) => Err(e),
                }
            },
        }
    }
}

} // verus!
