//! The store: one commit log for the records of all queues, and the indexes that
//! lead from a queue's logical indexes to its records. A message is written to
//! the commit log first and indexed after that.

use vstd::prelude::*;
use vstd::slice::slice_subrange;
use vstd::slice::slice_to_vec;
use memmap2::MmapMut;
use crate::commit_log::footprint;
use crate::commit_log::log_read;
use crate::commit_log::record_bytes;
use crate::commit_log::record_payload;
use crate::commit_log::CommitLog;
use crate::commit_log::CommitLogParser;
use crate::commit_log::LENGTH_PREFIX_SIZE;
use crate::config::ConfigOptions;
use crate::error::Error;
use crate::index_store::IndexStore;
use crate::index_store::IndexStoreView;
use crate::index_store::Progress;
use crate::index_store::Provision;
use crate::layout::commit_log_path;
use crate::layout::index_root_path;
use crate::layout::queue_index_path;
use crate::mapped_file_queue::lemma_covered_is_address;
use crate::mapped_file_queue::recovers;
use crate::mapped_file_queue::views;
use crate::mapped_file_queue::QueueView;
use crate::mapped_file_queue::Step;
use crate::mapping::mmap_bytes;
use crate::message::DispatchMessage;
use crate::message::Message;
use crate::mmap_file::MemoryMappedFile;
use crate::msg_index::indexable;
use crate::msg_index::IndexParser;
use crate::msg_index::MessageIndexUnit;
use crate::msg_index::MSG_INDEX_UNIT_SIZE;

verus! {

/// A store as plain values.
pub struct MessageStoreView {
    /// The commit log.
    pub commit_log: QueueView,
    /// The indexes.
    pub index_store: IndexStoreView,
}

impl MessageStoreView {
    /// The commit log and the indexes are well formed.
    pub open spec fn wf(self) -> bool {
        self.commit_log.wf() && self.index_store.wf()
    }

    /// Whether a payload can go into the store at all: it is not empty, its
    /// record fits in a segment of the commit log, and the record's footprint
    /// fits in a unit.
    pub open spec fn accepts(self, payload: Seq<u8>) -> Result<(), Error> {
        if payload.len() == 0 {
            Err(Error::InvalidInput)
        } else if footprint(payload.len()) > self.commit_log.capacity || footprint(payload.len())
            > usize::MAX {
            Err(Error::RecordTooLarge)
        } else if !indexable(footprint(payload.len())) {
            Err(Error::InvalidInput)
        } else {
            Ok(())
        }
    }

    /// Whether the store can write a payload to a queue, and the outside work
    /// that the write waits for where it cannot: the files of the queue's index
    /// where that has not been opened, a new tail for the commit log where the
    /// record does not fit in the present one, a new tail for the index where
    /// the unit does not fit.
    pub open spec fn ready(self, topic: Seq<char>, queue_id: u32, payload: Seq<u8>) -> Result<
        Progress<()>,
        Error,
    > {
        match self.accepts(payload) {
            Err(e) => Err(e),
            Ok(()) => if !self.index_store.is_open(topic, queue_id) {
                Ok(Progress::Need(Provision::Index))
            } else if MSG_INDEX_UNIT_SIZE > self.index_store.capacity {
                Err(Error::RecordTooLarge)
            } else if !self.commit_log.has_room(footprint(payload.len())) {
                Ok(Progress::Need(Provision::CommitLogSegment(self.commit_log.frontier() as usize)))
            } else {
                self.index_store.ready(topic, queue_id)
            },
        }
    }

    /// The unit of the record that the next write puts into the commit log.
    pub open spec fn next_unit(self, payload: Seq<u8>) -> MessageIndexUnit {
        MessageIndexUnit {
            offset: self.commit_log.frontier() as u64,
            size: footprint(payload.len()) as u32,
        }
    }

    /// The store after the record of `payload` has been committed to the log and
    /// its unit to the index of the queue.
    pub open spec fn written(self, topic: Seq<char>, queue_id: u32, payload: Seq<u8>) -> Self {
        MessageStoreView {
            commit_log: self.commit_log.append(record_bytes(payload)),
            index_store: self.index_store.with_index(
                topic,
                queue_id,
                self.index_store.indexes[(topic, queue_id)].append(
                    self.next_unit(payload).spec_encode(),
                ),
            ),
        }
    }

    /// Whether the write of `payload` to a queue may answer `r` and leave the
    /// store as `after`. Where the store is not ready for it, nothing changes and
    /// the answer says why. Else the record goes into the commit log and then its
    /// unit into the index; the answer is the logical index of the message, the
    /// number of units that the index held. `StorageIO` says that one of the two
    /// mappings could not be made durable: then its frontier has not moved, and
    /// the message has no logical index.
    pub open spec fn writes(
        self,
        topic: Seq<char>,
        queue_id: u32,
        payload: Seq<u8>,
        r: Result<Progress<usize>, Error>,
        after: MessageStoreView,
    ) -> bool {
        let index = self.index_store.indexes[(topic, queue_id)];
        match self.ready(topic, queue_id, payload) {
            Err(e) => r == Err::<Progress<usize>, Error>(e) && after == self,
            Ok(Progress::Need(p)) => r == Ok::<Progress<usize>, Error>(Progress::Need(p)) && after
                == self,
            Ok(Progress::Done(())) => {
                ||| (r == Ok::<Progress<usize>, Error>(Progress::Done((index.frontier() / 12) as usize))
                    && after == self.written(topic, queue_id, payload))
                ||| (r == Err::<Progress<usize>, Error>(Error::StorageIO) && after
                    == (MessageStoreView {
                    commit_log: self.commit_log.stained(record_bytes(payload)),
                    ..self
                }))
                ||| (r == Err::<Progress<usize>, Error>(Error::StorageIO) && after
                    == (MessageStoreView {
                    commit_log: self.commit_log.append(record_bytes(payload)),
                    index_store: self.index_store.with_index(
                        topic,
                        queue_id,
                        index.stained(self.next_unit(payload).spec_encode()),
                    ),
                }))
            },
        }
    }

    /// What a read of the message with the logical index `offset` of a queue
    /// gives: the payload of the record that the message's unit points to. A read
    /// that names no logical index is refused, and so is a unit too small for a
    /// length prefix. Where the index has not been opened, its files are asked
    /// for.
    pub open spec fn read(self, topic: Seq<char>, queue_id: u32, offset: Option<u64>) -> Result<
        Progress<Seq<u8>>,
        Error,
    > {
        match offset {
            None => Err(Error::InvalidInput),
            Some(i) => match self.index_store.read(topic, queue_id, i as nat) {
                Err(e) => Err(e),
                Ok(Progress::Need(p)) => Ok(Progress::Need(p)),
                Ok(Progress::Done(unit)) => if unit.size < LENGTH_PREFIX_SIZE {
                    Err(Error::InvalidInput)
                } else {
                    match log_read(self.commit_log, unit) {
                        Err(e) => Err(e),
                        Ok(record) => Ok(Progress::Done(record_payload(record))),
                    }
                },
            },
        }
    }
}

/// Whether a read of the store gave what it was to give.
pub open spec fn read_gives(
    r: Result<Progress<Vec<u8>>, Error>,
    expected: Result<Progress<Seq<u8>>, Error>,
) -> bool {
    match (r, expected) {
        (Ok(Progress::Done(payload)), Ok(Progress::Done(s))) => payload@ == s,
        (Ok(Progress::Need(p)), Ok(Progress::Need(q))) => p == q,
        (Err(e), Err(f)) => e == f,
        _ => false,
    }
}

/// The store of the messages of all queues.
pub struct MessageStore {
    commit_log: CommitLog,
    index_store: IndexStore,
}

impl View for MessageStore {
    type V = MessageStoreView;

    closed spec fn view(&self) -> MessageStoreView {
        MessageStoreView { commit_log: self.commit_log@, index_store: self.index_store@ }
    }
}

impl MessageStore {
    /// The invariant of the store.
    pub closed spec fn wf(&self) -> bool {
        self.commit_log.wf() && self.index_store.wf()
    }

    /// A well-formed store is well formed as plain values.
    pub proof fn lemma_wf(&self)
        requires
            self.wf(),
        ensures
            self@.wf(),
    {
        self.index_store.lemma_wf();
    }

    /// Opens the store that `config` describes on the files found in the
    /// directory of its commit log, as `CommitLog::new` does. No index is opened.
    pub fn new(config: &ConfigOptions, files: Vec<MemoryMappedFile>) -> (r: Result<Self, Error>)
        requires
            forall|i: int| 0 <= i < files@.len() ==> (#[trigger] files@[i]).wf(),
        ensures
            match recovers(config.msg_store_file_size as nat, views(files@), &CommitLogParser) {
                Ok(segments) => r matches Ok(store) && store.wf() && store@ == (MessageStoreView {
                    commit_log: QueueView {
                        store_path: commit_log_path(config.msg_store_path@),
                        capacity: config.msg_store_file_size as nat,
                        segments,
                    },
                    index_store: IndexStoreView {
                        index_store_path: index_root_path(config.msg_store_path@),
                        capacity: config.index_file_size as nat,
                        indexes: Map::empty(),
                    },
                }),
                Err(e) => r matches Err(f) && e == f,
            },
    {
        match CommitLog::new(config.msg_store_path.as_str(), config.msg_store_file_size, files) {
            Err(e) => Err(e),
            Ok(commit_log) => {
                let own = ConfigOptions {
                    msg_store_path: config.msg_store_path.clone(),
                    topic_store_path: config.topic_store_path.clone(),
                    index_file_size: config.index_file_size,
                    msg_store_file_size: config.msg_store_file_size,
                };
                match IndexStore::new(own) {
                    Err(e) => Err(e),
                    Ok(index_store) => Ok(MessageStore { commit_log, index_store }),
                }
            },
        }
    }

    /// The commit log.
    pub fn commit_log(&self) -> (r: &CommitLog)
        ensures
            r@ == self@.commit_log,
            self.wf() ==> r.wf(),
    {
        &self.commit_log
    }

    /// The indexes.
    pub fn index_store(&self) -> (r: &IndexStore)
        ensures
            r@ == self@.index_store,
            self.wf() ==> r.wf(),
    {
        &self.index_store
    }

    /// Gives the commit log and the indexes back.
    pub fn into_parts(self) -> (r: (CommitLog, IndexStore))
        ensures
            r.0@ == self@.commit_log,
            r.1@ == self@.index_store,
    {
        (self.commit_log, self.index_store)
    }

    /// Adds a new, empty tail segment over `mmap` to the commit log, as
    /// `MappedFileQueue::create_mapped_file` does.
    pub fn create_commit_log_file(&mut self, mmap: MmapMut, start_offset: usize) -> (r: Result<
        (),
        Error,
    >)
        requires
            old(self).wf(),
        ensures
            final(self).wf(),
            r is Ok <==> old(self)@.commit_log.takes_tail(
                start_offset as nat,
                mmap_bytes(mmap).len(),
            ),
            r is Ok ==> final(self)@ == (MessageStoreView {
                commit_log: old(self)@.commit_log.rolled(mmap_bytes(mmap)),
                ..old(self)@
            }),
            r matches Err(e) ==> e == Error::InvalidInput && final(self)@ == old(self)@,
    {
        self.commit_log.create_mapped_file(mmap, start_offset)
    }

    /// Opens the index of a queue on the files found in its directory, as
    /// `IndexStore::open_index` does.
    pub fn open_index(&mut self, topic: &str, queue_id: u32, files: Vec<MemoryMappedFile>) -> (r:
        Result<(), Error>)
        requires
            old(self).wf(),
            forall|i: int| 0 <= i < files@.len() ==> (#[trigger] files@[i]).wf(),
        ensures
            final(self).wf(),
            final(self)@.commit_log == old(self)@.commit_log,
            old(self)@.index_store.is_open(topic@, queue_id) ==> r == Err::<(), Error>(
                Error::InvalidInput,
            ) && final(self)@ == old(self)@,
            !old(self)@.index_store.is_open(topic@, queue_id) ==> match recovers(
                old(self)@.index_store.capacity,
                views(files@),
                &IndexParser,
            ) {
                Ok(segments) => r == Ok::<(), Error>(()) && final(self)@.index_store == old(
                    self,
                )@.index_store.with_index(
                    topic@,
                    queue_id,
                    QueueView {
                        store_path: queue_index_path(
                            old(self)@.index_store.index_store_path,
                            topic@,
                            queue_id as nat,
                        ),
                        capacity: old(self)@.index_store.capacity,
                        segments,
                    },
                ),
                Err(e) => r == Err::<(), Error>(e) && final(self)@ == old(self)@,
            },
    {
        self.index_store.open_index(topic, queue_id, files)
    }

    /// Adds a new, empty tail segment over `mmap` to the index of a queue, as
    /// `IndexStore::create_mapped_file` does.
    pub fn create_index_file(
        &mut self,
        topic: &str,
        queue_id: u32,
        mmap: MmapMut,
        start_offset: usize,
    ) -> (r: Result<(), Error>)
        requires
            old(self).wf(),
        ensures
            final(self).wf(),
            final(self)@.commit_log == old(self)@.commit_log,
            r is Ok <==> old(self)@.index_store.is_open(topic@, queue_id) && old(
                self,
            )@.index_store.indexes[(topic@, queue_id)].takes_tail(
                start_offset as nat,
                mmap_bytes(mmap).len(),
            ),
            r is Ok ==> final(self)@.index_store == old(self)@.index_store.with_index(
                topic@,
                queue_id,
                old(self)@.index_store.indexes[(topic@, queue_id)].rolled(mmap_bytes(mmap)),
            ),
            r matches Err(e) ==> e == Error::InvalidInput && final(self)@ == old(self)@,
    {
        self.index_store.create_mapped_file(topic, queue_id, mmap, start_offset)
    }

    /// Whether the store can write a payload to a queue, and the outside work
    /// that the write waits for where it cannot.
    pub fn ready(&self, topic: &str, queue_id: u32, payload: &Vec<u8>) -> (r: Result<
        Progress<()>,
        Error,
    >)
        requires
            self.wf(),
        ensures
            r == self@.ready(topic@, queue_id, payload@),
    {
        let len = payload.len();
        if len == 0 {
            return Err(Error::InvalidInput);
        }
        if len > usize::MAX - LENGTH_PREFIX_SIZE || (len + LENGTH_PREFIX_SIZE) as u64
            > self.commit_log.max_file_size() {
            return Err(Error::RecordTooLarge);
        }
        if len + LENGTH_PREFIX_SIZE > u32::MAX as usize {
            return Err(Error::InvalidInput);
        }
        if !self.index_store.is_open(topic, queue_id) {
            return Ok(Progress::Need(Provision::Index));
        }
        if MSG_INDEX_UNIT_SIZE as u64 > self.index_store.index_file_size() {
            return Err(Error::RecordTooLarge);
        }
        if !self.commit_log.has_room(len + LENGTH_PREFIX_SIZE) {
            return Ok(Progress::Need(Provision::CommitLogSegment(self.commit_log.frontier())));
        }
        self.index_store.ready(topic, queue_id)
    }

    /// Writes the encoded form of `msg` to the queue that `msg` names and answers
    /// with the logical index of the message. Where the store is not ready for
    /// the write, nothing is written and the answer is the error, or the outside
    /// work that the write waits for.
    pub fn write_msg(&mut self, msg: &Message, encoded: &Vec<u8>) -> (r: Result<
        Progress<usize>,
        Error,
    >)
        requires
            old(self).wf(),
        ensures
            final(self).wf(),
            old(self)@.writes(msg.topic@, msg.queue_id, encoded@, r, final(self)@),
    {
        match self.ready(msg.topic.as_str(), msg.queue_id, encoded) {
            Err(e) => Err(e),
            Ok(Progress::Need(p)) => Ok(Progress::Need(p)),
            Ok(Progress::Done(())) => {
                proof {
                    old(self).index_store.lemma_wf();
                }
                match self.commit_log.write_records(encoded) {
                    Err(e) => Err(e),
                    Ok(Step::Rollover(start)) => Ok(
                        Progress::Need(Provision::CommitLogSegment(start)),
                    ),
                    Ok(Step::Done((msg_offset, msg_size))) => {
                        let dispatch_msg = DispatchMessage {
                            topic: msg.topic.clone(),
                            queue_id: msg.queue_id,
                            msg_offset,
                            msg_size,
                            index_offset: 0,
                            timestamp: msg.timestamp,
                        };
                        self.index_store.put_msg_index(&dispatch_msg)
                    },
                }
            },
        }
    }

    /// Reads the message that `consume_msg` names by topic, queue and logical
    /// index, and answers with its encoded form: the record without its length
    /// prefix.
    pub fn read_msg(&self, consume_msg: &Message) -> (r: Result<Progress<Vec<u8>>, Error>)
        requires
            self.wf(),
        ensures
            read_gives(r, self@.read(consume_msg.topic@, consume_msg.queue_id, consume_msg.offset)),
    {
        let index_offset = match consume_msg.offset {
            None => {
                return Err(Error::InvalidInput);
            },
            Some(i) => i,
        };
        if index_offset > usize::MAX as u64 {
            proof {
                self.index_store.lemma_wf();
                if self@.index_store.is_open(consume_msg.topic@, consume_msg.queue_id) {
                    lemma_covered_is_address(
                        self@.index_store.indexes[(consume_msg.topic@, consume_msg.queue_id)],
                        index_offset as nat * 12,
                    );
                }
            }
            if !self.index_store.is_open(consume_msg.topic.as_str(), consume_msg.queue_id) {
                return Ok(Progress::Need(Provision::Index));
            }
            return Err(Error::OffsetNotFound);
        }
        match self.index_store.read_msg_index(
            consume_msg.topic.as_str(),
            consume_msg.queue_id,
            index_offset as usize,
        ) {
            Err(e) => Err(e),
            Ok(Progress::Need(p)) => Ok(Progress::Need(p)),
            Ok(Progress::Done(unit)) => {
                if unit.size < LENGTH_PREFIX_SIZE as u32 {
                    return Err(Error::InvalidInput);
                }
                match self.commit_log.read_records(&unit) {
                    Err(e) => Err(e),
                    Ok(record) => {
                        let payload = slice_to_vec(
                            slice_subrange(record.as_slice(), LENGTH_PREFIX_SIZE, record.len()),
                        );
                        Ok(Progress::Done(payload))
                    },
                }
            },
        }
    }
}

} // verus!
