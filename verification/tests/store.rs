use memmap2::MmapMut;
use photonmq::config::ConfigOptions;
use photonmq::error::Error;
use photonmq::index_store::Progress;
use photonmq::index_store::Provision;
use photonmq::layout::segment_file_name;
use photonmq::message::Message;
use photonmq::mmap_file::MemoryMappedFile;
use photonmq::msg_index::MessageIndexUnit;
use photonmq::msg_store::MessageStore;

fn mapping(len: usize) -> MmapMut {
    MmapMut::map_anon(len).unwrap()
}

fn config(msg_store_file_size: u64, index_file_size: u64) -> ConfigOptions {
    ConfigOptions {
        msg_store_path: "store".to_string(),
        topic_store_path: "topics".to_string(),
        index_file_size,
        msg_store_file_size,
    }
}

fn message(topic: &str, queue_id: u32, offset: Option<u64>) -> Message {
    Message {
        topic: topic.to_string(),
        queue_id,
        timestamp: 1631894400,
        payload: None,
        offset,
        key: None,
        header: None,
    }
}

/// Writes as a caller with files does: what the store asks for is made, on new
/// files, and the write is made again.
fn write(store: &mut MessageStore, topic: &str, queue_id: u32, payload: &[u8]) -> Result<usize, Error> {
    let msg = message(topic, queue_id, None);
    let payload = payload.to_vec();
    loop {
        match store.write_msg(&msg, &payload)? {
            Progress::Done(index) => return Ok(index),
            Progress::Need(Provision::CommitLogSegment(start)) => {
                let capacity = store.commit_log().max_file_size() as usize;
                store.create_commit_log_file(mapping(capacity), start)?
            }
            Progress::Need(Provision::Index) => store.open_index(topic, queue_id, Vec::new())?,
            Progress::Need(Provision::IndexSegment(start)) => {
                let capacity = store.index_store().index_file_size() as usize;
                store.create_index_file(topic, queue_id, mapping(capacity), start)?
            }
        }
    }
}

fn read(store: &MessageStore, topic: &str, queue_id: u32, index: u64) -> Result<Vec<u8>, Error> {
    match store.read_msg(&message(topic, queue_id, Some(index)))? {
        Progress::Done(payload) => Ok(payload),
        Progress::Need(need) => panic!("the read waits for {:?}", need),
    }
}

fn reopened(files: Vec<MemoryMappedFile>) -> Vec<MemoryMappedFile> {
    files
        .into_iter()
        .map(|file| {
            let start = file.get_min_offset();
            MemoryMappedFile::new(file.into_mapping(), start).unwrap()
        })
        .collect()
}

/// Closes the store and opens it again on the same files, as a restart does.
fn restart(store: MessageStore, config: &ConfigOptions) -> MessageStore {
    let (commit_log, index_store) = store.into_parts();
    let mut store = MessageStore::new(config, reopened(commit_log.into_mapped_files())).unwrap();
    for entry in index_store.into_indexes() {
        let topic = entry.topic().to_string();
        let queue_id = entry.queue_id();
        let files = reopened(entry.into_index().into_mapped_files());
        store.open_index(&topic, queue_id, files).unwrap();
    }
    store
}

#[test]
fn small_write_and_read() {
    let mut store = MessageStore::new(&config(1024, 1024), Vec::new()).unwrap();
    assert_eq!(write(&mut store, "a", 0, b"hello"), Ok(0));
    assert_eq!(read(&store, "a", 0, 0), Ok(b"hello".to_vec()));

    let (commit_log, index_store) = store.into_parts();
    assert_eq!(commit_log.store_path(), "store/commitlog");
    let log_files = commit_log.into_mapped_files();
    assert_eq!(log_files.len(), 1);
    assert_eq!(segment_file_name(log_files[0].get_min_offset()), "00000000000000000000");
    let log_bytes = log_files.into_iter().next().unwrap().into_mapping();
    assert_eq!(&log_bytes[..13], &[5, 0, 0, 0, 0, 0, 0, 0, b'h', b'e', b'l', b'l', b'o']);

    let entry = index_store.into_indexes().into_iter().next().unwrap();
    assert_eq!(entry.topic(), "a");
    assert_eq!(entry.queue_id(), 0);
    let index = entry.into_index();
    assert_eq!(index.store_path(), "store/index/a/0");
    let index_files = index.into_mapped_files();
    assert_eq!(segment_file_name(index_files[0].get_min_offset()), "00000000000000000000");
    let index_bytes = index_files.into_iter().next().unwrap().into_mapping();
    assert_eq!(&index_bytes[..12], &[0, 0, 0, 0, 0, 0, 0, 0, 0x0D, 0, 0, 0]);
}

#[test]
fn write_asks_for_what_it_waits_for_in_turn() {
    let mut store = MessageStore::new(&config(64, 24), Vec::new()).unwrap();
    let msg = message("a", 0, None);
    let payload = b"payload".to_vec();
    assert_eq!(store.ready("a", 0, &payload), Ok(Progress::Need(Provision::Index)));
    assert_eq!(store.write_msg(&msg, &payload), Ok(Progress::Need(Provision::Index)));
    assert_eq!(store.open_index("a", 0, Vec::new()), Ok(()));
    assert_eq!(store.write_msg(&msg, &payload), Ok(Progress::Need(Provision::CommitLogSegment(0))));
    assert_eq!(store.create_commit_log_file(mapping(64), 0), Ok(()));
    assert_eq!(store.write_msg(&msg, &payload), Ok(Progress::Need(Provision::IndexSegment(0))));
    // nothing has been written so far
    assert_eq!(store.commit_log().frontier(), 0);
    assert_eq!(store.create_index_file("a", 0, mapping(24), 0), Ok(()));
    assert_eq!(store.ready("a", 0, &payload), Ok(Progress::Done(())));
    assert_eq!(store.write_msg(&msg, &payload), Ok(Progress::Done(0)));
    assert_eq!(store.write_msg(&msg, &payload), Ok(Progress::Done(1)));
    assert_eq!(store.commit_log().frontier(), 30);
    assert_eq!(store.write_msg(&msg, &payload), Ok(Progress::Need(Provision::IndexSegment(24))));
    assert_eq!(store.commit_log().frontier(), 30);
}

#[test]
fn write_refuses_what_the_store_cannot_hold() {
    let mut store = MessageStore::new(&config(64, 1024), Vec::new()).unwrap();
    assert_eq!(store.write_msg(&message("a", 0, None), &Vec::new()), Err(Error::InvalidInput));
    // capacity 64, payload of 100 bytes
    assert_eq!(store.write_msg(&message("a", 0, None), &vec![0; 100]), Err(Error::RecordTooLarge));
    assert_eq!(store.write_msg(&message("a", 0, None), &vec![0; 57]), Err(Error::RecordTooLarge));
    assert_eq!(store.commit_log().frontier(), 0);
    assert!(!store.index_store().is_open("a", 0));
    let (commit_log, index_store) = store.into_parts();
    assert_eq!(commit_log.into_mapped_files().len(), 0);
    assert_eq!(index_store.into_indexes().len(), 0);

    let mut store = MessageStore::new(&config(64, 8), Vec::new()).unwrap();
    store.open_index("a", 0, Vec::new()).unwrap();
    assert_eq!(store.write_msg(&message("a", 0, None), &vec![1; 4]), Err(Error::RecordTooLarge));
}

#[test]
fn queues_count_their_messages_apart() {
    let mut store = MessageStore::new(&config(1024, 1024), Vec::new()).unwrap();
    assert_eq!(write(&mut store, "x", 0, b"first of zero"), Ok(0));
    assert_eq!(write(&mut store, "x", 1, b"first of one"), Ok(0));
    assert_eq!(write(&mut store, "x", 1, b"second of one"), Ok(1));
    assert_eq!(write(&mut store, "x", 0, b"second of zero"), Ok(1));
    assert_eq!(write(&mut store, "x", 1, b"third of one"), Ok(2));
    assert_eq!(read(&store, "x", 0, 0), Ok(b"first of zero".to_vec()));
    assert_eq!(read(&store, "x", 0, 1), Ok(b"second of zero".to_vec()));
    assert_eq!(read(&store, "x", 1, 0), Ok(b"first of one".to_vec()));
    assert_eq!(read(&store, "x", 1, 1), Ok(b"second of one".to_vec()));
    assert_eq!(read(&store, "x", 1, 2), Ok(b"third of one".to_vec()));
    assert_eq!(read(&store, "x", 0, 2), Err(Error::OffsetNotFound));
    // the records of both queues lie in one commit log, in the order of the writes
    let unit = |queue_id, i| match store.index_store().read_msg_index("x", queue_id, i) {
        Ok(Progress::Done(unit)) => unit,
        other => panic!("no unit: {:?}", other),
    };
    assert_eq!(unit(0, 0), MessageIndexUnit { offset: 0, size: 21 });
    assert_eq!(unit(1, 0), MessageIndexUnit { offset: 21, size: 20 });
    assert_eq!(unit(1, 1), MessageIndexUnit { offset: 41, size: 21 });
    assert_eq!(unit(0, 1), MessageIndexUnit { offset: 62, size: 22 });
    assert_eq!(unit(1, 2), MessageIndexUnit { offset: 84, size: 20 });
    let (_, index_store) = store.into_parts();
    let mut paths: Vec<String> = index_store
        .into_indexes()
        .into_iter()
        .map(|entry| entry.into_index().store_path().to_string())
        .collect();
    paths.sort();
    assert_eq!(paths, vec!["store/index/x/0", "store/index/x/1"]);
}

#[test]
fn every_unit_points_to_a_record_that_begins_with_its_length() {
    let mut store = MessageStore::new(&config(128, 100), Vec::new()).unwrap();
    let payloads: Vec<Vec<u8>> = (1..40).map(|n| vec![n as u8; n]).collect();
    for (i, payload) in payloads.iter().enumerate() {
        assert_eq!(write(&mut store, "t", 9, payload), Ok(i));
    }
    for (i, payload) in payloads.iter().enumerate() {
        let unit = match store.index_store().read_msg_index("t", 9, i) {
            Ok(Progress::Done(unit)) => unit,
            other => panic!("no unit: {:?}", other),
        };
        assert!(unit.size >= 8);
        assert_eq!(unit.size as usize, payload.len() + 8);
        let prefix = store.commit_log().read_records(&MessageIndexUnit { offset: unit.offset, size: 8 });
        let mut length = [0u8; 8];
        length.copy_from_slice(&prefix.unwrap());
        assert_eq!(u64::from_le_bytes(length), unit.size as u64 - 8);
        assert_eq!(read(&store, "t", 9, i as u64), Ok(payload.clone()));
    }
}

#[test]
fn message_that_fills_its_segment_is_written_and_out_of_range() {
    let mut store = MessageStore::new(&config(100, 100), Vec::new()).unwrap();
    assert_eq!(write(&mut store, "t", 0, &[1; 42]), Ok(0));
    // the record of this message ends with the first segment of the commit log
    assert_eq!(write(&mut store, "t", 0, &[2; 42]), Ok(1));
    assert_eq!(write(&mut store, "t", 0, &[3; 42]), Ok(2));
    assert_eq!(store.commit_log().frontier(), 150);
    assert_eq!(read(&store, "t", 0, 0), Ok(vec![1; 42]));
    assert_eq!(read(&store, "t", 0, 1), Err(Error::OutOfRange));
    assert_eq!(read(&store, "t", 0, 2), Ok(vec![3; 42]));
}

#[test]
fn read_names_a_logical_index() {
    let mut store = MessageStore::new(&config(1024, 1024), Vec::new()).unwrap();
    assert_eq!(store.read_msg(&message("a", 0, Some(0))), Ok(Progress::Need(Provision::Index)));
    assert_eq!(store.read_msg(&message("a", 0, None)), Err(Error::InvalidInput));
    assert_eq!(write(&mut store, "a", 0, b"one"), Ok(0));
    assert_eq!(store.read_msg(&message("a", 0, None)), Err(Error::InvalidInput));
    assert_eq!(read(&store, "a", 0, 1), Err(Error::OffsetNotFound));
    assert_eq!(read(&store, "a", 0, u64::MAX), Err(Error::OffsetNotFound));
    assert_eq!(store.read_msg(&message("b", 0, Some(0))), Ok(Progress::Need(Provision::Index)));
}

#[test]
fn read_refuses_units_too_small_for_a_prefix() {
    let mut index_file = mapping(120);
    // a unit of size zero ends the scan; one of size three is no record
    index_file[0..8].copy_from_slice(&0u64.to_le_bytes());
    index_file[8..12].copy_from_slice(&3u32.to_le_bytes());
    let mut store = MessageStore::new(&config(1024, 120), Vec::new()).unwrap();
    let files = vec![MemoryMappedFile::new(index_file, 0).unwrap()];
    assert_eq!(store.open_index("a", 0, files), Ok(()));
    assert_eq!(read(&store, "a", 0, 0), Err(Error::InvalidInput));
    assert_eq!(read(&store, "a", 0, 1), Err(Error::OffsetNotFound));
}

#[test]
fn restart_keeps_the_messages_and_goes_on_counting() {
    let config = config(64, 100);
    let mut store = MessageStore::new(&config, Vec::new()).unwrap();
    let payloads: [&[u8]; 5] = [b"alpha", b"beta", b"gamma gamma gamma", b"delta", b"epsilon"];
    let mut stored = 0;
    for (i, payload) in payloads.iter().enumerate() {
        assert_eq!(write(&mut store, "t", 0, payload), Ok(i));
        stored += payload.len() + 8;
    }
    let store = restart(store, &config);
    let tail_frontier = store.commit_log().frontier();
    assert_eq!(tail_frontier, stored);
    let mut store = store;
    for (i, payload) in payloads.iter().enumerate() {
        assert_eq!(read(&store, "t", 0, i as u64), Ok(payload.to_vec()));
    }
    assert_eq!(write(&mut store, "t", 0, b"zeta"), Ok(5));
    assert_eq!(read(&store, "t", 0, 5), Ok(b"zeta".to_vec()));
}

#[test]
fn restart_finds_an_index_by_its_files_on_a_read() {
    let config = config(256, 100);
    let mut store = MessageStore::new(&config, Vec::new()).unwrap();
    assert_eq!(write(&mut store, "t", 4, b"kept"), Ok(0));
    let (commit_log, index_store) = store.into_parts();
    let mut store = MessageStore::new(&config, reopened(commit_log.into_mapped_files())).unwrap();
    // the first read of the queue asks for the files of its index
    assert_eq!(store.read_msg(&message("t", 4, Some(0))), Ok(Progress::Need(Provision::Index)));
    let entry = index_store.into_indexes().into_iter().next().unwrap();
    let files = reopened(entry.into_index().into_mapped_files());
    assert_eq!(store.open_index("t", 4, files), Ok(()));
    assert_eq!(read(&store, "t", 4, 0), Ok(b"kept".to_vec()));
}

#[test]
fn eight_queues_of_a_thousand_messages() {
    let mut store = MessageStore::new(&config(4096, 1000), Vec::new()).unwrap();
    let payload = |queue_id: u32, i: usize| format!("queue {} message {}", queue_id, i).into_bytes();
    for i in 0..1000 {
        for queue_id in 0..8 {
            assert_eq!(write(&mut store, "load", queue_id, &payload(queue_id, i)), Ok(i));
        }
    }
    for queue_id in 0..8 {
        for i in 0..1000 {
            assert_eq!(read(&store, "load", queue_id, i as u64), Ok(payload(queue_id, i)));
        }
        assert_eq!(read(&store, "load", queue_id, 1000), Err(Error::OffsetNotFound));
    }
}
