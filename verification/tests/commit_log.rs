use memmap2::MmapMut;
use photonmq::commit_log::CommitLog;
use photonmq::error::Error;
use photonmq::layout::segment_file_name;
use photonmq::mapped_file_queue::Step;
use photonmq::mmap_file::MemoryMappedFile;
use photonmq::msg_index::MessageIndexUnit;

fn mapping(len: usize) -> MmapMut {
    MmapMut::map_anon(len).unwrap()
}

fn write(log: &mut CommitLog, payload: &[u8]) -> Result<(usize, usize), Error> {
    let payload = payload.to_vec();
    loop {
        match log.write_records(&payload)? {
            Step::Done(stored) => return Ok(stored),
            Step::Rollover(start) => {
                log.create_mapped_file(mapping(log.max_file_size() as usize), start)?
            }
        }
    }
}

fn unit(offset: u64, size: u32) -> MessageIndexUnit {
    MessageIndexUnit { offset, size }
}

fn reopen(log: CommitLog) -> Vec<MemoryMappedFile> {
    log.into_mapped_files()
        .into_iter()
        .map(|file| {
            let start = file.get_min_offset();
            MemoryMappedFile::new(file.into_mapping(), start).unwrap()
        })
        .collect()
}

#[test]
fn commit_log_lies_under_the_root() {
    let log = CommitLog::new("/data/mq", 1024, Vec::new()).unwrap();
    assert_eq!(log.store_path(), "/data/mq/commitlog");
    assert_eq!(log.max_file_size(), 1024);
    assert_eq!(log.frontier(), 0);
    assert!(!log.has_room(1));
}

#[test]
fn write_stores_the_length_before_the_payload() {
    let mut log = CommitLog::new("root", 1024, Vec::new()).unwrap();
    assert_eq!(write(&mut log, b"hello"), Ok((0, 13)));
    let record = log.read_records(&unit(0, 13)).unwrap();
    assert_eq!(record, vec![5, 0, 0, 0, 0, 0, 0, 0, b'h', b'e', b'l', b'l', b'o']);
    assert_eq!(&record[8..], b"hello");
    let files = log.into_mapped_files();
    assert_eq!(files.len(), 1);
    assert_eq!(segment_file_name(files[0].get_min_offset()), "00000000000000000000");
    let mmap = files.into_iter().next().unwrap().into_mapping();
    assert_eq!(&mmap[..13], &[5, 0, 0, 0, 0, 0, 0, 0, b'h', b'e', b'l', b'l', b'o']);
    assert!(mmap[13..].iter().all(|byte| *byte == 0));
}

#[test]
fn write_answers_with_address_and_footprint() {
    let mut log = CommitLog::new("root", 1024, Vec::new()).unwrap();
    assert_eq!(write(&mut log, b"a"), Ok((0, 9)));
    assert_eq!(write(&mut log, b"bcd"), Ok((9, 11)));
    assert_eq!(write(&mut log, &[7; 100]), Ok((20, 108)));
    assert_eq!(log.frontier(), 128);
    assert_eq!(log.read_records(&unit(9, 11)).unwrap()[8..], *b"bcd");
}

#[test]
fn records_of_twenty_bytes_in_segments_of_thirty_two() {
    let mut log = CommitLog::new("root", 32, Vec::new()).unwrap();
    assert_eq!(write(&mut log, &[1; 12]), Ok((0, 20)));
    assert_eq!(log.write_records(&vec![2; 12]), Ok(Step::Rollover(20)));
    assert_eq!(write(&mut log, &[2; 12]), Ok((20, 20)));
    assert_eq!(log.write_records(&vec![3; 12]), Ok(Step::Rollover(40)));
    assert_eq!(write(&mut log, &[3; 12]), Ok((40, 20)));
    let names: Vec<String> = log
        .into_mapped_files()
        .iter()
        .map(|file| segment_file_name(file.get_min_offset()))
        .collect();
    assert_eq!(
        names,
        vec!["00000000000000000000", "00000000000000000020", "00000000000000000040"]
    );
}

#[test]
fn empty_payload_is_refused() {
    let mut log = CommitLog::new("root", 64, Vec::new()).unwrap();
    assert_eq!(log.write_records(&Vec::new()), Err(Error::InvalidInput));
    assert_eq!(log.frontier(), 0);
}

#[test]
fn payload_that_fills_a_segment_with_its_prefix_fits() {
    let capacity = 64;
    let mut log = CommitLog::new("root", capacity, Vec::new()).unwrap();
    assert_eq!(write(&mut log, &[1; 56]), Ok((0, 64)));
    assert_eq!(log.frontier(), 64);
    assert_eq!(log.write_records(&vec![1; 57]), Err(Error::RecordTooLarge));
    assert_eq!(log.write_records(&vec![1; 64]), Err(Error::RecordTooLarge));
    assert_eq!(log.frontier(), 64);
    // the next record rolls over
    assert_eq!(log.write_records(&vec![2; 1]), Ok(Step::Rollover(64)));
}

#[test]
fn oversized_record_is_refused_before_any_file_is_made() {
    let mut log = CommitLog::new("root", 64, Vec::new()).unwrap();
    assert_eq!(log.write_records(&vec![0; 100]), Err(Error::RecordTooLarge));
    assert_eq!(log.frontier(), 0);
    assert_eq!(log.into_mapped_files().len(), 0);
}

#[test]
fn read_refuses_a_unit_of_size_zero() {
    let mut log = CommitLog::new("root", 64, Vec::new()).unwrap();
    write(&mut log, b"abc").unwrap();
    assert_eq!(log.read_records(&unit(0, 0)), Err(Error::InvalidInput));
}

#[test]
fn read_behind_the_frontier_finds_nothing() {
    let mut log = CommitLog::new("root", 64, Vec::new()).unwrap();
    write(&mut log, b"abc").unwrap();
    assert_eq!(log.read_records(&unit(11, 11)), Err(Error::OffsetNotFound));
    assert_eq!(log.read_records(&unit(u64::MAX, 11)), Err(Error::OffsetNotFound));
}

#[test]
fn record_that_ends_with_its_segment_is_out_of_range() {
    let mut log = CommitLog::new("root", 64, Vec::new()).unwrap();
    assert_eq!(write(&mut log, &[1; 56]), Ok((0, 64)));
    assert_eq!(log.read_records(&unit(0, 64)), Err(Error::OutOfRange));
    assert_eq!(log.read_records(&unit(0, 63)).map(|bytes| bytes.len()), Ok(63));
}

#[test]
fn restart_recovers_the_frontier_from_the_records() {
    let mut log = CommitLog::new("root", 64, Vec::new()).unwrap();
    let mut total = 0;
    for payload in [&b"one"[..], b"three", b"fifteen bytes..", b"x", b"last of five"] {
        let (offset, size) = write(&mut log, payload).unwrap();
        assert_eq!(size, payload.len() + 8);
        let _ = offset;
        total += size;
    }
    let frontier = log.frontier();
    assert_eq!(frontier, total);
    let log = CommitLog::new("root", 64, reopen(log)).unwrap();
    assert_eq!(log.frontier(), frontier);
    assert_eq!(log.read_records(&unit(0, 11)).unwrap()[8..], *b"one");
    assert_eq!(log.read_records(&unit(11, 13)).unwrap()[8..], *b"three");
}

#[test]
fn restart_refuses_files_of_another_capacity() {
    let files = vec![MemoryMappedFile::new(mapping(32), 0).unwrap()];
    assert_eq!(CommitLog::new("root", 64, files).err(), Some(Error::InvalidInput));
}
