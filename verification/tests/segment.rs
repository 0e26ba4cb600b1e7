use memmap2::MmapMut;
use photonmq::commit_log::CommitLogParser;
use photonmq::error::Error;
use photonmq::mmap_file::MemoryMappedFile;
use photonmq::msg_index::IndexParser;
use photonmq::record::RecordParser;

fn mapping(len: usize) -> MmapMut {
    MmapMut::map_anon(len).unwrap()
}

fn segment(len: usize, start: usize) -> MemoryMappedFile {
    MemoryMappedFile::new(mapping(len), start).unwrap()
}

#[test]
fn mmap_file_test_write_read() {
    let file_size = 1024;
    let mut mem_mapped_file = segment(file_size, 0);

    let data_to_write = "Hello, Memory-Mapped File!";
    mem_mapped_file.append(&data_to_write.as_bytes().to_vec()).unwrap();

    let read_buffer = mem_mapped_file.read(0, data_to_write.len()).unwrap();

    let read_data = String::from_utf8(read_buffer);
    assert_eq!(data_to_write, read_data.unwrap().as_str());
}

#[test]
fn new_segment_is_empty() {
    let file = segment(64, 128);
    assert_eq!(file.get_min_offset(), 128);
    assert_eq!(file.get_max_offset(), 128);
    assert_eq!(file.capacity(), 64);
    assert!(!file.contains(128));
}

#[test]
fn new_segment_refuses_addresses_beyond_usize() {
    assert_eq!(MemoryMappedFile::new(mapping(64), usize::MAX - 10).err(), Some(Error::InvalidInput));
    assert!(MemoryMappedFile::new(mapping(64), usize::MAX - 64).is_ok());
}

#[test]
fn append_returns_the_frontier_before_it() {
    let mut file = segment(64, 100);
    assert_eq!(file.append(&vec![1, 2, 3]), Ok(100));
    assert_eq!(file.append(&vec![4, 5]), Ok(103));
    assert_eq!(file.get_max_offset(), 105);
    assert!(file.contains(100));
    assert!(file.contains(104));
    assert!(!file.contains(105));
    assert!(!file.contains(99));
    assert_eq!(file.read(100, 5), Ok(vec![1, 2, 3, 4, 5]));
    assert_eq!(file.read(103, 2), Ok(vec![4, 5]));
}

#[test]
fn append_fills_a_segment_to_its_last_byte() {
    let mut file = segment(16, 0);
    assert_eq!(file.append(&vec![7; 10]), Ok(0));
    assert_eq!(file.append(&vec![8; 6]), Ok(10));
    assert_eq!(file.get_max_offset(), 16);
}

#[test]
fn append_beyond_capacity_changes_nothing() {
    let mut file = segment(16, 0);
    assert_eq!(file.append(&vec![7; 10]), Ok(0));
    assert_eq!(file.append(&vec![8; 7]), Err(Error::CapacityExceeded));
    assert_eq!(file.get_max_offset(), 10);
    assert_eq!(file.read(0, 15), Ok(vec![7, 7, 7, 7, 7, 7, 7, 7, 7, 7, 0, 0, 0, 0, 0]));
}

#[test]
fn read_stops_before_the_last_byte_of_the_mapping() {
    let mut file = segment(16, 32);
    assert_eq!(file.append(&vec![9; 16]), Ok(32));
    assert_eq!(file.read(32, 15), Ok(vec![9; 15]));
    assert_eq!(file.read(32, 16), Err(Error::OutOfRange));
    assert_eq!(file.read(47, 0), Ok(vec![]));
    assert_eq!(file.read(48, 0), Err(Error::OutOfRange));
    assert_eq!(file.read(31, 1), Err(Error::OutOfRange));
    assert_eq!(file.read(40, usize::MAX), Err(Error::OutOfRange));
}

#[test]
fn read_reaches_bytes_behind_the_frontier() {
    let mut file = segment(16, 0);
    assert_eq!(file.append(&vec![1, 2]), Ok(0));
    assert_eq!(file.read(1, 3), Ok(vec![2, 0, 0]));
}

#[test]
fn commit_moves_the_frontier_only_when_durable() {
    let mut file = segment(16, 0);
    assert_eq!(file.commit(4, false), Err(Error::StorageIO));
    assert_eq!(file.get_max_offset(), 0);
    assert_eq!(file.commit(4, true), Ok(0));
    assert_eq!(file.get_max_offset(), 4);
    assert_eq!(file.commit(12, true), Ok(4));
    assert_eq!(file.get_max_offset(), 16);
}

#[test]
fn set_max_offset_moves_the_frontier() {
    let mut file = segment(16, 8);
    file.set_max_offset(20);
    assert_eq!(file.get_max_offset(), 20);
    assert!(file.contains(19));
    file.set_max_offset(8);
    assert!(!file.contains(8));
}

#[test]
fn into_mapping_gives_the_bytes_back() {
    let mut file = segment(8, 0);
    file.append(&vec![5, 6, 7]).unwrap();
    let mmap = file.into_mapping();
    assert_eq!(&mmap[..], &[5, 6, 7, 0, 0, 0, 0, 0]);
}

#[test]
fn scan_recovers_the_frontier_of_commit_log_records() {
    let mut mmap = mapping(64);
    // two records, of three and of one byte of payload, then zeros
    mmap[0..8].copy_from_slice(&3u64.to_le_bytes());
    mmap[8..11].copy_from_slice(b"abc");
    mmap[11..19].copy_from_slice(&1u64.to_le_bytes());
    mmap[19] = b'z';
    let mut file = MemoryMappedFile::new(mmap, 640).unwrap();
    file.read_record(&CommitLogParser);
    assert_eq!(file.get_min_offset(), 640);
    assert_eq!(file.get_max_offset(), 660);
    // a second scan finds the same frontier
    file.read_record(&CommitLogParser);
    assert_eq!(file.get_max_offset(), 660);
}

#[test]
fn scan_stops_at_a_record_that_runs_over_the_end() {
    let mut mmap = mapping(32);
    mmap[0..8].copy_from_slice(&4u64.to_le_bytes());
    mmap[8..12].copy_from_slice(b"abcd");
    mmap[12..20].copy_from_slice(&13u64.to_le_bytes());
    let mut file = MemoryMappedFile::new(mmap, 0).unwrap();
    file.read_record(&CommitLogParser);
    assert_eq!(file.get_max_offset(), 12);
}

#[test]
fn scan_takes_a_record_that_ends_with_the_mapping() {
    let mut mmap = mapping(32);
    mmap[0..8].copy_from_slice(&24u64.to_le_bytes());
    let mut file = MemoryMappedFile::new(mmap, 0).unwrap();
    file.read_record(&CommitLogParser);
    assert_eq!(file.get_max_offset(), 32);
}

#[test]
fn scan_of_zeros_recovers_nothing() {
    let mut file = segment(64, 0);
    file.read_record(&CommitLogParser);
    assert_eq!(file.get_max_offset(), 0);
    file.read_record(&IndexParser);
    assert_eq!(file.get_max_offset(), 0);
}

#[test]
fn scan_recovers_the_frontier_of_index_units() {
    let mut mmap = mapping(40);
    mmap[0..8].copy_from_slice(&0u64.to_le_bytes());
    mmap[8..12].copy_from_slice(&13u32.to_le_bytes());
    mmap[12..20].copy_from_slice(&13u64.to_le_bytes());
    mmap[20..24].copy_from_slice(&20u32.to_le_bytes());
    mmap[24..32].copy_from_slice(&33u64.to_le_bytes());
    let mut file = MemoryMappedFile::new(mmap, 0).unwrap();
    file.read_record(&IndexParser);
    assert_eq!(file.get_max_offset(), 24);
}

#[test]
fn parsers_tell_the_length_of_a_record() {
    let mut bytes = vec![0u8; 40];
    bytes[0..8].copy_from_slice(&5u64.to_le_bytes());
    bytes[8..12].copy_from_slice(&9u32.to_le_bytes());
    assert_eq!(CommitLogParser.parse(&bytes, 0), Some(13));
    assert_eq!(CommitLogParser.parse(&bytes, 8), Some(17));
    assert_eq!(CommitLogParser.parse(&bytes, 16), None);
    assert_eq!(CommitLogParser.parse(&bytes, 33), None);
    assert_eq!(CommitLogParser.parse(&bytes, 41), None);
    assert_eq!(IndexParser.parse(&bytes, 0), Some(12));
    assert_eq!(IndexParser.parse(&bytes, 12), None);
    assert_eq!(IndexParser.parse(&bytes, 29), None);
    bytes[0..8].copy_from_slice(&33u64.to_le_bytes());
    assert_eq!(CommitLogParser.parse(&bytes, 0), None);
    bytes[0..8].copy_from_slice(&32u64.to_le_bytes());
    assert_eq!(CommitLogParser.parse(&bytes, 0), Some(40));
    bytes[0..8].copy_from_slice(&u64::MAX.to_le_bytes());
    assert_eq!(CommitLogParser.parse(&bytes, 0), None);
}
