use memmap2::MmapMut;
use photonmq::commit_log::CommitLogParser;
use photonmq::error::Error;
use photonmq::mapped_file_queue::MappedFileQueue;
use photonmq::mapped_file_queue::Step;
use photonmq::mmap_file::MemoryMappedFile;

fn mapping(len: usize) -> MmapMut {
    MmapMut::map_anon(len).unwrap()
}

/// Appends as a caller with files does: a new tail is made when one is asked for.
fn append(queue: &mut MappedFileQueue, data: &Vec<u8>) -> Result<usize, Error> {
    loop {
        match queue.append(data)? {
            Step::Done(offset) => return Ok(offset),
            Step::Rollover(start) => {
                queue.create_mapped_file(mapping(queue.max_file_size() as usize), start)?
            }
        }
    }
}

fn record(payload: &[u8]) -> Vec<u8> {
    let mut bytes = (payload.len() as u64).to_le_bytes().to_vec();
    bytes.extend_from_slice(payload);
    bytes
}

/// The files of a queue as a restart finds them: mapped, with nothing committed.
fn reopen(queue: MappedFileQueue) -> Vec<MemoryMappedFile> {
    queue
        .into_mapped_files()
        .into_iter()
        .map(|file| {
            let start = file.get_min_offset();
            MemoryMappedFile::new(file.into_mapping(), start).unwrap()
        })
        .collect()
}

#[test]
fn mapped_file_queue_test_write_read() {
    let mut mapped_file_queue = MappedFileQueue::new("topic_mgr_test", 20).unwrap();

    let test_str = "hello world".as_bytes();
    let test_data = Vec::from(test_str);

    append(&mut mapped_file_queue, &test_data).expect("Error while write");
    append(&mut mapped_file_queue, &test_data).expect("Error while write");

    assert_eq!(mapped_file_queue.get_mapped_files().len(), 2);
}

#[test]
fn new_queue_has_no_segment() {
    let queue = MappedFileQueue::new("dir", 64).unwrap();
    assert_eq!(queue.store_path(), "dir");
    assert_eq!(queue.max_file_size(), 64);
    assert_eq!(queue.frontier(), 0);
    assert_eq!(queue.get_mapped_files().len(), 0);
    assert!(!queue.has_room(0));
    assert_eq!(queue.read(0, 1), Err(Error::OffsetNotFound));
}

#[test]
fn first_append_asks_for_the_segment_at_zero() {
    let mut queue = MappedFileQueue::new("dir", 64).unwrap();
    assert_eq!(queue.append(&vec![1, 2, 3]), Ok(Step::Rollover(0)));
    assert_eq!(queue.get_mapped_files().len(), 0);
    assert_eq!(queue.create_mapped_file(mapping(64), 0), Ok(()));
    assert_eq!(queue.append(&vec![1, 2, 3]), Ok(Step::Done(0)));
    assert_eq!(queue.append(&vec![4]), Ok(Step::Done(3)));
    assert_eq!(queue.frontier(), 4);
    assert_eq!(queue.read(0, 4), Ok(vec![1, 2, 3, 4]));
}

#[test]
fn rollover_starts_the_new_tail_at_the_frontier() {
    // three records of twelve bytes of payload in segments of 32 bytes
    let mut queue = MappedFileQueue::new("commitlog", 32).unwrap();
    let data = record(&[b'x'; 12]);
    assert_eq!(data.len(), 20);
    assert_eq!(append(&mut queue, &data), Ok(0));
    assert_eq!(queue.append(&data), Ok(Step::Rollover(20)));
    assert_eq!(append(&mut queue, &data), Ok(20));
    assert_eq!(append(&mut queue, &data), Ok(40));
    let starts: Vec<usize> = queue.get_mapped_files().iter().map(|f| f.get_min_offset()).collect();
    assert_eq!(starts, vec![0, 20, 40]);
    let ends: Vec<usize> = queue.get_mapped_files().iter().map(|f| f.get_max_offset()).collect();
    assert_eq!(ends, vec![20, 40, 60]);
    assert_eq!(queue.read(20, 20), Ok(data.clone()));
    assert_eq!(queue.read(40, 20), Ok(data));
}

#[test]
fn bytes_that_fill_the_tail_fit_and_one_more_rolls_over() {
    let capacity = 64;
    let mut queue = MappedFileQueue::new("dir", capacity).unwrap();
    assert_eq!(append(&mut queue, &vec![1; 8]), Ok(0));
    // what is left of the tail fits exactly
    assert_eq!(queue.append(&vec![2; 56]), Ok(Step::Done(8)));
    assert_eq!(queue.get_mapped_files().len(), 1);

    let mut queue = MappedFileQueue::new("dir", capacity).unwrap();
    assert_eq!(append(&mut queue, &vec![1; 8]), Ok(0));
    // one byte more goes to a new segment
    assert_eq!(queue.append(&vec![2; 57]), Ok(Step::Rollover(8)));
    assert_eq!(append(&mut queue, &vec![2; 57]), Ok(8));
    assert_eq!(queue.get_mapped_files().len(), 2);
    // a whole segment's worth still fits in a new segment
    assert_eq!(append(&mut queue, &vec![3; 64]), Ok(65));
    // more than a segment holds is refused
    assert_eq!(queue.append(&vec![4; 65]), Err(Error::RecordTooLarge));
    assert_eq!(queue.get_mapped_files().len(), 3);
    assert_eq!(queue.frontier(), 129);
}

#[test]
fn oversized_bytes_make_no_segment() {
    let mut queue = MappedFileQueue::new("dir", 64).unwrap();
    assert_eq!(queue.append(&vec![0; 100]), Err(Error::RecordTooLarge));
    assert_eq!(queue.get_mapped_files().len(), 0);
    assert_eq!(queue.frontier(), 0);
    assert_eq!(append(&mut queue, &vec![1; 10]), Ok(0));
    assert_eq!(queue.append(&vec![0; 100]), Err(Error::RecordTooLarge));
    assert_eq!(queue.get_mapped_files().len(), 1);
    assert_eq!(queue.frontier(), 10);
}

#[test]
fn create_mapped_file_checks_start_capacity_and_tail() {
    let mut queue = MappedFileQueue::new("dir", 64).unwrap();
    assert_eq!(queue.create_mapped_file(mapping(64), 5), Err(Error::InvalidInput));
    assert_eq!(queue.create_mapped_file(mapping(32), 0), Err(Error::InvalidInput));
    assert_eq!(queue.create_mapped_file(mapping(64), 0), Ok(()));
    // the tail is empty: no second segment can start where it starts
    assert_eq!(queue.create_mapped_file(mapping(64), 0), Err(Error::InvalidInput));
    assert_eq!(queue.append(&vec![1; 10]), Ok(Step::Done(0)));
    assert_eq!(queue.create_mapped_file(mapping(64), 64), Err(Error::InvalidInput));
    assert_eq!(queue.create_mapped_file(mapping(64), 10), Ok(()));
    assert_eq!(queue.get_mapped_files().len(), 2);
    assert_eq!(queue.frontier(), 10);
}

#[test]
fn read_finds_the_segment_of_an_address() {
    let mut queue = MappedFileQueue::new("dir", 16).unwrap();
    assert_eq!(append(&mut queue, &vec![1; 10]), Ok(0));
    assert_eq!(append(&mut queue, &vec![2; 10]), Ok(10));
    assert_eq!(append(&mut queue, &vec![3; 4]), Ok(20));
    assert_eq!(queue.read(0, 10), Ok(vec![1; 10]));
    assert_eq!(queue.read(10, 10), Ok(vec![2; 10]));
    assert_eq!(queue.read(12, 3), Ok(vec![2; 3]));
    assert_eq!(queue.read(20, 4), Ok(vec![3; 4]));
    // behind the frontier nothing is found
    assert_eq!(queue.read(24, 1), Err(Error::OffsetNotFound));
    assert_eq!(queue.read(1000, 1), Err(Error::OffsetNotFound));
    // what reaches the end of the mapping is out of range
    assert_eq!(queue.read(10, 16), Err(Error::OutOfRange));
}

#[test]
fn recovery_sorts_and_scans_the_files() {
    let mut queue = MappedFileQueue::new("commitlog", 32).unwrap();
    let first = record(b"0123456789ab");
    let second = record(b"cdefghijklmn");
    let third = record(b"op");
    assert_eq!(append(&mut queue, &first), Ok(0));
    assert_eq!(append(&mut queue, &second), Ok(20));
    assert_eq!(append(&mut queue, &third), Ok(40));
    assert_eq!(queue.frontier(), 50);

    let mut files = reopen(queue);
    files.reverse();
    let mut queue = MappedFileQueue::new("commitlog", 32).unwrap();
    assert_eq!(queue.recovery(files, &CommitLogParser), Ok(()));
    let starts: Vec<usize> = queue.get_mapped_files().iter().map(|f| f.get_min_offset()).collect();
    assert_eq!(starts, vec![0, 20]);
    assert_eq!(queue.frontier(), 50);
    assert_eq!(queue.read(0, 20), Ok(first));
    assert_eq!(queue.read(20, 20), Ok(second));
    assert_eq!(queue.read(40, 10), Ok(third));
    assert_eq!(append(&mut queue, &record(b"q")), Ok(50));
}

#[test]
fn recovery_of_no_file_leaves_an_empty_queue() {
    let mut queue = MappedFileQueue::new("dir", 32).unwrap();
    assert_eq!(queue.recovery(Vec::new(), &CommitLogParser), Ok(()));
    assert_eq!(queue.get_mapped_files().len(), 0);
    assert_eq!(queue.append(&vec![1]), Ok(Step::Rollover(0)));
}

#[test]
fn recovery_refuses_a_file_of_another_capacity() {
    let mut queue = MappedFileQueue::new("dir", 32).unwrap();
    let files = vec![MemoryMappedFile::new(mapping(16), 0).unwrap()];
    assert_eq!(queue.recovery(files, &CommitLogParser), Err(Error::InvalidInput));
    assert_eq!(queue.get_mapped_files().len(), 0);
}

#[test]
fn recovery_refuses_a_gap() {
    let mut first = mapping(32);
    first[0..8].copy_from_slice(&2u64.to_le_bytes());
    let mut second = mapping(32);
    second[0..8].copy_from_slice(&2u64.to_le_bytes());
    let files = vec![
        MemoryMappedFile::new(first, 0).unwrap(),
        MemoryMappedFile::new(second, 12).unwrap(),
    ];
    let mut queue = MappedFileQueue::new("dir", 32).unwrap();
    assert_eq!(queue.recovery(files, &CommitLogParser), Err(Error::Corruption));
    assert_eq!(queue.get_mapped_files().len(), 0);
}

#[test]
fn recovery_refuses_segments_that_do_not_start_at_zero() {
    let files = vec![MemoryMappedFile::new(mapping(32), 32).unwrap()];
    let mut queue = MappedFileQueue::new("dir", 32).unwrap();
    assert_eq!(queue.recovery(files, &CommitLogParser), Err(Error::Corruption));
}

#[test]
fn recovery_stops_at_zeroed_bytes_and_writes_go_on_there() {
    let mut queue = MappedFileQueue::new("commitlog", 64).unwrap();
    assert_eq!(append(&mut queue, &record(b"one")), Ok(0));
    assert_eq!(append(&mut queue, &record(b"two")), Ok(11));
    assert_eq!(append(&mut queue, &record(b"three")), Ok(22));
    let file = queue.into_mapped_files().pop().unwrap();
    let mut mmap = file.into_mapping();
    // the second record loses its length
    for byte in mmap[11..19].iter_mut() {
        *byte = 0;
    }
    let mut queue = MappedFileQueue::new("commitlog", 64).unwrap();
    let files = vec![MemoryMappedFile::new(mmap, 0).unwrap()];
    assert_eq!(queue.recovery(files, &CommitLogParser), Ok(()));
    assert_eq!(queue.frontier(), 11);
    assert_eq!(append(&mut queue, &record(b"again")), Ok(11));
    assert_eq!(queue.read(11, 13), Ok(record(b"again")));
}
