use photonmq::codec::u32_from_bytes;
use photonmq::codec::u32_to_bytes;
use photonmq::codec::u64_from_bytes;
use photonmq::codec::u64_to_bytes;
use photonmq::config::ConfigOptions;
use photonmq::config::DEFAULT_INDEX_FILE_SIZE;
use photonmq::config::DEFAULT_MSG_STORE_FILE_SIZE;
use photonmq::layout::commit_log_dir;
use photonmq::layout::decimal_string;
use photonmq::layout::index_root_dir;
use photonmq::layout::parse_segment_name;
use photonmq::layout::queue_index_dir;
use photonmq::layout::segment_file_name;
use photonmq::topic_mgr::Topic;

#[test]
fn segment_names_have_twenty_digits() {
    assert_eq!(segment_file_name(0), "00000000000000000000");
    assert_eq!(segment_file_name(40), "00000000000000000040");
    assert_eq!(segment_file_name(1073741824), "00000000001073741824");
    assert_eq!(segment_file_name(u64::MAX as usize), "18446744073709551615");
}

#[test]
fn segment_names_are_read_back() {
    for start in [0usize, 7, 10, 99, 12345678901234567, usize::MAX] {
        assert_eq!(parse_segment_name(&segment_file_name(start)), Some(start));
    }
    assert_eq!(parse_segment_name("5"), Some(5));
    assert_eq!(parse_segment_name("0000000000000000000000000000000000000012"), Some(12));
}

#[test]
fn names_that_are_no_numbers_are_no_segments() {
    assert_eq!(parse_segment_name(""), None);
    assert_eq!(parse_segment_name("abc"), None);
    assert_eq!(parse_segment_name("12a"), None);
    assert_eq!(parse_segment_name("+12"), None);
    assert_eq!(parse_segment_name("-1"), None);
    assert_eq!(parse_segment_name(" 12"), None);
    assert_eq!(parse_segment_name("１２"), None);
    assert_eq!(parse_segment_name("18446744073709551616"), None);
    assert_eq!(parse_segment_name("99999999999999999999"), None);
    assert_eq!(parse_segment_name("18446744073709551615"), Some(u64::MAX as usize));
}

#[test]
fn numbers_in_decimal() {
    assert_eq!(decimal_string(0), "0");
    assert_eq!(decimal_string(9), "9");
    assert_eq!(decimal_string(10), "10");
    assert_eq!(decimal_string(4294967295), "4294967295");
    assert_eq!(decimal_string(u64::MAX), "18446744073709551615");
}

#[test]
fn directories_of_the_store() {
    assert_eq!(commit_log_dir("/var/mq"), "/var/mq/commitlog");
    assert_eq!(index_root_dir("/var/mq"), "/var/mq/index");
    assert_eq!(queue_index_dir("/var/mq/index", "orders", 0), "/var/mq/index/orders/0");
    assert_eq!(queue_index_dir("index", "a", 4294967295), "index/a/4294967295");
}

#[test]
fn numbers_as_little_endian_bytes() {
    assert_eq!(u64_to_bytes(13), vec![13, 0, 0, 0, 0, 0, 0, 0]);
    assert_eq!(u64_to_bytes(0x0102030405060708), vec![8, 7, 6, 5, 4, 3, 2, 1]);
    assert_eq!(u64_to_bytes(u64::MAX), vec![255; 8]);
    assert_eq!(u32_to_bytes(0x01020304), vec![4, 3, 2, 1]);
    assert_eq!(u32_to_bytes(u32::MAX), vec![255; 4]);
    assert_eq!(u64_from_bytes(&[0, 8, 7, 6, 5, 4, 3, 2, 1, 0], 1), 0x0102030405060708);
    assert_eq!(u32_from_bytes(&[9, 9, 4, 3, 2, 1], 2), 0x01020304);
    for value in [0u64, 1, 255, 256, 65535, 1 << 40, u64::MAX] {
        assert_eq!(u64_to_bytes(value), value.to_le_bytes().to_vec());
        assert_eq!(u64_from_bytes(&value.to_le_bytes(), 0), value);
    }
    for value in [0u32, 1, 255, 256, 1 << 31, u32::MAX] {
        assert_eq!(u32_to_bytes(value), value.to_le_bytes().to_vec());
        assert_eq!(u32_from_bytes(&value.to_le_bytes(), 0), value);
    }
}

#[test]
fn default_capacities() {
    let config = ConfigOptions::default();
    assert_eq!(config.msg_store_path, "");
    assert_eq!(config.topic_store_path, "");
    assert_eq!(config.index_file_size, 300_000 * 12);
    assert_eq!(config.msg_store_file_size, 1024 * 1024 * 1024);
    assert_eq!(DEFAULT_INDEX_FILE_SIZE, 3_600_000);
    assert_eq!(DEFAULT_MSG_STORE_FILE_SIZE, 1_073_741_824);
}

#[test]
fn topic_holds_its_name_and_partitions() {
    let topic = Topic::new("test_topic_name".to_string(), 4);
    assert_eq!(topic.topic_name(), "test_topic_name");
    assert_eq!(topic.partition_number(), 4);
}
