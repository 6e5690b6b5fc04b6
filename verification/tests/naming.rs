//! File names of batches and the directories that hold them.
use mirror_v3::naming::{batch_filename, parse_filename, partition_dir};

#[test]
fn filename_round_trip() {
    let name = batch_filename(100, 199, "ndjson");
    assert_eq!(name, "00000000000000000100-00000000000000000199.ndjson");
    assert_eq!(parse_filename(&name, "ndjson"), Some((100, 199)));
}

#[test]
fn parse_rejects_wrong_extension() {
    let name = batch_filename(0, 0, "ndjson");
    assert_eq!(parse_filename(&name, "json"), None);
}

#[test]
fn parse_rejects_garbage() {
    assert_eq!(parse_filename("not-a-batch.ndjson", "ndjson"), None);
    assert_eq!(parse_filename("123.ndjson", "ndjson"), None);
    assert_eq!(parse_filename("abc-def.ndjson", "ndjson"), None);
}

#[test]
fn lexicographic_matches_numeric() {
    let a = batch_filename(9, 9, "x");
    let b = batch_filename(10, 10, "x");
    let c = batch_filename(100, 100, "x");
    assert!(a < b);
    assert!(b < c);
}

#[test]
fn names_of_the_largest_offsets_are_read_back() {
    let name = batch_filename(0, u64::MAX, "parquet");
    assert_eq!(name, "00000000000000000000-18446744073709551615.parquet");
    assert_eq!(parse_filename(&name, "parquet"), Some((0, u64::MAX)));
}

#[test]
fn numbers_beyond_the_offsets_are_no_names() {
    assert_eq!(
        parse_filename("00000000000000000000-18446744073709551616.x", "x"),
        None
    );
    assert_eq!(parse_filename(".x", "x"), None);
    assert_eq!(parse_filename("1-2.ndjson", "ndjson"), None);
    assert_eq!(
        parse_filename("+0000000000000000001-00000000000000000002.x", "x"),
        None
    );
    assert_eq!(
        parse_filename("000000000000000000001-00000000000000000002.x", "x"),
        None
    );
    assert_eq!(parse_filename("", "x"), None);
}

#[test]
fn partition_directories_are_nested() {
    assert_eq!(partition_dir("/data", "orders", 3), "/data/orders/3");
    assert_eq!(partition_dir("/data/", "orders", 0), "/data/orders/0");
}
