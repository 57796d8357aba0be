use bytes::BytesMut;
use tinykeeper::changelog::record::{decode, encode};
use tinykeeper::changelog::segment_writer::append_record;
use tinykeeper::changelog::wal_store::{
    last_index_in, parse_segment_name, rotation_start, segment_entries, segment_name,
};
use tinykeeper::changelog::WalError;

#[test]
fn record_reads_back_as_written() {
    let mut buf = BytesMut::new();
    encode(&mut buf, 1, 7, 3, 0, b"payload");
    encode(&mut buf, 1, 8, 3, 0, b"");
    assert_eq!(buf.len(), 38 + 7 + 38);
    let data = buf.to_vec();
    let mut cursor = data.as_slice();
    let first = decode(&mut cursor).unwrap().unwrap();
    assert_eq!(first, (7, 3, b"payload".to_vec()));
    let second = decode(&mut cursor).unwrap().unwrap();
    assert_eq!(second, (8, 3, Vec::new()));
    assert!(cursor.is_empty());
    assert!(decode(&mut cursor).unwrap().is_none());
}

#[test]
fn partial_record_is_not_read() {
    let mut buf = BytesMut::new();
    encode(&mut buf, 1, 7, 3, 0, b"payload");
    let data = buf.to_vec();
    let mut cursor = &data[..data.len() - 1];
    assert!(decode(&mut cursor).unwrap().is_none());
    assert_eq!(cursor.len(), data.len() - 1);
}

#[test]
fn corrupted_record_is_a_checksum_mismatch() {
    let mut buf = BytesMut::new();
    encode(&mut buf, 1, 7, 3, 0, b"payload");
    let mut data = buf.to_vec();
    let last = data.len() - 1;
    data[last] ^= 0xff;
    let mut cursor = data.as_slice();
    assert!(matches!(decode(&mut cursor), Err(WalError::ChecksumMismatch)));
}

#[test]
fn last_index_is_that_of_the_last_record() {
    let mut buf = BytesMut::new();
    encode(&mut buf, 1, 4, 1, 0, b"a");
    encode(&mut buf, 1, 5, 1, 0, b"b");
    assert_eq!(last_index_in(&buf.to_vec()).unwrap(), 5);
    assert_eq!(last_index_in(&[]).unwrap(), 0);
}

#[test]
fn segment_names_round_trip() {
    assert_eq!(segment_name(1), "changelog_1.bin");
    assert_eq!(segment_name(1234), "changelog_1234.bin");
    assert_eq!(parse_segment_name("changelog_1234.bin"), Some(1234));
    assert_eq!(parse_segment_name("changelog_.bin"), None);
    assert_eq!(parse_segment_name("other_1.bin"), None);
    assert_eq!(parse_segment_name("changelog_12.txt"), None);
}

#[test]
fn rotation_starts_after_the_last_index() {
    assert_eq!(rotation_start(100, 100, 41), Some(42));
    assert_eq!(rotation_start(99, 100, 41), None);
}

#[test]
fn appending_counts_the_record_size() {
    let mut buf = BytesMut::new();
    let size = append_record(&mut buf, 10, 1, 1, 1, 0, b"abc");
    assert_eq!(size, 10 + 38 + 3);
    assert_eq!(buf.len(), 41);
}

#[test]
fn a_segment_reads_back_record_by_record() {
    let mut buf = BytesMut::new();
    encode(&mut buf, 1, 4, 1, 0, b"first");
    encode(&mut buf, 1, 5, 1, 0, b"");
    encode(&mut buf, 1, 6, 2, 0, b"third");
    let mut data = buf.to_vec();
    assert_eq!(
        segment_entries(&data).unwrap(),
        vec![(4, 1, b"first".to_vec()), (5, 1, Vec::new()), (6, 2, b"third".to_vec())]
    );
    data.truncate(data.len() - 2);
    assert_eq!(segment_entries(&data).unwrap().len(), 2);
    data[40] ^= 0xff;
    assert!(matches!(segment_entries(&data), Err(WalError::ChecksumMismatch)));
}
