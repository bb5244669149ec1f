//! Snapshots: writing the store out and reading it back.

use ember::database::store::{RedisObject, DB};
use ember::rdb::reader::{load_rdb, load_rdb_at, read_length, RdbError};
use ember::rdb::writer::save_rdb;

fn text(s: &str) -> RedisObject {
    RedisObject::String(s.to_string())
}

#[test]
fn empty_snapshot_is_header_and_selector() {
    let bytes = save_rdb(&vec![], &vec![], 0);
    assert_eq!(bytes, b"REDIS0001\xFE\x00".to_vec());
    let (d, e) = load_rdb_at(&bytes, 0).unwrap();
    assert!(d.is_empty() && e.is_empty());
}

#[test]
fn string_entry_layout() {
    let bytes = save_rdb(&vec![("k".to_string(), text("v"))], &vec![], 0);
    let mut expected = b"REDIS0001\xFE\x00".to_vec();
    expected.extend_from_slice(b"\x06string\x00\x01k\x01v");
    assert_eq!(bytes, expected);
}

#[test]
fn expiry_layout_is_little_endian_milliseconds() {
    let bytes = save_rdb(&vec![], &vec![("k".to_string(), 0x0102030405060708u64)], 0);
    let mut expected = b"REDIS0001\xFE\x00".to_vec();
    expected.extend_from_slice(b"\x01k\xFC\x08\x07\x06\x05\x04\x03\x02\x01");
    assert_eq!(bytes, expected);
}

#[test]
fn long_strings_use_four_byte_lengths() {
    let long = "x".repeat(300);
    let bytes = save_rdb(&vec![(long.clone(), text("v"))], &vec![], 0);
    assert_eq!(&bytes[18..24], &[0x00, 0x80, 0x00, 0x00, 0x01, 0x2C]);
    let (d, _) = load_rdb_at(&bytes, 0).unwrap();
    assert_eq!(d, vec![(long, text("v"))]);
}

#[test]
fn entries_and_expiries_read_back_in_order() {
    let data = vec![
        ("a".to_string(), text("1")),
        ("list".to_string(), RedisObject::List(vec![text("x"), text("y")])),
        ("caf\u{e9}".to_string(), text("\u{1F600}")),
    ];
    let exps = vec![("a".to_string(), 42u64), ("z".to_string(), u64::MAX)];
    let bytes = save_rdb(&data, &exps, 0);
    let (d, e) = load_rdb_at(&bytes, 0).unwrap();
    assert_eq!(d, data);
    assert_eq!(e, exps);
}

#[test]
fn store_snapshot_restores_the_store() {
    let mut db = DB::new_in_memory();
    db.set("s".into(), text("v"), Some(5_000)).unwrap();
    db.rpush("l".into(), vec![text("a"), text("b")]).unwrap();
    let bytes = db.save_rdb_at(0);
    let (d, e) = load_rdb_at(&bytes, 0).unwrap();
    let mut back = DB::new(d, e);
    assert_eq!(back.get_at("s".into(), 4_999).unwrap(), text("v"));
    assert_eq!(back.get_at("s".into(), 5_001).unwrap(), text("nil"));
    assert_eq!(back.lrange_at("l".into(), 0, -1, 0).unwrap(), RedisObject::List(vec![text("a"), text("b")]));
}

#[test]
fn an_empty_list_is_not_kept() {
    let bytes = save_rdb(&vec![("l".to_string(), RedisObject::List(vec![]))], &vec![], 0);
    let (d, _) = load_rdb_at(&bytes, 0).unwrap();
    assert!(d.is_empty());
}

#[test]
fn an_expiry_on_a_key_named_list_is_misread() {
    let bytes = save_rdb(&vec![], &vec![("LIST".to_string(), 1u64)], 0);
    assert!(load_rdb_at(&bytes, 0).is_err());
}

#[test]
fn load_errors() {
    assert_eq!(load_rdb_at(b"REDIS", 0), Err(RdbError::UnexpectedEof));
    assert_eq!(load_rdb_at(b"HELLO0001", 0), Err(RdbError::InvalidHeader));
    assert_eq!(load_rdb_at(b"REDIS0001\x06string\x01", 0), Err(RdbError::StringValueMarker(1)));
    assert_eq!(load_rdb_at(b"REDIS0001\x04list\x01\x05", 0), Err(RdbError::ListItemMarker(5)));
    assert_eq!(load_rdb_at(b"REDIS0001\x01k\x00", 0), Err(RdbError::UnknownOpcode(1)));
    assert_eq!(load_rdb_at(b"REDIS0001\x41", 0), Err(RdbError::UnsupportedLength(0x41)));
    assert_eq!(load_rdb_at(b"REDIS0001\x06string\x00\x05ab", 0), Err(RdbError::UnexpectedEof));
}

#[test]
fn reading_stops_at_the_end_marker() {
    let (d, _) = load_rdb_at(b"REDIS0001\xFF\x06string\x00\x01k\x01v", 0).unwrap();
    assert!(d.is_empty());
}

#[test]
fn invalid_utf8_is_read_with_replacement_characters() {
    let (d, _) = load_rdb_at(b"REDIS0001\x06string\x00\x01k\x01\xFF", 0).unwrap();
    assert_eq!(d, vec![("k".to_string(), text("\u{FFFD}"))]);
}

#[test]
fn token_case_does_not_matter() {
    let (d, _) = load_rdb_at(b"REDIS0001\x06STRING\x00\x01k\x01v", 0).unwrap();
    assert_eq!(d, vec![("k".to_string(), text("v"))]);
}

#[test]
fn a_past_expiry_is_saved_as_the_save_time_and_read_as_the_load_time() {
    let bytes = save_rdb(&vec![("k".to_string(), text("v"))], &vec![("k".to_string(), 10u64), ("j".to_string(), 900u64)], 100);
    let mut expected = b"REDIS0001\xFE\x00\x06string\x00\x01k\x01v".to_vec();
    expected.extend_from_slice(b"\x01k\xFC\x64\x00\x00\x00\x00\x00\x00\x00");
    expected.extend_from_slice(b"\x01j\xFC\x84\x03\x00\x00\x00\x00\x00\x00");
    assert_eq!(bytes, expected);
    let (_, e) = load_rdb_at(&bytes, 500).unwrap();
    assert_eq!(e, vec![("k".to_string(), 500u64), ("j".to_string(), 900u64)]);
}

#[test]
fn load_by_the_clock_keeps_future_times() {
    let bytes = save_rdb(&vec![], &vec![("k".to_string(), u64::MAX)], 0);
    let (_, e) = load_rdb(&bytes).unwrap();
    assert_eq!(e, vec![("k".to_string(), u64::MAX)]);
}

#[test]
fn read_length_takes_exactly_its_bytes() {
    assert_eq!(read_length(&[0x05, 0xFF], 0), Ok((5, 1)));
    assert_eq!(read_length(&[0x80, 0x00, 0x00, 0x01, 0x2C, 0x09], 0), Ok((300, 5)));
    assert_eq!(read_length(&[0x41], 0), Err(RdbError::UnsupportedLength(0x41)));
    assert_eq!(read_length(&[0x80, 0x00], 0), Err(RdbError::UnexpectedEof));
}
