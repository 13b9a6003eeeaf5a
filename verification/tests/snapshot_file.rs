use redis_kv::config::{Config, Role};
use redis_kv::database::Database;
use redis_kv::rdb::{
    is_expired, is_expired_at, load_rdb_to_database, load_records, parse_hash_table,
    parse_snapshot, process_hash_table, read_item, read_length, read_pair, read_plain_length,
    read_string, skip_string, snapshot_path, Length, RdbError, Record,
};
use redis_kv::snapshot::empty_rdb;

fn b(s: &str) -> Vec<u8> {
    s.as_bytes().to_vec()
}

fn db() -> Database {
    Database::new(Config::new(None, None, Role::Master, 6379, None).unwrap())
}

fn plain(s: &[u8]) -> Vec<u8> {
    assert!(s.len() < 64);
    let mut out = vec![s.len() as u8];
    out.extend_from_slice(s);
    out
}

fn record(key: &str, value: &str) -> Vec<u8> {
    let mut out = vec![0x00];
    out.extend(plain(key.as_bytes()));
    out.extend(plain(value.as_bytes()));
    out
}

fn file_of(items: &[Vec<u8>]) -> Vec<u8> {
    let mut out = b("REDIS0011");
    out.push(0xfa);
    out.extend(plain(b"redis-ver"));
    out.extend(plain(b"7.2.0"));
    out.extend([0xfe, 0x00]);
    out.extend([0xfb, items.len() as u8, 0x00]);
    for item in items {
        out.extend_from_slice(item);
    }
    out.push(0xff);
    out.extend([0u8; 8]);
    out
}

fn with_millis(at: u64, rest: Vec<u8>) -> Vec<u8> {
    let mut out = vec![0xfc];
    out.extend(at.to_le_bytes());
    out.extend(rest);
    out
}

fn with_seconds(at: u32, rest: Vec<u8>) -> Vec<u8> {
    let mut out = vec![0xfd];
    out.extend(at.to_le_bytes());
    out.extend(rest);
    out
}

#[test]
fn length_of_six_bits() {
    assert_eq!(read_length(&[0x00]), Ok((Length::Plain(0), 1)));
    assert_eq!(read_length(&[0x3f, 9]), Ok((Length::Plain(63), 1)));
    assert_eq!(read_length(&[0x0a]), Ok((Length::Plain(10), 1)));
}

#[test]
fn length_of_fourteen_bits() {
    assert_eq!(read_length(&[0x41, 0x2c]), Ok((Length::Plain(300), 2)));
    assert_eq!(read_length(&[0x40, 0x00]), Ok((Length::Plain(0), 2)));
    assert_eq!(read_length(&[0x7f, 0xff, 1]), Ok((Length::Plain(16383), 2)));
    assert_eq!(read_length(&[0x41]), Err(RdbError::Truncated));
}

#[test]
fn length_of_thirty_two_bits_is_most_significant_byte_first() {
    assert_eq!(read_length(&[0x80, 0, 0, 0x01, 0x2c]), Ok((Length::Plain(300), 5)));
    assert_eq!(read_length(&[0x80, 1, 2, 3, 4, 5]), Ok((Length::Plain(0x01020304), 5)));
    assert_eq!(
        read_length(&[0x80, 0xff, 0xff, 0xff, 0xff]),
        Ok((Length::Plain(u32::MAX as u64), 5))
    );
    assert_eq!(read_length(&[0xbf, 0, 0, 1, 0]), Ok((Length::Plain(256), 5)));
    assert_eq!(read_length(&[0x80, 0, 0, 1]), Err(RdbError::Truncated));
}

#[test]
fn length_in_a_special_encoding() {
    assert_eq!(read_length(&[0xc0, 0x40]), Ok((Length::Special(0), 1)));
    assert_eq!(read_length(&[0xc2]), Ok((Length::Special(2), 1)));
    assert_eq!(read_length(&[0xff]), Ok((Length::Special(63), 1)));
    assert_eq!(read_plain_length(&[0xc0, 0x40]), Err(RdbError::UnsupportedEncoding));
    assert_eq!(read_plain_length(&[0x05]), Ok((5, 1)));
    assert_eq!(read_length(&[]), Err(RdbError::Truncated));
    assert_eq!(read_plain_length(&[]), Err(RdbError::Truncated));
}

#[test]
fn plain_string() {
    assert_eq!(read_string(&[3, b'f', b'o', b'o', 9]), Ok((b("foo"), 4)));
    assert_eq!(read_string(&[0]), Ok((vec![], 1)));
    assert_eq!(read_string(&[3, b'f', b'o']), Err(RdbError::Truncated));
    assert_eq!(read_string(&[0xc0, 1]), Err(RdbError::UnsupportedEncoding));
    let mut long = vec![0x41, 0x2c];
    long.extend(vec![b'x'; 300]);
    assert_eq!(read_string(&long), Ok((vec![b'x'; 300], 302)));
    let mut longer = vec![0x80, 0, 0, 0x01, 0x2c];
    longer.extend(vec![b'y'; 300]);
    longer.push(0);
    assert_eq!(read_string(&longer), Ok((vec![b'y'; 300], 305)));
}

#[test]
fn string_that_is_passed_over() {
    assert_eq!(skip_string(&[3, b'f', b'o', b'o', 9]), Ok(4));
    assert_eq!(skip_string(&[0xc0, 0x40]), Ok(2));
    assert_eq!(skip_string(&[0xc1, 1, 2, 3]), Ok(3));
    assert_eq!(skip_string(&[0xc2, 1, 2, 3, 4]), Ok(5));
    assert_eq!(skip_string(&[0xc2, 1, 2, 3]), Err(RdbError::Truncated));
    assert_eq!(skip_string(&[0xc3, 1, 2, 3]), Err(RdbError::UnsupportedEncoding));
    assert_eq!(skip_string(&[5, 1]), Err(RdbError::Truncated));
    assert_eq!(skip_string(&[]), Err(RdbError::Truncated));
}

#[test]
fn key_and_value() {
    assert_eq!(read_pair(&record("foo", "bar")), Ok((b("foo"), b("bar"), 9)));
    assert_eq!(read_pair(&[0x01, 1, b'a', 1, b'b']), Err(RdbError::UnsupportedType));
    assert_eq!(read_pair(&[0x00, 1, b'a']), Err(RdbError::Truncated));
    assert_eq!(read_pair(&[0x00, 1, b'a', 0xc0, 7]), Err(RdbError::UnsupportedEncoding));
    assert_eq!(read_pair(&[]), Err(RdbError::Truncated));
}

#[test]
fn sizes_of_the_hash_tables() {
    assert_eq!(process_hash_table(&[0x03, 0x02, 0xff]), Ok((3, 2, 2)));
    assert_eq!(process_hash_table(&[0x41, 0x2c, 0x00]), Ok((300, 0, 3)));
    assert_eq!(process_hash_table(&[0x03]), Err(RdbError::Truncated));
    assert_eq!(process_hash_table(&[0x03, 0xc0]), Err(RdbError::UnsupportedEncoding));
}

#[test]
fn items_of_each_kind() {
    let mut aux = vec![0xfa];
    aux.extend(plain(b"redis-bits"));
    aux.extend([0xc0, 0x40, 0x77]);
    assert_eq!(read_item(&aux), Ok((None, 14)));
    assert_eq!(read_item(&[0xfe, 0x00, 0x77]), Ok((None, 2)));
    assert_eq!(read_item(&[0xfb, 0x02, 0x01, 0x77]), Ok((None, 3)));
    assert_eq!(
        read_item(&record("k", "v")),
        Ok((Some(Record { key: b("k"), value: b("v"), expiry: None }), 5))
    );
    assert_eq!(read_item(&[]), Err(RdbError::Truncated));
    assert_eq!(read_item(&[0x09, 1, 2]), Err(RdbError::UnsupportedType));
}

#[test]
fn expiry_in_milliseconds_is_least_significant_byte_first() {
    let mut item = vec![0xfc, 0x08, 0x07, 0x06, 0x05, 0x04, 0x03, 0x02, 0x01];
    item.extend(record("k", "v"));
    assert_eq!(
        read_item(&item),
        Ok((Some(Record { key: b("k"), value: b("v"), expiry: Some(0x0102030405060708) }), 14))
    );
    let item = with_millis(1_700_000_000_123, record("k", "v"));
    assert_eq!(
        read_item(&item),
        Ok((Some(Record { key: b("k"), value: b("v"), expiry: Some(1_700_000_000_123) }), 14))
    );
    assert_eq!(read_item(&[0xfc, 1, 2, 3, 4, 5, 6, 7]), Err(RdbError::Truncated));
    assert_eq!(read_item(&[0xfc, 1, 2, 3, 4, 5, 6, 7, 8]), Err(RdbError::Truncated));
}

#[test]
fn expiry_in_seconds_is_turned_into_milliseconds() {
    let mut item = vec![0xfd, 0x04, 0x03, 0x02, 0x01];
    item.extend(record("k", "v"));
    assert_eq!(
        read_item(&item),
        Ok((Some(Record { key: b("k"), value: b("v"), expiry: Some(0x01020304 * 1000) }), 10))
    );
    let item = with_seconds(u32::MAX, record("k", "v"));
    assert_eq!(
        read_item(&item),
        Ok((Some(Record { key: b("k"), value: b("v"), expiry: Some(4_294_967_295_000) }), 10))
    );
    assert_eq!(read_item(&[0xfd, 1, 2, 3]), Err(RdbError::Truncated));
}

#[test]
fn records_of_a_file() {
    let file = file_of(&[
        record("foo", "bar"),
        with_millis(5_000, record("baz", "qux")),
        with_seconds(7, record("a", "")),
    ]);
    assert_eq!(
        parse_snapshot(&file),
        Ok(vec![
            Record { key: b("foo"), value: b("bar"), expiry: None },
            Record { key: b("baz"), value: b("qux"), expiry: Some(5_000) },
            Record { key: b("a"), value: b(""), expiry: Some(7_000) },
        ])
    );
}

#[test]
fn records_up_to_the_end_mark() {
    let mut items = record("k", "v");
    items.push(0xff);
    items.extend([1, 2, 3, 4, 5, 6, 7, 8]);
    items.extend(record("after", "the end"));
    assert_eq!(
        parse_hash_table(&items),
        Ok(vec![Record { key: b("k"), value: b("v"), expiry: None }])
    );
    assert_eq!(parse_hash_table(&[0xff, 0, 0, 0, 0, 0, 0, 0, 0]), Ok(vec![]));
}

#[test]
fn file_without_its_end_is_truncated() {
    let whole = file_of(&[record("foo", "bar"), with_millis(9, record("k", "v"))]);
    assert!(parse_snapshot(&whole).is_ok());
    for cut in 9..whole.len() {
        assert_eq!(parse_snapshot(&whole[..cut]), Err(RdbError::Truncated));
    }
}

#[test]
fn file_without_magic_is_refused() {
    assert_eq!(parse_snapshot(b""), Err(RdbError::BadMagic));
    assert_eq!(parse_snapshot(b"REDIS001"), Err(RdbError::BadMagic));
    assert_eq!(parse_snapshot(b"REDIS00x1\xff00000000"), Err(RdbError::BadMagic));
    assert_eq!(parse_snapshot(b"redis0011\xff00000000"), Err(RdbError::BadMagic));
    assert_eq!(parse_snapshot(b"RDBIS0011\xff00000000"), Err(RdbError::BadMagic));
    assert_eq!(parse_snapshot(b"REDIS0003\xff00000000"), Ok(vec![]));
}

#[test]
fn file_with_an_unknown_item_is_refused() {
    let file = file_of(&[record("foo", "bar"), vec![0x04, 1, b'k', 1, b'v']]);
    assert_eq!(parse_snapshot(&file), Err(RdbError::UnsupportedType));
    let file = file_of(&[vec![0x00, 1, b'k', 0xc0, 0x07]]);
    assert_eq!(parse_snapshot(&file), Err(RdbError::UnsupportedEncoding));
}

#[test]
fn empty_snapshot_holds_no_record() {
    assert_eq!(parse_snapshot(&empty_rdb()), Ok(vec![]));
    let mut store = db();
    assert_eq!(load_rdb_to_database(&mut store, &empty_rdb(), 0), Ok(()));
    assert_eq!(store.len(), 0);
}

#[test]
fn expiry_that_is_past() {
    assert!(!is_expired_at(None, u64::MAX));
    assert!(is_expired_at(Some(99), 100));
    assert!(!is_expired_at(Some(100), 100));
    assert!(!is_expired_at(Some(101), 100));
    assert!(!is_expired(None));
    assert!(is_expired(Some(1)));
    assert!(!is_expired(Some(u64::MAX)));
}

#[test]
fn load_stores_what_has_not_expired() {
    let file = file_of(&[
        record("plain", "1"),
        with_millis(4_999, record("gone", "2")),
        with_millis(5_000, record("now", "3")),
        with_millis(5_250, record("soon", "4")),
        with_seconds(6, record("later", "5")),
    ]);
    let mut store = db();
    assert_eq!(load_rdb_to_database(&mut store, &file, 5_000), Ok(()));
    assert_eq!(store.keys(), vec![b("plain"), b("now"), b("soon"), b("later")]);
    assert_eq!(store.get_at(b"plain", u64::MAX), Some(b("1")));
    assert_eq!(store.get_at(b"gone", 5_000), None);
    assert_eq!(store.get_at(b"soon", 5_249), Some(b("4")));
    assert_eq!(store.get_at(b"later", 5_999), Some(b("5")));
    assert_eq!(store.get_at(b"now", 5_000), None);
    assert_eq!(store.get_at(b"soon", 5_250), None);
    assert_eq!(store.get_at(b"later", 6_000), None);
    assert_eq!(store.keys(), vec![b("plain")]);
}

#[test]
fn load_takes_the_last_record_of_a_key() {
    let file = file_of(&[record("k", "first"), record("other", "x"), record("k", "second")]);
    let mut store = db();
    assert_eq!(load_rdb_to_database(&mut store, &file, 0), Ok(()));
    assert_eq!(store.len(), 2);
    assert_eq!(store.get_at(b"k", 0), Some(b("second")));
}

#[test]
fn load_of_a_broken_file_leaves_the_store_as_it_was() {
    let mut store = db();
    load_records(&mut store, vec![Record { key: b("kept"), value: b("v"), expiry: None }], 0);
    let mut file = file_of(&[record("new", "x")]);
    file.truncate(file.len() - 3);
    assert_eq!(load_rdb_to_database(&mut store, &file, 0), Err(RdbError::Truncated));
    assert_eq!(store.keys(), vec![b("kept")]);
    assert_eq!(load_rdb_to_database(&mut store, b"nothing", 0), Err(RdbError::BadMagic));
    assert_eq!(store.keys(), vec![b("kept")]);
}

#[test]
fn load_adds_to_what_the_store_holds() {
    let mut store = db();
    load_records(&mut store, vec![Record { key: b("a"), value: b("1"), expiry: None }], 0);
    let file = file_of(&[record("b", "2"), record("a", "3")]);
    assert_eq!(load_rdb_to_database(&mut store, &file, 0), Ok(()));
    assert_eq!(store.keys(), vec![b("a"), b("b")]);
    assert_eq!(store.get_at(b"a", 0), Some(b("3")));
}

#[test]
fn path_of_the_snapshot_file() {
    let config =
        Config::new(Some(b("/tmp/redis-files")), Some(b("dump.rdb")), Role::Master, 1, None)
            .unwrap();
    assert_eq!(snapshot_path(&config), Some(b("/tmp/redis-files/dump.rdb")));
    let config = Config::new(None, None, Role::Master, 1, None).unwrap();
    assert_eq!(snapshot_path(&config), None);
}
