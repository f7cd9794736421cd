use llllog_db::error::StoreError;
use llllog_db::index::ValueLocation;
use llllog_db::kv_db::{decode_value, Database};

/// Stores `value` under `key` and appends the record to `file`, as a caller would.
fn set_into(db: &mut Database, file: &mut Vec<u8>, key: &str, value: &str) {
    let record = db.set(key, value).unwrap();
    file.extend_from_slice(record.as_bytes());
    assert_eq!(db.total_bytes(), file.len() as u64);
}

/// Reads back the value stored under `key` from `file`, as a caller would.
fn get_from(db: &Database, file: &[u8], key: &str) -> Option<String> {
    let loc = db.locate(key)?;
    let start = loc.offset as usize;
    let end = start + loc.size as usize;
    Some(decode_value(file[start..end].to_vec()).unwrap())
}

#[test]
fn three_keys_read_back() {
    let mut db = Database::build(String::from("db_file.csv"), "").unwrap();
    let mut file = Vec::new();
    set_into(&mut db, &mut file, "key1", "val1.4");
    set_into(&mut db, &mut file, "key2", "val2.3");
    set_into(&mut db, &mut file, "key3", "val3.0");
    assert_eq!(get_from(&db, &file, "key1"), Some(String::from("val1.4")));
    assert_eq!(get_from(&db, &file, "key2"), Some(String::from("val2.3")));
    assert_eq!(get_from(&db, &file, "key3"), Some(String::from("val3.0")));
    assert_eq!(get_from(&db, &file, "bad_key"), None);
}

#[test]
fn set_returns_the_record_text() {
    let mut db = Database::build(String::from("f"), "").unwrap();
    assert_eq!(db.set("key1", "val1.4"), Ok(String::from("key1,val1.4\n")));
    assert_eq!(db.total_bytes(), 12);
    assert_eq!(db.locate("key1"), Some(ValueLocation { offset: 5, size: 6 }));
}

#[test]
fn set_rejects_empty_key() {
    let mut db = Database::build(String::from("f"), "").unwrap();
    assert_eq!(db.set("", "v"), Err(StoreError::InvalidKey));
    assert_eq!(db.total_bytes(), 0);
    assert_eq!(db.locate(""), None);
}

#[test]
fn last_write_wins_and_file_keeps_both() {
    let mut db = Database::build(String::from("f"), "").unwrap();
    let mut file = Vec::new();
    set_into(&mut db, &mut file, "k", "first");
    set_into(&mut db, &mut file, "k", "second");
    assert_eq!(file, b"k,first\nk,second\n".to_vec());
    assert_eq!(get_from(&db, &file, "k"), Some(String::from("second")));
}

#[test]
fn empty_store_lookup_gives_nothing() {
    let db = Database::build(String::from("f"), "").unwrap();
    assert_eq!(db.locate("anything"), None);
    assert_eq!(db.total_bytes(), 0);
}

#[test]
fn build_replays_file_written_by_sets() {
    let mut live = Database::build(String::from("f"), "").unwrap();
    let mut file = Vec::new();
    set_into(&mut live, &mut file, "a", "x");
    set_into(&mut live, &mut file, "bé", "yy,z");
    set_into(&mut live, &mut file, "a", "ünï");
    let text = String::from_utf8(file.clone()).unwrap();
    let reopened = Database::build(String::from("f"), &text).unwrap();
    assert_eq!(reopened.total_bytes(), live.total_bytes());
    for key in ["a", "bé", "c"] {
        assert_eq!(reopened.locate(key), live.locate(key));
    }
    assert_eq!(get_from(&reopened, &file, "a"), Some(String::from("ünï")));
    assert_eq!(get_from(&reopened, &file, "bé"), Some(String::from("yy,z")));
}

#[test]
fn build_then_set_appends_after_existing_records() {
    let mut db = Database::build(String::from("f"), "a,1\n").unwrap();
    let mut file = b"a,1\n".to_vec();
    set_into(&mut db, &mut file, "b", "22");
    assert_eq!(db.locate("b"), Some(ValueLocation { offset: 6, size: 2 }));
    assert_eq!(get_from(&db, &file, "a"), Some(String::from("1")));
}

#[test]
fn build_rejects_corrupt_file() {
    assert!(matches!(
        Database::build(String::from("f"), "a,1\nno separator\n"),
        Err(StoreError::CorruptRecord)
    ));
}

#[test]
fn build_keeps_the_path() {
    let db = Database::build(String::from("db_file.csv"), "").unwrap();
    assert_eq!(db.path(), "db_file.csv");
}

#[test]
fn decode_value_reads_multibyte_text() {
    assert_eq!(decode_value(vec![0xc3, 0xa9, 0x21]), Ok(String::from("é!")));
    assert_eq!(decode_value(Vec::new()), Ok(String::new()));
}

#[test]
fn decode_value_rejects_invalid_utf8() {
    assert_eq!(decode_value(vec![0x61, 0xc3]), Err(StoreError::DecodeError));
    assert_eq!(decode_value(vec![0xff]), Err(StoreError::DecodeError));
}
