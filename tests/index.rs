use llllog_db::error::StoreError;
use llllog_db::index::{MultiFileIndex, SingleFileIndex, ValueLocation};

#[test]
fn it_builds() {
    SingleFileIndex::new();
}

#[test]
fn get_returns_none_when_empty() {
    let index = SingleFileIndex::new();
    assert_eq!(index.get("key"), None);
}

#[test]
fn set_returns_total_bytes_written() {
    let mut index = SingleFileIndex::new();

    let k1_size = 11;
    let size = index.set("k1", k1_size).unwrap();
    assert_eq!(size, 11);

    let k2_size = 12;
    let size = index.set("k2", k2_size).unwrap();
    assert_eq!(size, k1_size + k2_size);
}

#[test]
fn get_returns_correct_offset_and_value_size() {
    let mut index = SingleFileIndex::new();

    let k1_size = 11;
    let k1_key = "key1";

    let file_size_new: u64 = 0;
    let file_size_after_k1 = index.set(k1_key, k1_size).unwrap();

    let result = index.get(k1_key).unwrap();

    let comma_len: u64 = TryInto::try_into(",".len()).unwrap();
    let newline_len: u64 = TryInto::try_into("\n".len()).unwrap();
    let key_len: u64 = TryInto::try_into(k1_key.len()).unwrap();
    let expected_val = ValueLocation {
        offset: file_size_new + key_len + comma_len,
        size: k1_size - key_len - comma_len - newline_len,
    };
    assert_eq!(result.offset, expected_val.offset);
    assert_eq!(result.size, expected_val.size);

    let k2_size = 12;
    let k2_key = "key2";
    index.set(k2_key, k2_size).unwrap();

    let result = index.get(k2_key).unwrap();

    let key_len: u64 = TryInto::try_into(k2_key.len()).unwrap();
    let expected_val = ValueLocation {
        offset: file_size_after_k1 + key_len + comma_len,
        size: k2_size - key_len - comma_len - newline_len,
    };
    assert_eq!(result.offset, expected_val.offset);
    assert_eq!(result.size, expected_val.size);
}

#[test]
fn cumulative_count_and_second_offset() {
    let mut index = SingleFileIndex::new();
    assert_eq!(index.set("k1", 11), Ok(11));
    assert_eq!(index.set("k2", 12), Ok(23));
    assert_eq!(index.file_bytes(), 23);
    let loc = index.get("k2").unwrap();
    assert_eq!(loc.offset, 11 + 2 + 1);
    assert_eq!(loc.size, 12 - 2 - 2);
}

#[test]
fn set_rejects_record_too_short_for_its_key() {
    let mut index = SingleFileIndex::new();
    assert_eq!(index.set("key", 4), Err(StoreError::InvalidRecord));
    assert_eq!(index.file_bytes(), 0);
    assert_eq!(index.get("key"), None);
    assert_eq!(index.set("key", 5), Ok(5));
    assert_eq!(index.get("key"), Some(&ValueLocation { offset: 4, size: 0 }));
}

#[test]
fn set_counts_key_bytes_not_characters() {
    let mut index = SingleFileIndex::new();
    // "é" is two bytes in UTF-8
    assert_eq!(index.set("é", 6), Ok(6));
    assert_eq!(index.get("é"), Some(&ValueLocation { offset: 3, size: 2 }));
}

#[test]
fn later_set_overrides_location() {
    let mut index = SingleFileIndex::new();
    index.set("k", 5).unwrap();
    index.set("k", 7).unwrap();
    assert_eq!(index.get("k"), Some(&ValueLocation { offset: 7, size: 4 }));
}

#[test]
fn parse_csv_row_splits_at_first_separator() {
    let index = SingleFileIndex::new();
    assert_eq!(index.parse_csv_row("k,v"), Some(("k", "v")));
    assert_eq!(index.parse_csv_row("k,v,w"), Some(("k", "v")));
    assert_eq!(index.parse_csv_row(",v"), Some(("", "v")));
    assert_eq!(index.parse_csv_row("k,"), Some(("k", "")));
    assert_eq!(index.parse_csv_row("kv"), None);
    assert_eq!(index.parse_csv_row(""), None);
}

#[test]
fn init_replays_lines() {
    let mut index = SingleFileIndex::new();
    assert_eq!(index.init("a,1\nbb,22\na,333\n"), Ok(()));
    assert_eq!(index.file_bytes(), 16);
    assert_eq!(index.get("a"), Some(&ValueLocation { offset: 12, size: 3 }));
    assert_eq!(index.get("bb"), Some(&ValueLocation { offset: 7, size: 2 }));
    assert_eq!(index.get("c"), None);
}

#[test]
fn init_counts_a_terminator_for_an_unterminated_last_line() {
    let mut index = SingleFileIndex::new();
    assert_eq!(index.init("a,1\nb,2"), Ok(()));
    assert_eq!(index.file_bytes(), 8);
    assert_eq!(index.get("b"), Some(&ValueLocation { offset: 6, size: 1 }));
}

#[test]
fn init_of_empty_contents_leaves_index_empty() {
    let mut index = SingleFileIndex::new();
    assert_eq!(index.init(""), Ok(()));
    assert_eq!(index.file_bytes(), 0);
}

#[test]
fn init_rejects_line_without_separator() {
    let mut index = SingleFileIndex::new();
    assert_eq!(index.init("a,1\nbroken\n"), Err(StoreError::CorruptRecord));
    let mut index = SingleFileIndex::new();
    assert_eq!(index.init("a,1\n\nb,2\n"), Err(StoreError::CorruptRecord));
}

#[test]
fn replay_matches_live_index() {
    let mut live = SingleFileIndex::new();
    live.set("key1", 12).unwrap();
    live.set("k2", 7).unwrap();
    live.set("key1", 9).unwrap();
    let mut replayed = SingleFileIndex::new();
    replayed.init("key1,val1.4\nk2,abc\nkey1,xyz\n").unwrap();
    assert_eq!(replayed.file_bytes(), live.file_bytes());
    assert_eq!(replayed.get("key1"), live.get("key1"));
    assert_eq!(replayed.get("k2"), live.get("k2"));
}

#[test]
fn multi_file_index_returns_first_hit() {
    let mut multi = MultiFileIndex::new();
    assert_eq!(multi.get("a"), None);
    assert_eq!(multi.add_file("a,1\nb,22\n"), Ok(()));
    assert_eq!(multi.add_file("b,3\nc,4\n"), Ok(()));
    assert_eq!(multi.get("a"), Some(&ValueLocation { offset: 2, size: 1 }));
    assert_eq!(multi.get("b"), Some(&ValueLocation { offset: 6, size: 2 }));
    assert_eq!(multi.get("c"), Some(&ValueLocation { offset: 6, size: 1 }));
    assert_eq!(multi.get("d"), None);
}

#[test]
fn multi_file_index_add_file_rejects_corrupt_contents() {
    let mut multi = MultiFileIndex::new();
    assert_eq!(multi.add_file("nothing here\n"), Err(StoreError::CorruptRecord));
    assert_eq!(multi.get("nothing here"), None);
}

#[test]
fn multi_file_index_init_loads_files_in_order() {
    let mut multi = MultiFileIndex::new();
    multi.add_file("z,9\n").unwrap();
    let files = vec![String::from("k,new\n"), String::from("k,old\nm,1\n")];
    assert_eq!(multi.init(&files), Ok(()));
    assert_eq!(multi.get("z"), None);
    assert_eq!(multi.get("k"), Some(&ValueLocation { offset: 2, size: 3 }));
    assert_eq!(multi.get("m"), Some(&ValueLocation { offset: 8, size: 1 }));
    let bad = vec![String::from("k,1\n"), String::from("oops\n")];
    assert_eq!(multi.init(&bad), Err(StoreError::CorruptRecord));
}
