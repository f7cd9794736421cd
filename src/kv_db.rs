//! The store: one data file, named by its path, and the index over it.
//!
//! The store does not touch the file itself. Its caller hands it the file's contents
//! when opening, appends the record that each `set` returns, and reads the bytes at
//! the location that `locate` gives.
use vstd::prelude::*;
use vstd::string::*;
use vstd::utf8::*;

use crate::error::StoreError;
use crate::index::{replay, IndexModel, SingleFileIndex, ValueLocation};
use crate::record::{byte_len, lemma_encode_record, record_text};

verus! {

/// Log-structured key-value store over one data file.
///
/// Keys must not hold `,` or `\n`, and values must not hold `\n`: records are not
/// escaped, so such text would be read back wrongly after a replay.
pub struct Database {
    path: String,
    index: SingleFileIndex,
}

impl View for Database {
    type V = IndexModel;

    closed spec fn view(&self) -> IndexModel {
        self.index@
    }
}

impl Database {
    /// The path of the data file.
    pub closed spec fn spec_path(&self) -> Seq<char> {
        self.path@
    }

    /// Opens the store over the data file at `path`, whose current `contents` (empty
    /// for a missing file) are replayed into a fresh index. Fails with `CorruptRecord`
    /// when a line of them holds no separator.
    pub fn build(path: String, contents: &str) -> (r: Result<Database, StoreError>)
        requires
            contents.spec_bytes().len() < u64::MAX,
        ensures
            match r {
                Ok(db) => {
                    &&& replay(IndexModel::empty(), contents.spec_bytes()) == Some(db@)
                    &&& db@.well_formed()
                    &&& db.spec_path() == path@
                },
                Err(e) => e == StoreError::CorruptRecord && replay(
                    IndexModel::empty(),
                    contents.spec_bytes(),
                ) is None,
            },
    {
        let mut index = SingleFileIndex::new();
        match index.init(contents) {
            Ok(()) => Ok(Database { path, index }),
            Err(e) => Err(e),
        }
    }

    /// The path of the data file.
    pub fn path(&self) -> (r: &str)
        ensures
            r@ == self.spec_path(),
    {
        self.path.as_str()
    }

    /// The number of bytes in the data file, by the index's count.
    pub fn total_bytes(&self) -> (r: u64)
        ensures
            r == self@.cursor,
    {
        self.index.file_bytes()
    }

    /// Stores `value` under `key`: records it in the index and returns the record text,
    /// which the caller appends to the data file. Fails with `InvalidKey`, and changes
    /// nothing, when `key` is empty.
    pub fn set(&mut self, key: &str, value: &str) -> (r: Result<String, StoreError>)
        requires
            old(self)@.cursor + byte_len(record_text(key@, value@)) <= u64::MAX,
        ensures
            match r {
                Ok(text) => {
                    &&& key@.len() > 0
                    &&& text@ == record_text(key@, value@)
                    &&& final(self)@ == old(self)@.record(key@, byte_len(text@))
                },
                Err(e) => {
                    &&& e == StoreError::InvalidKey
                    &&& key@.len() == 0
                    &&& final(self)@ == old(self)@
                },
            },
            final(self).spec_path() == old(self).spec_path(),
            old(self)@.well_formed() ==> final(self)@.well_formed(),
    {
        if key.is_empty() {
            return Err(StoreError::InvalidKey);
        }
        let text = key.to_owned().concat(",").concat(value).concat("\n");
        proof {
            reveal_strlit(",");
            reveal_strlit("\n");
            assert(text@ =~= record_text(key@, value@));
            lemma_encode_record(key@, value@);
        }
        let size = text.as_str().as_bytes().len() as u64;
        let recorded = self.index.set(key, size);
        assert(recorded is Ok);
        Ok(text)
    }

    /// The location of the latest value stored under `key`, or `None` when the key was
    /// never stored.
    pub fn locate(&self, key: &str) -> (r: Option<ValueLocation>)
        ensures
            match r {
                Some(loc) => self@.locations.contains_key(key@) && loc@ == self@.locations[key@],
                None => !self@.locations.contains_key(key@),
            },
    {
        match self.index.get(key) {
            Some(loc) => Some(*loc),
            None => None,
        }
    }
}

/// Relies on `String::from_utf8`: it fails exactly on bytes that are not valid UTF-8,
/// and the string it returns holds the given bytes.
#[verifier::external_body]
fn string_from_utf8(bytes: Vec<u8>) -> (r: Option<String>)
    ensures
        match r {
            Some(s) => encode_utf8(s@) == bytes@,
            None => !valid_utf8(bytes@),
        },
{
    String::from_utf8(bytes).ok()
}

/// Decodes the bytes read at a value's location. Fails with `DecodeError` when they
/// are not valid UTF-8, which means the index and the file disagree.
pub fn decode_value(bytes: Vec<u8>) -> (r: Result<String, StoreError>)
    ensures
        match r {
            Ok(s) => valid_utf8(bytes@) && s@ == decode_utf8(bytes@),
            Err(e) => e == StoreError::DecodeError && !valid_utf8(bytes@),
        },
{
    match string_from_utf8(bytes) {
        Some(s) => {
            proof {
                encode_utf8_valid_utf8(s@);
                encode_utf8_decode_utf8(s@);
            }
            Ok(s)
        },
        None => Err(StoreError::DecodeError),
    }
}

} // verus!
