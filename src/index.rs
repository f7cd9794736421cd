//! The in-memory index of one data file: for each key, where the value of its most
//! recent record stands, and how many bytes the file holds.
use vstd::hash_map::StringHashMap;
use vstd::prelude::*;
use vstd::string::*;
use vstd::utf8::*;

use crate::error::StoreError;
use crate::record::{byte_len, find_byte, first_index_of, split_around, ENTRY_SEPARATOR, KV_SEPARATOR};

verus! {

/// Where a value's bytes stand in the data file.
#[derive(Debug, Clone, Copy, PartialEq, Eq, Structural)]
pub struct ValueLocation {
    pub offset: u64,
    pub size: u64,
}

/// A byte range of the data file, as a pair of naturals.
pub struct Span {
    pub offset: nat,
    pub size: nat,
}

impl View for ValueLocation {
    type V = Span;

    open spec fn view(&self) -> Span {
        Span { offset: self.offset as nat, size: self.size as nat }
    }
}

/// What an index knows: the bytes written so far, and the latest location of
/// each key's value.
pub struct IndexModel {
    pub cursor: nat,
    pub locations: Map<Seq<char>, Span>,
}

impl IndexModel {
    /// The index of an empty file.
    pub open spec fn empty() -> IndexModel {
        IndexModel { cursor: 0, locations: Map::empty() }
    }

    /// A record of `n` bytes is long enough to hold `key`, the separator and the terminator.
    pub open spec fn fits(key: Seq<char>, n: nat) -> bool {
        n >= byte_len(key) + 2
    }

    /// The index after a record of `n` bytes for `key` was appended to the file.
    pub open spec fn record(self, key: Seq<char>, n: nat) -> IndexModel {
        IndexModel {
            cursor: self.cursor + n,
            locations: self.locations.insert(
                key,
                Span { offset: self.cursor + byte_len(key) + 1, size: (n - byte_len(key) - 2) as nat },
            ),
        }
    }

    /// Every location lies within the bytes written so far.
    pub open spec fn well_formed(self) -> bool {
        forall|k: Seq<char>| #[trigger]
            self.locations.contains_key(k) ==> self.locations[k].offset + self.locations[k].size
                <= self.cursor
    }
}

/// The key of a data-file line: the text before its first separator, if it has one.
pub open spec fn line_key(line: Seq<u8>) -> Option<Seq<char>> {
    let c = first_index_of(line, KV_SEPARATOR);
    if c < line.len() {
        Some(decode_utf8(line.subrange(0, c as int)))
    } else {
        None
    }
}

/// The index that replaying the data-file bytes `b`, line by line, onto `m` yields;
/// `None` when a line holds no separator. Each line counts its terminator, also a
/// last line that has none in `b`.
pub open spec fn replay(m: IndexModel, b: Seq<u8>) -> Option<IndexModel>
    decreases b.len(),
{
    if b.len() == 0 {
        Some(m)
    } else {
        let p = first_index_of(b, ENTRY_SEPARATOR) as int;
        let line = b.subrange(0, p);
        let rest = if p < b.len() {
            b.subrange(p + 1, b.len() as int)
        } else {
            Seq::empty()
        };
        match line_key(line) {
            Some(key) => replay(m.record(key, line.len() + 1), rest),
            None => None,
        }
    }
}

/// The index of a single data file.
pub struct SingleFileIndex {
    file_bytes: u64,
    map: StringHashMap<ValueLocation>,
}

impl View for SingleFileIndex {
    type V = IndexModel;

    closed spec fn view(&self) -> IndexModel {
        IndexModel {
            cursor: self.file_bytes as nat,
            locations: self.map@.map_values(|l: ValueLocation| l@),
        }
    }
}

impl SingleFileIndex {
    /// An index of an empty file.
    pub fn new() -> (r: SingleFileIndex)
        ensures
            r@ == IndexModel::empty(),
            r@.well_formed(),
    {
        let r = SingleFileIndex { file_bytes: 0, map: StringHashMap::new() };
        proof {
            assert(r@.locations =~= Map::<Seq<char>, Span>::empty());
        }
        r
    }

    /// Records that `entry_size` bytes were appended for `key`, and returns the number
    /// of bytes written so far. Fails with `InvalidRecord`, and changes nothing, when
    /// `entry_size` cannot hold the key, the separator and the terminator.
    pub fn set(&mut self, key: &str, entry_size: u64) -> (r: Result<u64, StoreError>)
        requires
            old(self)@.cursor + entry_size <= u64::MAX,
        ensures
            match r {
                Ok(total) => {
                    &&& IndexModel::fits(key@, entry_size as nat)
                    &&& final(self)@ == old(self)@.record(key@, entry_size as nat)
                    &&& total == final(self)@.cursor
                },
                Err(e) => {
                    &&& e == StoreError::InvalidRecord
                    &&& !IndexModel::fits(key@, entry_size as nat)
                    &&& final(self)@ == old(self)@
                },
            },
            old(self)@.well_formed() ==> final(self)@.well_formed(),
    {
        let key_bytes = key.as_bytes().len() as u64;
        if entry_size < 2 || entry_size - 2 < key_bytes {
            return Err(StoreError::InvalidRecord);
        }
        let location = ValueLocation {
            offset: self.file_bytes + key_bytes + 1,
            size: entry_size - key_bytes - 2,
        };
        let ghost before = self@;
        self.map.insert(key.to_owned(), location);
        self.file_bytes = self.file_bytes + entry_size;
        proof {
            assert(self@.locations =~= before.locations.insert(key@, location@));
        }
        Ok(self.file_bytes)
    }

    /// The number of bytes written so far.
    pub fn file_bytes(&self) -> (r: u64)
        ensures
            r == self@.cursor,
    {
        self.file_bytes
    }

    /// The location of the latest value recorded for `key`, if any.
    pub fn get(&self, key: &str) -> (r: Option<&ValueLocation>)
        ensures
            match r {
                Some(loc) => self@.locations.contains_key(key@) && loc@ == self@.locations[key@],
                None => !self@.locations.contains_key(key@),
            },
    {
        self.map.get(key)
    }

    /// Splits a data-file line at its first separator: the key before it, and the value
    /// up to the next separator or the end of the line. `None` when the line holds no
    /// separator.
    pub fn parse_csv_row<'a>(&self, line: &'a str) -> (r: Option<(&'a str, &'a str)>)
        ensures
            r is Some <==> line_key(line.spec_bytes()) is Some,
            r matches Some((k, v)) ==> {
                let b = line.spec_bytes();
                let c = first_index_of(b, KV_SEPARATOR) as int;
                let tail = b.subrange(c + 1, b.len() as int);
                &&& Some(k@) == line_key(b)
                &&& k.spec_bytes() == b.subrange(0, c)
                &&& v.spec_bytes() == tail.subrange(0, first_index_of(tail, KV_SEPARATOR) as int)
            },
    {
        let c = find_byte(line.as_bytes(), KV_SEPARATOR);
        if c == line.as_bytes().len() {
            return None;
        }
        let (k, tail) = split_around(line, c);
        let d = find_byte(tail.as_bytes(), KV_SEPARATOR);
        proof {
            let tb = tail.spec_bytes();
            encode_utf8_valid_utf8(tail@);
            is_char_boundary_start_end_of_seq(tb);
            if d < tb.len() {
                is_char_boundary_iff_is_leading_byte(tb, d as int);
            }
            encode_utf8_decode_utf8(k@);
        }
        let (v, _) = tail.split_at(d);
        Some((k, v))
    }

    /// Replays the contents of a data file onto this index, line by line: each line
    /// records its key with its length plus one terminator byte. Fails with
    /// `CorruptRecord` when a line holds no separator; the index is then left as the
    /// lines before it made it.
    pub fn init(&mut self, contents: &str) -> (r: Result<(), StoreError>)
        requires
            old(self)@.cursor + contents.spec_bytes().len() + 1 <= u64::MAX,
        ensures
            match r {
                Ok(()) => replay(old(self)@, contents.spec_bytes()) == Some(final(self)@),
                Err(e) => e == StoreError::CorruptRecord && replay(
                    old(self)@,
                    contents.spec_bytes(),
                ) is None,
            },
            old(self)@.well_formed() && r is Ok ==> final(self)@.well_formed(),
    {
        let mut rest: &str = contents;
        while rest.as_bytes().len() > 0
            invariant
                replay(old(self)@, contents.spec_bytes()) == replay(self@, rest.spec_bytes()),
                self@.cursor <= u64::MAX,
                rest.spec_bytes().len() > 0 ==> self@.cursor + rest.spec_bytes().len() + 1
                    <= u64::MAX,
                old(self)@.well_formed() ==> self@.well_formed(),
            decreases rest.spec_bytes().len(),
        {
            let p = find_byte(rest.as_bytes(), ENTRY_SEPARATOR);
            let ghost rb = rest.spec_bytes();
            let (line, next) = if p < rest.as_bytes().len() {
                split_around(rest, p)
            } else {
                proof {
                    encode_utf8_valid_utf8(rest@);
                    is_char_boundary_start_end_of_seq(rb);
                }
                rest.split_at(p)
            };
            proof {
                if p == rb.len() {
                    assert(next.spec_bytes() =~= Seq::<u8>::empty());
                }
            }
            match self.parse_csv_row(line) {
                None => {
                    return Err(StoreError::CorruptRecord);
                },
                Some((k, _)) => {
                    let size = line.as_bytes().len() as u64 + 1;
                    let written = self.set(k, size);
                    assert(written is Ok);
                },
            }
            rest = next;
        }
        Ok(())
    }
}

} // verus!

verus! {

/// The location that the first index of `indexes` holding `key` gives, if any does.
pub open spec fn first_location(indexes: Seq<IndexModel>, key: Seq<char>) -> Option<Span>
    decreases indexes.len(),
{
    if indexes.len() == 0 {
        None
    } else if indexes[0].locations.contains_key(key) {
        Some(indexes[0].locations[key])
    } else {
        first_location(indexes.drop_first(), key)
    }
}

/// An index spanning several data files, one `SingleFileIndex` each, kept in the
/// order in which they are consulted: a lookup returns the first hit.
pub struct MultiFileIndex {
    file_indexes: Vec<SingleFileIndex>,
}

impl View for MultiFileIndex {
    type V = Seq<IndexModel>;

    closed spec fn view(&self) -> Seq<IndexModel> {
        self.file_indexes@.map_values(|i: SingleFileIndex| i@)
    }
}

impl MultiFileIndex {
    /// An index over no files.
    pub fn new() -> (r: Self)
        ensures
            r@ == Seq::<IndexModel>::empty(),
    {
        let r = MultiFileIndex { file_indexes: Vec::new() };
        proof {
            assert(r@ =~= Seq::<IndexModel>::empty());
        }
        r
    }

    /// Rebuilds the index from the contents of its data files, given in lookup order.
    /// Fails with `CorruptRecord` at the first file that does not replay.
    pub fn init(&mut self, datafiles: &Vec<String>) -> (r: Result<(), StoreError>)
        requires
            forall|i: int|
                0 <= i < datafiles@.len() ==> encode_utf8(#[trigger] datafiles@[i]@).len()
                    < u64::MAX,
        ensures
            match r {
                Ok(()) => {
                    &&& final(self)@.len() == datafiles@.len()
                    &&& forall|i: int|
                        0 <= i < datafiles@.len() ==> Some(#[trigger] final(self)@[i]) == replay(
                            IndexModel::empty(),
                            encode_utf8(datafiles@[i]@),
                        )
                },
                Err(e) => e == StoreError::CorruptRecord && exists|i: int|
                    0 <= i < datafiles@.len() && #[trigger] replay(
                        IndexModel::empty(),
                        encode_utf8(datafiles@[i]@),
                    ) is None,
            },
    {
        self.file_indexes = Vec::new();
        proof {
            assert(self@ =~= Seq::<IndexModel>::empty());
        }
        let mut i: usize = 0;
        while i < datafiles.len()
            invariant
                0 <= i <= datafiles@.len(),
                self@.len() == i,
                forall|j: int| 0 <= j < datafiles@.len() ==> encode_utf8(#[trigger] datafiles@[j]@).len()
                    < u64::MAX,
                forall|j: int|
                    0 <= j < i ==> Some(#[trigger] self@[j]) == replay(
                        IndexModel::empty(),
                        encode_utf8(datafiles@[j]@),
                    ),
            decreases datafiles@.len() - i,
        {
            let added = self.add_file(datafiles[i].as_str());
            if added.is_err() {
                return Err(StoreError::CorruptRecord);
            }
            i = i + 1;
        }
        Ok(())
    }

    /// Replays `contents`, the contents of one more data file, into an index of its own,
    /// consulted after those already held. Fails with `CorruptRecord`, and changes
    /// nothing, when the contents do not replay.
    pub fn add_file(&mut self, contents: &str) -> (r: Result<(), StoreError>)
        requires
            contents.spec_bytes().len() < u64::MAX,
        ensures
            match r {
                Ok(()) => {
                    let m = replay(IndexModel::empty(), contents.spec_bytes());
                    &&& m is Some
                    &&& final(self)@ == old(self)@.push(m.unwrap())
                },
                Err(e) => {
                    &&& e == StoreError::CorruptRecord
                    &&& replay(IndexModel::empty(), contents.spec_bytes()) is None
                    &&& final(self)@ == old(self)@
                },
            },
    {
        let mut new_index = SingleFileIndex::new();
        match new_index.init(contents) {
            Ok(()) => {
                let ghost before = self@;
                self.file_indexes.push(new_index);
                proof {
                    assert(self@ =~= before.push(new_index@));
                }
                Ok(())
            },
            Err(e) => Err(e),
        }
    }

    /// The location that the first index holding `key` gives, or `None` when none does.
    pub fn get(&self, key: &str) -> (r: Option<&ValueLocation>)
        ensures
            match r {
                Some(loc) => first_location(self@, key@) == Some(loc@),
                None => first_location(self@, key@) is None,
            },
    {
        let mut i: usize = 0;
        proof {
            assert(self@.skip(0) =~= self@);
        }
        while i < self.file_indexes.len()
            invariant
                0 <= i <= self@.len(),
                self@.len() == self.file_indexes@.len(),
                first_location(self@, key@) == first_location(self@.skip(i as int), key@),
            decreases self@.len() - i,
        {
            proof {
                assert(self@.skip(i as int).drop_first() =~= self@.skip(i + 1));
            }
            match self.file_indexes[i].get(key) {
                Some(loc) => {
                    return Some(loc);
                },
                None => {},
            }
            i = i + 1;
        }
        None
    }
}

} // verus!
