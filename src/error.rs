use vstd::prelude::*;

verus! {

/// What can go wrong in the store's own logic. Failures to reach the data file
/// itself belong to the caller that reads and writes it.
#[derive(Debug, Clone, Copy, PartialEq, Eq, Structural)]
pub enum StoreError {
    /// `set` was called with an empty key.
    InvalidKey,
    /// A line of the data file holds no key-value separator.
    CorruptRecord,
    /// A record length too short to hold its key, the separator and the terminator.
    InvalidRecord,
    /// The bytes at a value's location are not valid UTF-8.
    DecodeError,
}

} // verus!
