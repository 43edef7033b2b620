//! Error type shared by every table of the store.

use vstd::prelude::*;

verus! {

/// What a table operation refuses with.
#[derive(Clone, Copy, Debug, PartialEq, Eq)]
pub enum StoreError {
    /// Bytes that do not decode, or a caller-side invariant that does not hold.
    Corrupt(&'static str),
    /// On-disk layout that this version does not read.
    Layout(&'static str),
    /// A file or an image cannot be read, written or grown.
    Io(&'static str),
    /// A null or out-of-range foreign key.
    InvalidFk,
    /// Nothing stored under the asked key.
    NotFound,
    /// Cooperative cancel.
    Cancelled(&'static str),
    /// The file does not start with the store magic.
    BadMagic,
    /// Schema number of the file.
    BadSchema(u16),
}

} // verus!
