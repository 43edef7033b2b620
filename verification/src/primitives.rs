//! Small value types that every table shares.

use vstd::prelude::*;

verus! {

/// Row number of a table, counted from 1; 0 is the null key.
#[derive(Clone, Copy, Debug, PartialEq, Eq, Hash, PartialOrd, Ord, Structural)]
pub struct Fk(pub u64);

impl Fk {
    /// The null key.
    pub fn null() -> (r: Fk)
        ensures
            r == Fk(0),
    {
        Fk(0)
    }

    pub fn is_null(self) -> (r: bool)
        ensures
            r == (self.0 == 0),
    {
        self.0 == 0
    }

    /// The row number, if the key is not null.
    pub fn get(self) -> (r: Option<u64>)
        ensures
            r == (if self.0 == 0 { None::<u64> } else { Some(self.0) }),
    {
        if self.0 == 0 {
            None
        } else {
            Some(self.0)
        }
    }
}

/// Block height.
#[derive(Clone, Copy, Debug, PartialEq, Eq, Hash, PartialOrd, Ord, Structural)]
pub struct Height(pub u32);

/// First bytes of the store's own files.
pub const STORE_MAGIC: [u8; 4] = [0x52, 0x42, 0x54, 0x31];

/// Schema number of the store files.
pub const SCHEMA_VERSION: u16 = 17;

} // verus!
