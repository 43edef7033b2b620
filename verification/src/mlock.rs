//! Confirm-cache page pinning: identify and unlock mapped ranges across tables.
//!
//! Every page that confirmation will touch is pinned for the heights in the
//! parent cache and released when those heights leave it.

use vstd::prelude::*;

verus! {

/// Which store mapping a locked page range belongs to (for unlock routing).
#[derive(Clone, Copy, Debug, PartialEq, Eq, Hash, Structural)]
pub enum MlockTable {
    TxBody,
    TxIdx,
    TxHead,
    HeaderBody,
    HeaderHead,
    HeaderTxsFirst,
    HeaderTxsCount,
    Spenders,
    StrongTx,
    TxHeight,
    Confirmed,
}

impl MlockTable {
    /// Stable number of the table.
    pub open spec fn code(self) -> u8 {
        match self {
            MlockTable::TxBody => 0,
            MlockTable::TxIdx => 1,
            MlockTable::TxHead => 2,
            MlockTable::HeaderBody => 3,
            MlockTable::HeaderHead => 4,
            MlockTable::HeaderTxsFirst => 5,
            MlockTable::HeaderTxsCount => 6,
            MlockTable::Spenders => 7,
            MlockTable::StrongTx => 8,
            MlockTable::TxHeight => 9,
            MlockTable::Confirmed => 10,
        }
    }

    pub fn as_u8(self) -> (r: u8)
        ensures
            r == self.code(),
    {
        match self {
            MlockTable::TxBody => 0,
            MlockTable::TxIdx => 1,
            MlockTable::TxHead => 2,
            MlockTable::HeaderBody => 3,
            MlockTable::HeaderHead => 4,
            MlockTable::HeaderTxsFirst => 5,
            MlockTable::HeaderTxsCount => 6,
            MlockTable::Spenders => 7,
            MlockTable::StrongTx => 8,
            MlockTable::TxHeight => 9,
            MlockTable::Confirmed => 10,
        }
    }
}

/// Two tables never share a number.
pub proof fn law_table_codes_distinct(a: MlockTable, b: MlockTable)
    ensures
        a.code() == b.code() <==> a == b,
{
}

/// Page-aligned range that was locked and has to be unlocked later.
#[derive(Clone, Copy, Debug, PartialEq, Eq, Hash, Structural)]
pub struct MlockRange {
    pub table: MlockTable,
    pub page_start: u64,
    pub page_len: u64,
}

impl MlockRange {
    pub fn empty(table: MlockTable) -> (r: Self)
        ensures
            r == (MlockRange { table, page_start: 0, page_len: 0 }),
    {
        MlockRange { table, page_start: 0, page_len: 0 }
    }

    pub fn is_empty(&self) -> (r: bool)
        ensures
            r == (self.page_len == 0),
    {
        self.page_len == 0
    }
}

} // verus!
