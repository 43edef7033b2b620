//! One-word head values: the form that head slots store.
//!
//! The top bits of the word are the mode.
//!
//! | mode | value                                                        |
//! |------|--------------------------------------------------------------|
//! | 0    | 0 is empty, any other number one inline key                  |
//! | 10   | slab: `class` at bit 59, `used` at bit 43, offset below      |
//! | 110  | page chain: offset of its last page                          |
//! | 111  | extent: offset of its last page                              |

use vstd::prelude::*;
use crate::error::StoreError;
use crate::primitives::Fk;
use crate::scripthash_layout::{ShEntry, ShHeadValue, SH_HEAD_KEY_LEN};

verus! {

/// Bytes of a packed head value.
pub const SH_HEAD_VALUE_LEN: usize = 8;

/// Bytes of a head slot with a packed value.
pub const SH_HEAD_SLOT_SIZE: usize = SH_HEAD_KEY_LEN + SH_HEAD_VALUE_LEN;

/// Most create keys stored inline in a packed value.
pub const SH_PACK8_INLINE_CAP: usize = 1;

/// Mode 10 in the top bits.
pub const PACK8_SLAB: u64 = 0x8000_0000_0000_0000;

/// Mode 110 in the top bits.
pub const PACK8_PAGED: u64 = 0xc000_0000_0000_0000;

/// Mode 111 in the top bits.
pub const PACK8_EXTENT: u64 = 0xe000_0000_0000_0000;

/// Page offsets are below this one.
pub const PACK8_PAGE_LIMIT: u64 = 0x2000_0000_0000_0000;

/// Place of the slab class.
pub const PACK8_CLASS_UNIT: u64 = 0x0800_0000_0000_0000;

/// Place of the slab count.
pub const PACK8_USED_UNIT: u64 = 0x0000_0800_0000_0000;

/// The packed word of a value.
pub open spec fn pack8(v: ShHeadValue) -> Result<u64, StoreError> {
    match v {
        ShHeadValue::Empty => Ok(0u64),
        ShHeadValue::Inline { entries, used } => if used != 1 || entries@[0].create_tx_fk.0 == 0
            || entries@[0].create_tx_fk.0 >= 0x8000_0000_0000_0000 {
            Err(StoreError::Corrupt("scripthash pack8: inline holds one create_fk below 2^63"))
        } else {
            Ok(entries@[0].create_tx_fk.0)
        },
        ShHeadValue::Slab { class, used, off } => if class > 6 {
            Err(StoreError::Corrupt("scripthash pack8: slab class overflow"))
        } else if off == 0 || off >= 0x0000_0800_0000_0000 {
            Err(StoreError::Corrupt("scripthash pack8: slab off out of range"))
        } else {
            Ok(
                (0x8000_0000_0000_0000 + class * 0x0800_0000_0000_0000 + used
                    * 0x0000_0800_0000_0000 + off) as u64,
            )
        },
        ShHeadValue::Paged { last_page, .. } => if last_page == 0 || last_page
            >= 0x2000_0000_0000_0000 {
            Err(StoreError::Corrupt("scripthash pack8: page off out of range"))
        } else {
            Ok((0xc000_0000_0000_0000 + last_page) as u64)
        },
        ShHeadValue::Extent { last_page } => if last_page == 0 || last_page
            >= 0x2000_0000_0000_0000 {
            Err(StoreError::Corrupt("scripthash pack8: page off out of range"))
        } else {
            Ok((0xe000_0000_0000_0000 + last_page) as u64)
        },
    }
}

/// The value of a packed word. The first page of a chain is not in it.
pub open spec fn unpack8(w: u64) -> Result<ShHeadValue, StoreError> {
    let low = (w % 0x4000_0000_0000_0000) as u64;
    let page = (w % 0x2000_0000_0000_0000) as u64;
    if w == 0 {
        Ok(ShHeadValue::Empty)
    } else if w < 0x8000_0000_0000_0000 {
        Ok(
            ShHeadValue::Inline {
                entries: [
                    ShEntry { create_tx_fk: Fk(w) },
                    ShEntry { create_tx_fk: Fk(0) },
                ],
                used: 1,
            },
        )
    } else if w < 0xc000_0000_0000_0000 {
        let class = low / 0x0800_0000_0000_0000;
        let used = (low / 0x0000_0800_0000_0000) % 0x1_0000;
        let off = low % 0x0000_0800_0000_0000;
        if class > 6 {
            Err(StoreError::Corrupt("scripthash pack8: slab class overflow"))
        } else if off == 0 {
            Err(StoreError::Corrupt("scripthash pack8: slab off out of range"))
        } else {
            Ok(ShHeadValue::Slab { class: class as u8, used: used as u16, off: off as u64 })
        }
    } else if page == 0 {
        Err(StoreError::Corrupt("scripthash pack8: page off out of range"))
    } else if w < 0xe000_0000_0000_0000 {
        Ok(ShHeadValue::Paged { first_page: 0, last_page: page })
    } else {
        Ok(ShHeadValue::Extent { last_page: page })
    }
}

/// The value as it comes back from its packed word.
pub open spec fn packed_form(v: ShHeadValue) -> ShHeadValue {
    match v {
        ShHeadValue::Inline { entries, used } => ShHeadValue::Inline {
            entries: [entries@[0], ShEntry { create_tx_fk: Fk(0) }],
            used,
        },
        ShHeadValue::Paged { last_page, .. } => ShHeadValue::Paged { first_page: 0, last_page },
        _ => v,
    }
}

/// A packed value reads back; of a page chain only its last page is kept.
pub proof fn law_pack8_roundtrip(v: ShHeadValue)
    requires
        pack8(v) is Ok,
    ensures
        unpack8(pack8(v)->Ok_0) == Ok::<ShHeadValue, StoreError>(packed_form(v)),
        pack8(v)->Ok_0 == 0 <==> v is Empty,
        pack8(v)->Ok_0 != crate::slot_table::CLEARED_WORD,
{
    match v {
        ShHeadValue::Slab { class, used, off } => {
            let c: int = class as int;
            let u: int = used as int;
            let o: int = off as int;
            let low = c * 0x0800_0000_0000_0000 + u * 0x0000_0800_0000_0000 + o;
            assert(0 <= c * 0x0800_0000_0000_0000 <= 6 * 0x0800_0000_0000_0000);
            assert(0 <= u * 0x0000_0800_0000_0000 <= 0xffff * 0x0000_0800_0000_0000);
            assert(low < 0x4000_0000_0000_0000);
            let w = pack8(v)->Ok_0;
            assert(w % 0x4000_0000_0000_0000 == low);
            assert(low / 0x0800_0000_0000_0000 == c);
            assert(low / 0x0000_0800_0000_0000 == c * 0x1_0000 + u);
            assert(low % 0x0000_0800_0000_0000 == o);
        },
        _ => {},
    }
}

/// Packs a value into one word.
pub fn pack8_word(v: &ShHeadValue) -> (r: Result<u64, StoreError>)
    ensures
        r == pack8(*v),
{
    match v {
        ShHeadValue::Empty => Ok(0),
        ShHeadValue::Inline { entries, used } => {
            let fk: u64 = entries[0].create_tx_fk.0;
            if *used != 1 || fk == 0 || fk >= PACK8_SLAB {
                return Err(
                    StoreError::Corrupt("scripthash pack8: inline holds one create_fk below 2^63"),
                );
            }
            Ok(fk)
        },
        ShHeadValue::Slab { class, used, off } => {
            if *class > 6 {
                return Err(StoreError::Corrupt("scripthash pack8: slab class overflow"));
            }
            if *off == 0 || *off >= PACK8_USED_UNIT {
                return Err(StoreError::Corrupt("scripthash pack8: slab off out of range"));
            }
            proof {
                assert(0 <= class * 0x0800_0000_0000_0000 <= 6 * 0x0800_0000_0000_0000);
                assert(0 <= used * 0x0000_0800_0000_0000 <= 0xffff * 0x0000_0800_0000_0000);
            }
            Ok(
                PACK8_SLAB + *class as u64 * PACK8_CLASS_UNIT + *used as u64 * PACK8_USED_UNIT
                    + *off,
            )
        },
        ShHeadValue::Paged { last_page, .. } => {
            if *last_page == 0 || *last_page >= PACK8_PAGE_LIMIT {
                return Err(StoreError::Corrupt("scripthash pack8: page off out of range"));
            }
            Ok(PACK8_PAGED + *last_page)
        },
        ShHeadValue::Extent { last_page } => {
            if *last_page == 0 || *last_page >= PACK8_PAGE_LIMIT {
                return Err(StoreError::Corrupt("scripthash pack8: page off out of range"));
            }
            Ok(PACK8_EXTENT + *last_page)
        },
    }
}

/// Reads a packed word.
pub fn unpack8_word(w: u64) -> (r: Result<ShHeadValue, StoreError>)
    ensures
        r == unpack8(w),
{
    if w == 0 {
        return Ok(ShHeadValue::Empty);
    }
    if w < PACK8_SLAB {
        return Ok(ShHeadValue::inline_one(ShEntry::new(Fk(w))));
    }
    let low: u64 = w % 0x4000_0000_0000_0000;
    let page: u64 = w % PACK8_PAGE_LIMIT;
    if w < PACK8_PAGED {
        let class: u64 = low / PACK8_CLASS_UNIT;
        let used: u64 = (low / PACK8_USED_UNIT) % 0x1_0000;
        let off: u64 = low % PACK8_USED_UNIT;
        if class > 6 {
            return Err(StoreError::Corrupt("scripthash pack8: slab class overflow"));
        }
        if off == 0 {
            return Err(StoreError::Corrupt("scripthash pack8: slab off out of range"));
        }
        return Ok(ShHeadValue::slab(class as u8, used as u16, off));
    }
    if page == 0 {
        return Err(StoreError::Corrupt("scripthash pack8: page off out of range"));
    }
    if w < PACK8_EXTENT {
        Ok(ShHeadValue::paged(0, page))
    } else {
        Ok(ShHeadValue::extent(page))
    }
}

} // verus!
