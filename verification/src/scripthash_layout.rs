//! Scripthash layout: 8-byte entries and fixed head values of two 64-bit words.
//!
//! The head key is the first 16 bytes of SHA-256 over the script. A value is
//! empty, one or two inline keys, a **slab** (`class`, `used`, `off`) or a
//! **page chain** (offsets of its first and last 4 KiB page). Bit 63 of each
//! word is a flag; the payload is in the low 63 bits.

use vstd::prelude::*;
use vstd::arithmetic::power2::pow2;
use vstd::arithmetic::power2::lemma_pow2_pos;
use vstd::arithmetic::power2::lemma_pow2_strictly_increases;
use crate::bytes::{get_u64, le64, lemma_le_nat_of_seq, lemma_p256_values, u64_at};
use crate::error::StoreError;
use crate::primitives::Fk;
use crate::scripthash_pages::{flagged, head_mode, pack_two_words, paged_head_err, payload, sh_encode_paged_head, sh_encode_slab_head, sh_head_value_mode, sh_word_payload, slab_head_dec, slab_head_err, slab_words, two_words, ShHeadValueMode};

verus! {

/// Body and page entry: one create key.
pub const SH_ENTRY_LEN: usize = 8;

/// Most create keys stored inline in the head value.
pub const SH_INLINE_CAP: usize = 2;

/// Head key length.
pub const SH_HEAD_KEY_LEN: usize = 16;

/// Head value: two 64-bit words.
pub const SH_HEAD_VALUE_LEN: usize = 16;

/// Head slot size.
pub const SH_HEAD_SLOT_SIZE: usize = SH_HEAD_KEY_LEN + SH_HEAD_VALUE_LEN;

/// High bit: the head value is not inline.
pub const SH_SLAB_MARKER: u64 = 0x8000_0000_0000_0000;

/// Version of the allocator header.
pub const SH_ALLOC_VERSION: u16 = 3;

/// File header and allocator header together; the payload starts here.
pub const SH_PREFIX_PAGE: usize = 4096;

/// Allocator fields after a 16-byte file header.
pub const SH_ALLOC_HEADER_LEN: usize = SH_PREFIX_PAGE - 16;

/// Slots of a class-0 slab.
pub const SH_SLAB_BASE: u32 = 4;

/// Largest class of the free lists.
pub const SH_MAX_CLASS: u8 = 24;

/// Largest relocating class (256 keys, 2 KiB).
pub const SH_MAX_SLAB_CLASS: u8 = 6;

/// The class whose size is one page.
pub const SH_PAGE_SLAB_CLASS: u8 = 7;

pub type ShHeadKey = [u8; 16];

/// First bytes of the allocator header.
pub const SH_ALLOC_MAGIC: [u8; 4] = [0x53, 0x48, 0x41, 0x4c];

/// Head key of a full scripthash: its first 16 bytes.
pub open spec fn key_of(full: [u8; 32]) -> ShHeadKey {
    [
        full@[0], full@[1], full@[2], full@[3], full@[4], full@[5], full@[6], full@[7],
        full@[8], full@[9], full@[10], full@[11], full@[12], full@[13], full@[14], full@[15],
    ]
}

pub proof fn lemma_key_of(full: [u8; 32])
    ensures
        key_of(full)@ == full@.subrange(0, 16),
{
    assert(key_of(full)@ =~= full@.subrange(0, 16));
}

/// Truncates a full scripthash to the head key.
pub fn head_key_from_full(full: &[u8; 32]) -> (r: ShHeadKey)
    ensures
        r@ == full@.subrange(0, 16),
        r == key_of(*full),
{
    let mut k: [u8; 16] = [0u8; 16];
    let mut i: usize = 0;
    while i < 16
        invariant
            i <= 16,
            forall|j: int| 0 <= j < i ==> k@[j] == full@[j],
        decreases 16 - i,
    {
        k[i] = full[i];
        i += 1;
    }
    proof {
        assert(k@ =~= full@.subrange(0, 16));
        lemma_key_of(*full);
        assert(k =~= key_of(*full));
    }
    k
}

/// Slots of a slab of `class`.
pub open spec fn class_cap(class: nat) -> nat {
    4 * pow2(class)
}

/// Bytes of a slab of `class`.
pub open spec fn class_bytes(class: nat) -> nat {
    8 * class_cap(class)
}

pub proof fn lemma_class_cap_values()
    ensures
        class_cap(0) == 4,
        class_cap(1) == 8,
        class_cap(2) == 16,
        class_cap(3) == 32,
        class_cap(4) == 64,
        class_cap(5) == 128,
        class_cap(6) == 256,
        class_cap(7) == 512,
{
    vstd::arithmetic::power2::lemma2_to64();
}

pub proof fn lemma_class_cap_bound(class: nat)
    requires
        class <= 29,
    ensures
        4 <= class_cap(class) <= 0x8000_0000,
{
    vstd::arithmetic::power2::lemma2_to64();
    lemma_pow2_pos(class);
    if class < 29 {
        lemma_pow2_strictly_increases(class, 29);
    }
}

pub fn slab_cap(class: u8) -> (r: u32)
    requires
        class < 32,
    ensures
        r == SH_SLAB_BASE << class,
        class <= 29 ==> r == class_cap(class as nat),
{
    proof {
        if class <= 29 {
            lemma_class_cap_bound(class as nat);
            vstd::bits::lemma_u32_shl_is_mul(4, class as u32);
            assert(4u32 << class == 4u32 << (class as u32)) by (bit_vector)
                requires
                    class <= 29u8,
            ;
        }
    }
    SH_SLAB_BASE << class
}

pub fn slab_bytes(class: u8) -> (r: u64)
    requires
        class < 32,
    ensures
        r == (SH_SLAB_BASE << class) * 8,
        class <= 29 ==> r == class_bytes(class as nat),
{
    slab_cap(class) as u64 * 8
}

/// One create: the row key of the creating transaction.
#[derive(Clone, Copy, Debug, PartialEq, Eq, Hash, Structural)]
pub struct ShEntry {
    pub create_tx_fk: Fk,
}

impl ShEntry {
    pub fn new(create_tx_fk: Fk) -> (r: Self)
        ensures
            r == (ShEntry { create_tx_fk }),
    {
        ShEntry { create_tx_fk }
    }

    pub fn encode(self) -> (r: [u8; 8])
        ensures
            r@ == le64(self.create_tx_fk.0),
    {
        crate::bytes::u64_to_array(self.create_tx_fk.0)
    }

    pub fn decode(buf: &[u8]) -> (r: Result<Self, StoreError>)
        ensures
            buf@.len() < 8 ==> r == Err::<Self, StoreError>(
                StoreError::Corrupt("short scripthash entry"),
            ),
            buf@.len() >= 8 ==> r == Ok::<Self, StoreError>(
                ShEntry { create_tx_fk: Fk(u64_at(buf@, 0)) },
            ),
    {
        if buf.len() < SH_ENTRY_LEN {
            return Err(StoreError::Corrupt("short scripthash entry"));
        }
        Ok(ShEntry { create_tx_fk: Fk(get_u64(buf, 0)) })
    }

    pub fn is_null(self) -> (r: bool)
        ensures
            r == (self.create_tx_fk.0 == 0),
    {
        self.create_tx_fk.is_null()
    }
}

/// An entry reads back as it was written, whatever follows it.
pub proof fn law_entry_roundtrip(e: ShEntry, rest: Seq<u8>)
    ensures
        (le64(e.create_tx_fk.0) + rest).len() >= 8,
        u64_at(le64(e.create_tx_fk.0) + rest, 0) == e.create_tx_fk.0,
{
    let x = e.create_tx_fk.0;
    lemma_p256_values();
    lemma_le_nat_of_seq(x as nat, 8);
    assert((le64(x) + rest).subrange(0, 8) =~= le64(x));
}

/// Head value of one scripthash key.
#[allow(inconsistent_fields)]
#[derive(Clone, Copy, Debug, PartialEq, Eq)]
pub enum ShHeadValue {
    Empty,
    Inline { entries: [ShEntry; 2], used: u8 },
    /// Geometric slab: `used` keys at `off`, size class `class`.
    Slab { class: u8, used: u16, off: u64 },
    /// 4 KiB page chain; the head holds the offsets of its first and last page.
    Paged { first_page: u64, last_page: u64 },
    /// Page chain whose last page records where the contiguous part lies.
    Extent { last_page: u64 },
}

/// The keys of a list of entries.
pub open spec fn entry_fks(s: Seq<ShEntry>) -> Seq<Fk> {
    s.map_values(|e: ShEntry| e.create_tx_fk)
}

impl ShHeadValue {
    /// Keys stored in the value itself, oldest first.
    pub open spec fn inline_seq(self) -> Seq<ShEntry> {
        match self {
            ShHeadValue::Inline { entries, used } => entries@.subrange(0, used as int),
            _ => Seq::empty(),
        }
    }

    /// The two words of the value.
    pub open spec fn words(self) -> (u64, u64) {
        match self {
            ShHeadValue::Empty => (0, 0),
            ShHeadValue::Inline { entries, used } => (
                if used >= 1 {
                    entries@[0].create_tx_fk.0
                } else {
                    0
                },
                if used >= 2 {
                    entries@[1].create_tx_fk.0
                } else {
                    0
                },
            ),
            ShHeadValue::Slab { class, used, off } => slab_words(class, used, off),
            ShHeadValue::Paged { first_page, last_page } => (
                (first_page + 0x8000_0000_0000_0000) as u64,
                last_page,
            ),
            ShHeadValue::Extent { last_page } => (0, 0),
        }
    }

    /// The value has a 16-byte form.
    pub open spec fn encodable(self) -> bool {
        match self {
            ShHeadValue::Empty => true,
            ShHeadValue::Inline { .. } => !flagged(self.words().0) && !flagged(self.words().1),
            ShHeadValue::Slab { class, used, off } => slab_head_err(class, used, off) is None,
            ShHeadValue::Paged { first_page, last_page } => paged_head_err(
                first_page,
                last_page,
            ) is None,
            ShHeadValue::Extent { .. } => false,
        }
    }

    pub fn used(&self) -> (r: u32)
        ensures
            r == match *self {
                ShHeadValue::Empty => 0u32,
                ShHeadValue::Inline { used, .. } => used as u32,
                ShHeadValue::Slab { used, .. } => used as u32,
                ShHeadValue::Paged { .. } => u32::MAX,
                ShHeadValue::Extent { .. } => u32::MAX,
            },
    {
        match self {
            ShHeadValue::Empty => 0,
            ShHeadValue::Inline { used, .. } => *used as u32,
            ShHeadValue::Slab { used, .. } => *used as u32,
            // The head of a page chain holds no count.
            ShHeadValue::Paged { .. } => 0xffff_ffff,
            ShHeadValue::Extent { .. } => 0xffff_ffff,
        }
    }

    pub fn is_empty(&self) -> (r: bool)
        ensures
            r == (self is Empty),
    {
        matches!(self, ShHeadValue::Empty)
    }

    pub fn is_paged(&self) -> (r: bool)
        ensures
            r == (self is Paged),
    {
        matches!(self, ShHeadValue::Paged { .. })
    }

    pub fn is_slab(&self) -> (r: bool)
        ensures
            r == (self is Slab),
    {
        matches!(self, ShHeadValue::Slab { .. })
    }

    /// The 16-byte form.
    pub fn encode(&self) -> (r: [u8; 16])
        requires
            self.encodable(),
        ensures
            r@ == two_words(self.words().0, self.words().1),
    {
        match self {
            ShHeadValue::Empty => pack_two_words(0, 0),
            ShHeadValue::Inline { entries, used } => {
                let w0: u64 = if *used >= 1 {
                    entries[0].create_tx_fk.0
                } else {
                    0
                };
                let w1: u64 = if *used >= 2 {
                    entries[1].create_tx_fk.0
                } else {
                    0
                };
                pack_two_words(w0, w1)
            },
            ShHeadValue::Slab { class, used, off } => {
                match sh_encode_slab_head(*class, *used, *off) {
                    Ok(b) => b,
                    Err(_) => [0u8; 16],
                }
            },
            ShHeadValue::Paged { first_page, last_page } => {
                match sh_encode_paged_head(*first_page, *last_page) {
                    Ok(b) => b,
                    Err(_) => [0u8; 16],
                }
            },
            ShHeadValue::Extent { .. } => [0u8; 16],
        }
    }

    /// What the two words decode to.
    pub open spec fn from_words(w0: u64, w1: u64) -> Result<ShHeadValue, StoreError> {
        match head_mode(w0, w1) {
            Err(e) => Err(e),
            Ok(ShHeadValueMode::Empty) => Ok(ShHeadValue::Empty),
            Ok(ShHeadValueMode::Inline) => Ok(
                if w1 == 0 {
                    ShHeadValue::Inline { entries: [ShEntry { create_tx_fk: Fk(w0) }, ShEntry { create_tx_fk: Fk(0) }], used: 1 }
                } else {
                    ShHeadValue::Inline { entries: [ShEntry { create_tx_fk: Fk(w0) }, ShEntry { create_tx_fk: Fk(w1) }], used: 2 }
                },
            ),
            Ok(ShHeadValueMode::Slab) => match slab_head_dec(w0, w1) {
                Err(e) => Err(e),
                Ok((class, used, off)) => Ok(ShHeadValue::Slab { class, used, off }),
            },
            Ok(ShHeadValueMode::Paged) => Ok(
                ShHeadValue::Paged { first_page: payload(w0), last_page: w1 },
            ),
        }
    }

    /// Reads the 16-byte form.
    pub fn decode(buf: &[u8]) -> (r: Result<Self, StoreError>)
        ensures
            buf@.len() < 16 ==> r == Err::<Self, StoreError>(
                StoreError::Corrupt("short scripthash head value"),
            ),
            buf@.len() >= 16 ==> r == Self::from_words(u64_at(buf@, 0), u64_at(buf@, 8)),
    {
        if buf.len() < SH_HEAD_VALUE_LEN {
            return Err(StoreError::Corrupt("short scripthash head value"));
        }
        let w0: u64 = get_u64(buf, 0);
        let w1: u64 = get_u64(buf, 8);
        let mode = match sh_head_value_mode(w0, w1) {
            Ok(m) => m,
            Err(e) => return Err(e),
        };
        match mode {
            ShHeadValueMode::Empty => Ok(ShHeadValue::Empty),
            ShHeadValueMode::Inline => {
                let e0 = ShEntry::new(Fk(sh_word_payload(w0)));
                if sh_word_payload(w1) == 0 {
                    return Ok(ShHeadValue::inline_one(e0));
                }
                let e1 = ShEntry::new(Fk(sh_word_payload(w1)));
                Ok(ShHeadValue::inline_two(e0, e1))
            },
            ShHeadValueMode::Slab => {
                match crate::scripthash_pages::decode_slab_words(w0, w1) {
                    Ok((class, used, off)) => Ok(ShHeadValue::Slab { class, used, off }),
                    Err(e) => Err(e),
                }
            },
            ShHeadValueMode::Paged => Ok(
                ShHeadValue::Paged {
                    first_page: sh_word_payload(w0),
                    last_page: sh_word_payload(w1),
                },
            ),
        }
    }

    pub fn inline_one(e: ShEntry) -> (r: Self)
        ensures
            r == (ShHeadValue::Inline { entries: [e, ShEntry { create_tx_fk: Fk(0) }], used: 1 }),
    {
        ShHeadValue::Inline { entries: [e, ShEntry { create_tx_fk: Fk(0) }], used: 1 }
    }

    pub fn inline_two(e0: ShEntry, e1: ShEntry) -> (r: Self)
        ensures
            r == (ShHeadValue::Inline { entries: [e0, e1], used: 2 }),
    {
        ShHeadValue::Inline { entries: [e0, e1], used: 2 }
    }

    pub fn paged(first_page: u64, last_page: u64) -> (r: Self)
        ensures
            r == (ShHeadValue::Paged { first_page, last_page }),
    {
        ShHeadValue::Paged { first_page, last_page }
    }

    pub fn slab(class: u8, used: u16, off: u64) -> (r: Self)
        ensures
            r == (ShHeadValue::Slab { class, used, off }),
    {
        ShHeadValue::Slab { class, used, off }
    }

    pub fn extent(last_page: u64) -> (r: Self)
        ensures
            r == (ShHeadValue::Extent { last_page }),
    {
        ShHeadValue::Extent { last_page }
    }

    /// Live entries of an inline value, oldest first.
    pub fn inline_entries(&self) -> (r: Vec<ShEntry>)
        requires
            self matches ShHeadValue::Inline { used, .. } ==> used <= 2,
        ensures
            r@ == self.inline_seq(),
    {
        let mut v: Vec<ShEntry> = Vec::new();
        match self {
            ShHeadValue::Inline { entries, used } => {
                if *used >= 1 {
                    v.push(entries[0]);
                }
                if *used >= 2 {
                    v.push(entries[1]);
                }
            },
            _ => {},
        }
        proof {
            assert(v@ =~= self.inline_seq());
        }
        v
    }

    /// All create keys of an inline value (a page chain needs the body).
    pub fn inline_fks(&self) -> (r: Vec<Fk>)
        requires
            self matches ShHeadValue::Inline { used, .. } ==> used <= 2,
        ensures
            r@ == entry_fks(self.inline_seq()),
    {
        let ents = self.inline_entries();
        entries_to_fks(&ents)
    }
}

/// A value that was written reads back with the same kind, keys and offsets.
pub proof fn law_head_value_roundtrip(v: ShHeadValue)
    requires
        v.encodable(),
        v matches ShHeadValue::Inline { entries, used } ==> 1 <= used <= 2
            && entries@[0].create_tx_fk.0 > 0 && (used == 2 ==> entries@[1].create_tx_fk.0 > 0),
    ensures
        ({
            let b = two_words(v.words().0, v.words().1);
            let back = ShHeadValue::from_words(u64_at(b, 0), u64_at(b, 8));
            &&& back is Ok
            &&& match v {
                ShHeadValue::Inline { used, .. } => back->Ok_0 matches ShHeadValue::Inline {
                    used: u2,
                    ..
                } && u2 == used && back->Ok_0.inline_seq() == v.inline_seq(),
                _ => back->Ok_0 == v,
            }
        }),
{
    crate::scripthash_pages::lemma_two_words(v.words().0, v.words().1);
    match v {
        ShHeadValue::Slab { class, used, off } => {
            crate::scripthash_pages::law_slab_head_roundtrip(class, used, off);
        },
        ShHeadValue::Inline { entries, used } => {
            let back = ShHeadValue::from_words(v.words().0, v.words().1);
            assert(back->Ok_0.inline_seq() =~= v.inline_seq());
        },
        _ => {},
    }
}

/// The keys of a list of entries.
pub fn entries_to_fks(ents: &[ShEntry]) -> (r: Vec<Fk>)
    ensures
        r@ == entry_fks(ents@),
{
    let mut v: Vec<Fk> = Vec::new();
    let mut i: usize = 0;
    while i < ents.len()
        invariant
            i <= ents@.len(),
            v@ =~= entry_fks(ents@.subrange(0, i as int)),
        decreases ents@.len() - i,
    {
        v.push(ents[i].create_tx_fk);
        i += 1;
        proof {
            assert(v@ =~= entry_fks(ents@.subrange(0, i as int)));
        }
    }
    proof {
        assert(ents@.subrange(0, ents@.len() as int) =~= ents@);
    }
    v
}

/// The entries of a list of keys.
pub fn fks_to_entries(fks: &[Fk]) -> (r: Vec<ShEntry>)
    ensures
        entry_fks(r@) == fks@,
        r@.len() == fks@.len(),
{
    let mut v: Vec<ShEntry> = Vec::new();
    let mut i: usize = 0;
    while i < fks.len()
        invariant
            i <= fks@.len(),
            v@.len() == i,
            forall|j: int| 0 <= j < i ==> (#[trigger] v@[j]).create_tx_fk == fks@[j],
        decreases fks@.len() - i,
    {
        v.push(ShEntry::new(fks[i]));
        i += 1;
    }
    proof {
        assert(entry_fks(v@) =~= fks@);
    }
    v
}

/// Offset of the payload: right after the prefix page.
pub fn payload_start(_file_header_len: usize) -> (r: u64)
    ensures
        r == 4096,
{
    SH_PREFIX_PAGE as u64
}

} // verus!
