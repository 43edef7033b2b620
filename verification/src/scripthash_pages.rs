//! Scripthash page chains and the two-word head values.
//!
//! A head value is two little-endian words; bit 63 of each is a flag:
//!
//! | mode   | `w0`                | `w1`                             |
//! |--------|---------------------|----------------------------------|
//! | empty  | 0                   | 0                                |
//! | inline | first key           | second key or 0                  |
//! | paged  | flag, first page    | last page                        |
//! | slab   | flag, body offset   | flag, `used`, `class` at bit 16  |
//!
//! A page is 4096 bytes: offset of the next page (8), number of keys (2),
//! version (1), five reserved bytes, then the key stream. The last page of an
//! extent chain has version 2 and holds, before its stream, where the
//! contiguous run of pages starts (8) and how many pages it has (4).

use vstd::prelude::*;
use crate::bytes::{get_u16, get_u32, get_u64, le16, le32, le64, lemma_le_nat_of_seq, lemma_le_seq_len, lemma_p256_values, overlay, push_slice, push_u16, push_u32, push_u64, push_zeros, put_in_array, u16_at, u32_at, u64_at, u64_to_array};
use crate::compact::{law_uleb_roundtrip, lemma_uleb_len_u64, read_uleb128_at, uleb, uleb128_len, write_uleb128};
use crate::error::StoreError;
use crate::primitives::Fk;
use crate::scripthash_layout::{entries_to_fks, entry_fks, fks_to_entries, ShEntry};
use crate::scripthash_slabs::{decode_fk_delta_stream_at, encode_fk_delta_stream, fk_stream, fk_unstream, fks_ok, law_fk_stream_roundtrip, lemma_skip_fail, lemma_stream_fault_iff, lemma_unstream_ok, lemma_unstream_prefix, stream_fault, uleb_skip};

verus! {

/// Page size.
pub const SH_PAGE_SIZE: usize = 4096;

/// Bytes before the stream of a plain page.
pub const SH_PAGE_HEADER_LEN: usize = 16;

/// Bytes before the stream of the last page of an extent.
pub const SH_PAGE_EXTENT_HEADER_LEN: usize = 32;

/// Keys of a page at eight bytes each.
pub const SH_PAGE_FK_CAP: usize = 510;

/// Bit 63: the mode flag of a head word.
pub const SH_FLAG_BIT: u64 = 0x8000_0000_0000_0000;

/// Payload bits of a word.
pub const SH_PAYLOAD_MASK: u64 = 0x7fff_ffff_ffff_ffff;

/// Offset of the next-page word.
pub const SH_PAGE_OFF_NEXT: usize = 0;

/// Offset of the key count.
pub const SH_PAGE_OFF_N_FKS: usize = 8;

/// Offset of the version byte.
pub const SH_PAGE_OFF_VER: usize = 10;

/// Version of a plain page.
pub const SH_PAGE_DELTA_VER: u8 = 1;

/// Version of the last page of an extent.
pub const SH_PAGE_EXTENT_VER: u8 = 2;

/// Stream bytes of a plain page.
pub const SH_PAGE_STREAM_MAX: usize = SH_PAGE_SIZE - SH_PAGE_HEADER_LEN;

/// Stream bytes of the last page of an extent.
pub const SH_PAGE_EXTENT_STREAM_MAX: usize = SH_PAGE_SIZE - SH_PAGE_EXTENT_HEADER_LEN;

/// Offset of the stream of a plain page.
pub const SH_PAGE_OFF_FKS: usize = SH_PAGE_HEADER_LEN;

/// Offset of the extent base in a version 2 page.
pub const SH_PAGE_OFF_BASE: usize = 16;

/// Offset of the extent page count in a version 2 page.
pub const SH_PAGE_OFF_N_PAGES: usize = 24;

/// Reads a slice as a page if its length is that of a page.
///
/// Calls `<&[u8; N] as TryFrom<&[u8]>>::try_from`, which succeeds exactly if
/// the lengths agree and then refers to the same bytes.
#[verifier::external_body]
fn slice_as_page(buf: &[u8]) -> (r: Option<&[u8; 4096]>)
    ensures
        match r {
            Some(p) => buf@.len() == 4096 && p@ == buf@,
            None => buf@.len() != 4096,
        },
{
    <&[u8; 4096]>::try_from(buf).ok()
}

/// Reads a slice as a page that can be written, if its length is that of a page.
///
/// Calls `<&mut [u8; N] as TryFrom<&mut [u8]>>::try_from`, which succeeds
/// exactly if the lengths agree and then refers to the same bytes.
#[verifier::external_body]
fn slice_as_page_mut(buf: &mut [u8]) -> (r: Option<&mut [u8; 4096]>)
    ensures
        match r {
            Some(p) => old(buf)@.len() == 4096 && p@ == old(buf)@ && final(p)@ == final(buf)@,
            None => old(buf)@.len() != 4096 && final(buf)@ == old(buf)@,
        },
{
    <&mut [u8; 4096]>::try_from(buf).ok()
}

/// Requires a full page.
pub fn sh_page_as_array(buf: &[u8]) -> (r: Result<&[u8; 4096], StoreError>)
    ensures
        match r {
            Ok(p) => buf@.len() == 4096 && p@ == buf@,
            Err(e) => buf@.len() != 4096 && e == StoreError::Corrupt(
                "scripthash page: buffer must be exactly 4096 bytes",
            ),
        },
{
    match slice_as_page(buf) {
        Some(p) => Ok(p),
        None => Err(StoreError::Corrupt("scripthash page: buffer must be exactly 4096 bytes")),
    }
}

/// Requires a full page that can be written.
pub fn sh_page_as_array_mut(buf: &mut [u8]) -> (r: Result<&mut [u8; 4096], StoreError>)
    ensures
        match r {
            Ok(p) => old(buf)@.len() == 4096 && p@ == old(buf)@ && final(p)@ == final(buf)@,
            Err(e) => old(buf)@.len() != 4096 && final(buf)@ == old(buf)@ && e
                == StoreError::Corrupt("scripthash page: buffer must be exactly 4096 bytes"),
        },
{
    match slice_as_page_mut(buf) {
        Some(p) => Ok(p),
        None => Err(StoreError::Corrupt("scripthash page: buffer must be exactly 4096 bytes")),
    }
}

/// Bit 63 is set.
pub open spec fn flagged(w: u64) -> bool {
    w >= 0x8000_0000_0000_0000
}

/// The low 63 bits.
pub open spec fn payload(w: u64) -> u64 {
    if flagged(w) {
        (w - 0x8000_0000_0000_0000) as u64
    } else {
        w
    }
}

/// True if bit 63 is set.
pub fn sh_word_flagged(word: u64) -> (r: bool)
    ensures
        r == flagged(word),
{
    word >= SH_FLAG_BIT
}

/// The low 63 bits.
pub fn sh_word_payload(word: u64) -> (r: u64)
    ensures
        r == payload(word),
        r == word & SH_PAYLOAD_MASK,
{
    proof {
        assert(word & 0x7fff_ffff_ffff_ffff == if word >= 0x8000_0000_0000_0000u64 {
            (word - 0x8000_0000_0000_0000u64) as u64
        } else {
            word
        }) by (bit_vector);
    }
    word & SH_PAYLOAD_MASK
}

/// Packs a payload into a word with bit 63 clear.
pub fn sh_pack_clear(payload: u64) -> (r: Result<u64, StoreError>)
    ensures
        r == (if flagged(payload) {
            Err::<u64, StoreError>(
                StoreError::Corrupt("scripthash: payload must have bit63 clear (fk/offset < 2^63)"),
            )
        } else {
            Ok(payload)
        }),
{
    if payload >= SH_FLAG_BIT {
        return Err(
            StoreError::Corrupt("scripthash: payload must have bit63 clear (fk/offset < 2^63)"),
        );
    }
    Ok(payload)
}

/// Packs a payload with bit 63 set.
pub fn sh_pack_flagged(payload: u64) -> (r: Result<u64, StoreError>)
    ensures
        r == (if flagged(payload) {
            Err::<u64, StoreError>(
                StoreError::Corrupt("scripthash: payload must have bit63 clear before flagging"),
            )
        } else {
            Ok((payload + 0x8000_0000_0000_0000) as u64)
        }),
{
    if payload >= SH_FLAG_BIT {
        return Err(
            StoreError::Corrupt("scripthash: payload must have bit63 clear before flagging"),
        );
    }
    Ok(payload + SH_FLAG_BIT)
}

/// Packing with the flag and stripping it gives the payload back.
pub proof fn law_flag_roundtrip(p: u64)
    requires
        !flagged(p),
    ensures
        flagged((p + 0x8000_0000_0000_0000) as u64),
        payload((p + 0x8000_0000_0000_0000) as u64) == p,
        payload(p) == p,
{
}

/// Mode of a head value.
#[derive(Clone, Copy, Debug, PartialEq, Eq, Structural)]
pub enum ShHeadValueMode {
    Empty,
    /// One or two inline keys.
    Inline,
    /// Page chain: first page in `w0`, last in `w1`.
    Paged,
    /// Slab: offset in `w0`, class and count in `w1`.
    Slab,
}

/// Mode that the two words stand for.
pub open spec fn head_mode(w0: u64, w1: u64) -> Result<ShHeadValueMode, StoreError> {
    if w0 == 0 && w1 == 0 {
        Ok(ShHeadValueMode::Empty)
    } else if flagged(w0) && flagged(w1) {
        if payload(w0) == 0 {
            Err(StoreError::Corrupt("scripthash slab head: null body off"))
        } else {
            Ok(ShHeadValueMode::Slab)
        }
    } else if flagged(w0) {
        if payload(w0) == 0 || w1 == 0 {
            Err(StoreError::Corrupt("scripthash paged head: null first/last page off"))
        } else {
            Ok(ShHeadValueMode::Paged)
        }
    } else if flagged(w1) {
        Err(StoreError::Corrupt("scripthash inline head: w1 must not set flag bit"))
    } else if w0 == 0 {
        Err(StoreError::Corrupt("scripthash inline head: null first fk"))
    } else {
        Ok(ShHeadValueMode::Inline)
    }
}

/// Classifies a head value.
pub fn sh_head_value_mode(w0: u64, w1: u64) -> (r: Result<ShHeadValueMode, StoreError>)
    ensures
        r == head_mode(w0, w1),
{
    if w0 == 0 && w1 == 0 {
        return Ok(ShHeadValueMode::Empty);
    }
    if sh_word_flagged(w0) && sh_word_flagged(w1) {
        if sh_word_payload(w0) == 0 {
            return Err(StoreError::Corrupt("scripthash slab head: null body off"));
        }
        return Ok(ShHeadValueMode::Slab);
    }
    if sh_word_flagged(w0) {
        if sh_word_payload(w0) == 0 || sh_word_payload(w1) == 0 {
            return Err(StoreError::Corrupt("scripthash paged head: null first/last page off"));
        }
        return Ok(ShHeadValueMode::Paged);
    }
    if sh_word_flagged(w1) {
        return Err(StoreError::Corrupt("scripthash inline head: w1 must not set flag bit"));
    }
    if sh_word_payload(w0) == 0 {
        return Err(StoreError::Corrupt("scripthash inline head: null first fk"));
    }
    Ok(ShHeadValueMode::Inline)
}

/// The 16 bytes of two words.
pub open spec fn two_words(w0: u64, w1: u64) -> Seq<u8> {
    le64(w0) + le64(w1)
}

/// Two words read back as they were written.
pub proof fn lemma_two_words(w0: u64, w1: u64)
    ensures
        two_words(w0, w1).len() == 16,
        u64_at(two_words(w0, w1), 0) == w0,
        u64_at(two_words(w0, w1), 8) == w1,
{
    lemma_p256_values();
    lemma_le_nat_of_seq(w0 as nat, 8);
    lemma_le_nat_of_seq(w1 as nat, 8);
    let s = two_words(w0, w1);
    assert(s.subrange(0, 8) =~= le64(w0));
    assert(s.subrange(8, 16) =~= le64(w1));
}

/// The 16 bytes of two words.
pub fn pack_two_words(w0: u64, w1: u64) -> (r: [u8; 16])
    ensures
        r@ == two_words(w0, w1),
{
    let a0 = u64_to_array(w0);
    let a1 = u64_to_array(w1);
    let mut out: [u8; 16] = [0u8; 16];
    proof {
        lemma_le_seq_len(w0 as nat, 8);
        lemma_le_seq_len(w1 as nat, 8);
    }
    put_in_array(&mut out, 0, a0.as_slice());
    put_in_array(&mut out, 8, a1.as_slice());
    proof {
        assert(out@ =~= two_words(w0, w1));
    }
    out
}

/// Why a page-chain head cannot be written.
pub open spec fn paged_head_err(first: u64, last: u64) -> Option<StoreError> {
    if flagged(first) {
        Some(StoreError::Corrupt("scripthash: payload must have bit63 clear before flagging"))
    } else if flagged(last) {
        Some(StoreError::Corrupt("scripthash: payload must have bit63 clear (fk/offset < 2^63)"))
    } else if first == 0 || last == 0 {
        Some(StoreError::Corrupt("scripthash paged head: null page off"))
    } else {
        None
    }
}

/// Writes a page-chain head.
pub fn sh_encode_paged_head(first_page_off: u64, last_page_off: u64) -> (r: Result<
    [u8; 16],
    StoreError,
>)
    ensures
        match r {
            Ok(b) => paged_head_err(first_page_off, last_page_off) is None && b@ == two_words(
                (first_page_off + 0x8000_0000_0000_0000) as u64,
                last_page_off,
            ),
            Err(e) => paged_head_err(first_page_off, last_page_off) == Some(e),
        },
{
    let w0: u64 = match sh_pack_flagged(first_page_off) {
        Ok(w) => w,
        Err(e) => return Err(e),
    };
    let w1: u64 = match sh_pack_clear(last_page_off) {
        Ok(w) => w,
        Err(e) => return Err(e),
    };
    if first_page_off == 0 || last_page_off == 0 {
        return Err(StoreError::Corrupt("scripthash paged head: null page off"));
    }
    Ok(pack_two_words(w0, w1))
}

/// The words of a slab head.
pub open spec fn slab_words(class: u8, used: u16, off: u64) -> (u64, u64) {
    (
        (off + 0x8000_0000_0000_0000) as u64,
        (0x8000_0000_0000_0000 + used + class * 0x1_0000) as u64,
    )
}

/// Why a slab head cannot be written.
pub open spec fn slab_head_err(class: u8, used: u16, off: u64) -> Option<StoreError> {
    if off == 0 {
        Some(StoreError::Corrupt("scripthash slab head: null body off"))
    } else if class > 6 {
        Some(StoreError::Corrupt("scripthash slab head: class overflow"))
    } else if used < 3 {
        Some(StoreError::Corrupt("scripthash slab head: used < 3 (inline)"))
    } else if flagged(off) {
        Some(StoreError::Corrupt("scripthash: payload must have bit63 clear before flagging"))
    } else {
        None
    }
}

/// Writes a slab head.
pub fn sh_encode_slab_head(class: u8, used: u16, off: u64) -> (r: Result<[u8; 16], StoreError>)
    ensures
        match r {
            Ok(b) => slab_head_err(class, used, off) is None && b@ == two_words(
                slab_words(class, used, off).0,
                slab_words(class, used, off).1,
            ),
            Err(e) => slab_head_err(class, used, off) == Some(e),
        },
{
    if off == 0 {
        return Err(StoreError::Corrupt("scripthash slab head: null body off"));
    }
    if class > 6 {
        return Err(StoreError::Corrupt("scripthash slab head: class overflow"));
    }
    if used < 3 {
        return Err(StoreError::Corrupt("scripthash slab head: used < 3 (inline)"));
    }
    let w0: u64 = match sh_pack_flagged(off) {
        Ok(w) => w,
        Err(e) => return Err(e),
    };
    let packed: u64 = used as u64 + class as u64 * 0x1_0000;
    let w1: u64 = match sh_pack_flagged(packed) {
        Ok(w) => w,
        Err(e) => return Err(e),
    };
    Ok(pack_two_words(w0, w1))
}

/// Class, count and offset of a slab head.
pub open spec fn slab_head_dec(w0: u64, w1: u64) -> Result<(u8, u16, u64), StoreError> {
    match head_mode(w0, w1) {
        Err(e) => Err(e),
        Ok(ShHeadValueMode::Slab) => {
            let packed = payload(w1) as int;
            let used = packed % 0x1_0000;
            let class = packed / 0x1_0000;
            if packed >= 0x100_0000 {
                Err(StoreError::Corrupt("scripthash slab head: reserved bits set"))
            } else if class > 6 {
                Err(StoreError::Corrupt("scripthash slab head: class overflow"))
            } else if used < 3 {
                Err(StoreError::Corrupt("scripthash slab head: used < 3 (inline)"))
            } else {
                Ok((class as u8, used as u16, payload(w0)))
            }
        },
        Ok(_) => Err(StoreError::Corrupt("scripthash: expected slab head value")),
    }
}

/// Reads a slab head from its words.
pub fn decode_slab_words(w0: u64, w1: u64) -> (r: Result<(u8, u16, u64), StoreError>)
    ensures
        r == slab_head_dec(w0, w1),
{
    match sh_head_value_mode(w0, w1) {
        Err(e) => Err(e),
        Ok(ShHeadValueMode::Slab) => {
            let off: u64 = sh_word_payload(w0);
            let packed: u64 = sh_word_payload(w1);
            if packed >= 0x100_0000 {
                return Err(StoreError::Corrupt("scripthash slab head: reserved bits set"));
            }
            let used: u16 = (packed % 0x1_0000) as u16;
            let class: u8 = (packed / 0x1_0000) as u8;
            if class > 6 {
                return Err(StoreError::Corrupt("scripthash slab head: class overflow"));
            }
            if used < 3 {
                return Err(StoreError::Corrupt("scripthash slab head: used < 3 (inline)"));
            }
            Ok((class, used, off))
        },
        Ok(_) => Err(StoreError::Corrupt("scripthash: expected slab head value")),
    }
}

/// Reads a slab head.
pub fn sh_decode_slab_head(buf: &[u8; 16]) -> (r: Result<(u8, u16, u64), StoreError>)
    ensures
        r == slab_head_dec(u64_at(buf@, 0), u64_at(buf@, 8)),
{
    let w0: u64 = get_u64(buf.as_slice(), 0);
    let w1: u64 = get_u64(buf.as_slice(), 8);
    decode_slab_words(w0, w1)
}

/// First and last page of a page-chain head.
pub open spec fn paged_head_dec(w0: u64, w1: u64) -> Result<(u64, u64), StoreError> {
    match head_mode(w0, w1) {
        Err(e) => Err(e),
        Ok(ShHeadValueMode::Paged) => Ok((payload(w0), w1)),
        Ok(_) => Err(StoreError::Corrupt("scripthash: expected paged head value")),
    }
}

/// Reads a page-chain head.
pub fn sh_decode_paged_head(buf: &[u8; 16]) -> (r: Result<(u64, u64), StoreError>)
    ensures
        r == paged_head_dec(u64_at(buf@, 0), u64_at(buf@, 8)),
{
    let w0: u64 = get_u64(buf.as_slice(), 0);
    let w1: u64 = get_u64(buf.as_slice(), 8);
    match sh_head_value_mode(w0, w1) {
        Err(e) => Err(e),
        Ok(ShHeadValueMode::Paged) => Ok((sh_word_payload(w0), sh_word_payload(w1))),
        Ok(_) => Err(StoreError::Corrupt("scripthash: expected paged head value")),
    }
}

/// A slab head reads back as it was written.
pub proof fn law_slab_head_roundtrip(class: u8, used: u16, off: u64)
    requires
        slab_head_err(class, used, off) is None,
    ensures
        slab_head_dec(slab_words(class, used, off).0, slab_words(class, used, off).1) == Ok::<
            (u8, u16, u64),
            StoreError,
        >((class, used, off)),
{
    let packed = used + class * 0x1_0000;
    assert(packed % 0x1_0000 == used && packed / 0x1_0000 == class) by (nonlinear_arith)
        requires
            packed == used + class * 0x1_0000,
            0 <= used < 0x1_0000,
    ;
}

/// A page-chain head reads back as it was written.
pub proof fn law_paged_head_roundtrip(first: u64, last: u64)
    requires
        paged_head_err(first, last) is None,
    ensures
        paged_head_dec((first + 0x8000_0000_0000_0000) as u64, last) == Ok::<
            (u64, u64),
            StoreError,
        >((first, last)),
{
}

/// Zero bytes.
pub open spec fn zeros(n: nat) -> Seq<u8> {
    Seq::new(n, |i: int| 0u8)
}

/// Where the stream of a page of version `ver` starts.
pub open spec fn stream_start(ver: u8) -> int {
    if ver == 2 {
        32
    } else {
        16
    }
}

/// Offset of the next page (0 at the end of a chain).
pub open spec fn page_next(p: Seq<u8>) -> Result<u64, StoreError> {
    if flagged(u64_at(p, 0)) {
        Err(StoreError::Corrupt("scripthash page next_off has flag bit set"))
    } else {
        Ok(u64_at(p, 0))
    }
}

/// Number of keys in the page.
pub open spec fn page_n(p: Seq<u8>) -> Result<u16, StoreError> {
    if u16_at(p, 8) > 4080 {
        Err(StoreError::Corrupt("scripthash page n_fks > capacity"))
    } else {
        Ok(u16_at(p, 8))
    }
}

/// Why the page is not a stream page.
pub open spec fn page_fault(p: Seq<u8>) -> Option<StoreError> {
    match page_n(p) {
        Err(e) => Some(e),
        Ok(n) => if p[10] == 1 || p[10] == 2 || (p[10] == 0 && n == 0) {
            None
        } else {
            Some(StoreError::Corrupt("scripthash page leftover raw-u64; rematerialize"))
        },
    }
}

/// The stream bytes of a page.
pub open spec fn page_stream(p: Seq<u8>) -> Seq<u8> {
    p.subrange(stream_start(p[10]), p.len() as int)
}

/// The keys of a page with the length of their stream.
pub open spec fn page_read(p: Seq<u8>) -> Result<(Seq<Fk>, nat), StoreError> {
    match page_fault(p) {
        Some(e) => Err(e),
        None => fk_unstream(page_stream(p), u16_at(p, 8) as nat),
    }
}

/// The keys of a page.
pub open spec fn page_fks(p: Seq<u8>) -> Result<Seq<Fk>, StoreError> {
    match page_read(p) {
        Ok((fks, _)) => Ok(fks),
        Err(e) => Err(e),
    }
}

/// Where the contiguous pages of the chain start and how many they are.
pub open spec fn page_extent(p: Seq<u8>) -> Option<(u64, u32)> {
    if p[10] == 2 {
        Some((u64_at(p, 16), u32_at(p, 24)))
    } else {
        None
    }
}

/// A plain page with `fks` in it.
pub open spec fn page_image(next: u64, fks: Seq<Fk>) -> Seq<u8> {
    le64(next) + le16(fks.len() as u16) + seq![1u8] + zeros(5) + fk_stream(fks) + zeros(
        (4080 - fk_stream(fks).len()) as nat,
    )
}

/// The last page of an extent with `fks` in it.
pub open spec fn extent_image(next: u64, base: u64, n: u32, fks: Seq<Fk>) -> Seq<u8> {
    le64(next) + le16(fks.len() as u16) + seq![2u8] + zeros(5) + le64(base) + le32(n) + zeros(4)
        + fk_stream(fks) + zeros((4064 - fk_stream(fks).len()) as nat)
}

/// A plain page reads back as it was packed.
pub proof fn law_page_image(next: u64, fks: Seq<Fk>)
    requires
        !flagged(next),
        fks_ok(fks),
        fk_stream(fks).len() <= 4080,
    ensures
        page_image(next, fks).len() == 4096,
        page_next(page_image(next, fks)) == Ok::<u64, StoreError>(next),
        page_read(page_image(next, fks)) == Ok::<(Seq<Fk>, nat), StoreError>(
            (fks, fk_stream(fks).len()),
        ),
        page_extent(page_image(next, fks)) is None,
        fks.len() <= 4080,
{
    let p = page_image(next, fks);
    crate::scripthash_slabs::lemma_stream_len(fks);
    let n = fks.len() as u16;
    lemma_p256_values();
    lemma_le_nat_of_seq(next as nat, 8);
    lemma_le_nat_of_seq(n as nat, 2);
    assert(p.subrange(0, 8) =~= le64(next));
    assert(p.subrange(8, 10) =~= le16(n));
    assert(p[10] == 1);
    let pad = zeros((4080 - fk_stream(fks).len()) as nat);
    assert(page_stream(p) =~= fk_stream(fks) + pad);
    law_fk_stream_roundtrip(fks, pad);
}

/// The last page of an extent reads back as it was packed.
pub proof fn law_extent_image(next: u64, base: u64, n: u32, fks: Seq<Fk>)
    requires
        !flagged(next),
        fks_ok(fks),
        fk_stream(fks).len() <= 4064,
    ensures
        extent_image(next, base, n, fks).len() == 4096,
        page_next(extent_image(next, base, n, fks)) == Ok::<u64, StoreError>(next),
        page_read(extent_image(next, base, n, fks)) == Ok::<(Seq<Fk>, nat), StoreError>(
            (fks, fk_stream(fks).len()),
        ),
        page_extent(extent_image(next, base, n, fks)) == Some((base, n)),
        fks.len() <= 4064,
{
    let p = extent_image(next, base, n, fks);
    crate::scripthash_slabs::lemma_stream_len(fks);
    let k = fks.len() as u16;
    lemma_p256_values();
    lemma_le_nat_of_seq(next as nat, 8);
    lemma_le_nat_of_seq(k as nat, 2);
    lemma_le_nat_of_seq(base as nat, 8);
    lemma_le_nat_of_seq(n as nat, 4);
    assert(p.subrange(0, 8) =~= le64(next));
    assert(p.subrange(8, 10) =~= le16(k));
    assert(p[10] == 2);
    assert(p.subrange(16, 24) =~= le64(base));
    assert(p.subrange(24, 28) =~= le32(n));
    let pad = zeros((4064 - fk_stream(fks).len()) as nat);
    assert(page_stream(p) =~= fk_stream(fks) + pad);
    law_fk_stream_roundtrip(fks, pad);
}

/// Empties a page: no keys, no next page.
pub fn sh_page_init_empty(page: &mut [u8; 4096])
    ensures
        final(page)@ == page_image(0, Seq::empty()),
{
    let v = page_header(0, 0, 1);
    let mut v = v;
    push_zeros(&mut v, SH_PAGE_STREAM_MAX);
    proof {
        assert(fk_stream(Seq::<Fk>::empty()) =~= Seq::empty());
        assert(v@ =~= page_image(0, Seq::empty()));
        law_page_image(0, Seq::empty());
    }
    put_in_array(page, 0, v.as_slice());
    proof {
        assert(page@ =~= v@);
    }
}

fn page_header(next: u64, n: u16, ver: u8) -> (r: Vec<u8>)
    ensures
        r@ == le64(next) + le16(n) + seq![ver] + zeros(5),
        r@.len() == 16,
{
    let mut v: Vec<u8> = Vec::new();
    push_u64(&mut v, next);
    push_u16(&mut v, n);
    v.push(ver);
    push_zeros(&mut v, 5);
    proof {
        lemma_le_seq_len(next as nat, 8);
        lemma_le_seq_len(n as nat, 2);
        assert(v@ =~= le64(next) + le16(n) + seq![ver] + zeros(5));
    }
    v
}

/// Reads the offset of the next page (0 at the end).
pub fn sh_page_next(page: &[u8; 4096]) -> (r: Result<u64, StoreError>)
    ensures
        r == page_next(page@),
{
    let next: u64 = get_u64(page.as_slice(), SH_PAGE_OFF_NEXT);
    if next >= SH_FLAG_BIT {
        return Err(StoreError::Corrupt("scripthash page next_off has flag bit set"));
    }
    Ok(next)
}

/// The page with another next offset.
pub open spec fn with_next(p: Seq<u8>, next: u64) -> Seq<u8> {
    overlay(p, 0, le64(next))
}

/// Only the next offset changes.
pub proof fn lemma_with_next(p: Seq<u8>, next: u64)
    requires
        p.len() == 4096,
        !flagged(next),
    ensures
        with_next(p, next).len() == 4096,
        page_next(with_next(p, next)) == Ok::<u64, StoreError>(next),
        page_read(with_next(p, next)) == page_read(p),
        page_extent(with_next(p, next)) == page_extent(p),
{
    let q = with_next(p, next);
    lemma_p256_values();
    lemma_le_nat_of_seq(next as nat, 8);
    assert(q.subrange(0, 8) =~= le64(next));
    assert(q.subrange(8, 10) =~= p.subrange(8, 10));
    assert(q.subrange(16, 24) =~= p.subrange(16, 24));
    assert(q.subrange(24, 28) =~= p.subrange(24, 28));
    assert(q[10] == p[10]);
    assert(page_stream(q) =~= page_stream(p));
}

/// Sets the offset of the next page (bit 63 must be clear).
pub fn sh_page_set_next(page: &mut [u8; 4096], next_off: u64) -> (r: Result<(), StoreError>)
    ensures
        if flagged(next_off) {
            r == Err::<(), StoreError>(
                StoreError::Corrupt("scripthash: payload must have bit63 clear (fk/offset < 2^63)"),
            ) && final(page)@ == old(page)@
        } else {
            r == Ok::<(), StoreError>(()) && final(page)@ == with_next(old(page)@, next_off)
        },
{
    let w: u64 = match sh_pack_clear(next_off) {
        Ok(w) => w,
        Err(e) => return Err(e),
    };
    let a = u64_to_array(w);
    proof {
        lemma_le_seq_len(w as nat, 8);
    }
    put_in_array(page, SH_PAGE_OFF_NEXT, a.as_slice());
    Ok(())
}

/// Number of keys stored in the page.
pub fn sh_page_n_fks(page: &[u8; 4096]) -> (r: Result<u16, StoreError>)
    ensures
        r == page_n(page@),
{
    let n: u16 = get_u16(page.as_slice(), SH_PAGE_OFF_N_FKS);
    if n as usize > SH_PAGE_STREAM_MAX {
        return Err(StoreError::Corrupt("scripthash page n_fks > capacity"));
    }
    Ok(n)
}

fn sh_page_require_delta(page: &[u8; 4096]) -> (r: Result<u16, StoreError>)
    ensures
        match r {
            Ok(n) => page_fault(page@) is None && n == u16_at(page@, 8),
            Err(e) => page_fault(page@) == Some(e),
        },
{
    let ver: u8 = page[SH_PAGE_OFF_VER];
    let n: u16 = match sh_page_n_fks(page) {
        Ok(n) => n,
        Err(e) => return Err(e),
    };
    if ver == SH_PAGE_DELTA_VER || ver == SH_PAGE_EXTENT_VER {
        return Ok(n);
    }
    if ver == 0 && n == 0 {
        return Ok(n);
    }
    Err(StoreError::Corrupt("scripthash page leftover raw-u64; rematerialize"))
}

fn stream_off(page: &[u8; 4096]) -> (r: usize)
    ensures
        r == stream_start(page@[10]),
{
    if page[SH_PAGE_OFF_VER] == SH_PAGE_EXTENT_VER {
        SH_PAGE_EXTENT_HEADER_LEN
    } else {
        SH_PAGE_HEADER_LEN
    }
}

/// Keys of the page and the length of their stream.
fn read_page(page: &[u8; 4096]) -> (r: Result<(Vec<Fk>, usize), StoreError>)
    ensures
        match (r, page_read(page@)) {
            (Ok((v, used)), Ok((fks, off))) => v@ == fks && used == off,
            (Err(e), Err(f)) => e == f,
            _ => false,
        },
{
    let n: u16 = match sh_page_require_delta(page) {
        Ok(n) => n,
        Err(e) => return Err(e),
    };
    let off: usize = stream_off(page);
    decode_fk_delta_stream_at(page.as_slice(), off, n as usize)
}

/// Entries of the page, strictly increasing.
pub fn sh_page_entries(page: &[u8; 4096]) -> (r: Result<Vec<ShEntry>, StoreError>)
    ensures
        match (r, page_fks(page@)) {
            (Ok(v), Ok(fks)) => entry_fks(v@) == fks,
            (Err(e), Err(f)) => e == f,
            _ => false,
        },
{
    match read_page(page) {
        Ok((fks, _)) => Ok(fks_to_entries(&fks)),
        Err(e) => Err(e),
    }
}

/// Last key of the page (`None` if it is empty).
pub open spec fn page_last(p: Seq<u8>) -> Result<Option<Fk>, StoreError> {
    match page_fks(p) {
        Err(e) => Err(e),
        Ok(fks) => Ok(
            if fks.len() == 0 {
                None
            } else {
                Some(fks.last())
            },
        ),
    }
}

/// Last key of the page (`None` if it is empty).
pub fn sh_page_last_fk(page: &[u8; 4096]) -> (r: Result<Option<Fk>, StoreError>)
    ensures
        r == page_last(page@),
{
    match read_page(page) {
        Ok((fks, _)) => {
            if fks.len() == 0 {
                Ok(None)
            } else {
                Ok(Some(fks[fks.len() - 1]))
            }
        },
        Err(e) => Err(e),
    }
}

/// Next offset and entries of a page in any slice.
pub fn sh_page_decode_slice(buf: &[u8]) -> (r: Result<(u64, Vec<ShEntry>), StoreError>)
    ensures
        buf@.len() != 4096 ==> r == Err::<(u64, Vec<ShEntry>), StoreError>(
            StoreError::Corrupt("scripthash page: buffer must be exactly 4096 bytes"),
        ),
        buf@.len() == 4096 ==> match (r, page_next(buf@), page_fks(buf@)) {
            (Ok((next, v)), Ok(n), Ok(fks)) => next == n && entry_fks(v@) == fks,
            (Err(e), Err(f), _) => e == f,
            (Err(e), Ok(_), Err(f)) => e == f,
            _ => false,
        },
{
    let page = match sh_page_as_array(buf) {
        Ok(p) => p,
        Err(e) => return Err(e),
    };
    let next: u64 = match sh_page_next(page) {
        Ok(n) => n,
        Err(e) => return Err(e),
    };
    match sh_page_entries(page) {
        Ok(v) => Ok((next, v)),
        Err(e) => Err(e),
    }
}

/// Where the contiguous pages of the chain start and how many they are.
pub fn sh_page_extent(page: &[u8; 4096]) -> (r: Option<(u64, u32)>)
    ensures
        r == page_extent(page@),
{
    if page[SH_PAGE_OFF_VER] == SH_PAGE_EXTENT_VER {
        Some(
            (
                get_u64(page.as_slice(), SH_PAGE_OFF_BASE),
                get_u32(page.as_slice(), SH_PAGE_OFF_N_PAGES),
            ),
        )
    } else {
        None
    }
}

/// Bytes that `fks[s..e]` take as one stream.
pub open spec fn chunk_size(fks: Seq<Fk>, s: int, e: int) -> nat
    decreases e - s,
{
    if e <= s {
        0
    } else if e == s + 1 {
        uleb(fks[s].0 as nat).len()
    } else {
        chunk_size(fks, s, e - 1) + uleb(
            (if fks[e - 1].0 >= fks[e - 2].0 {
                fks[e - 1].0 - fks[e - 2].0
            } else {
                0
            }) as nat,
        ).len()
    }
}

/// Cuts of `n` keys into pages: consecutive, non-empty, each as long as fits.
pub open spec fn is_chunking(fks: Seq<Fk>, cuts: Seq<(usize, usize)>, n: int) -> bool {
    &&& n == 0 ==> cuts.len() == 0
    &&& n > 0 ==> cuts.len() > 0 && cuts[0].0 == 0 && cuts.last().1 == n
    &&& forall|i: int|
        0 <= i < cuts.len() ==> (#[trigger] cuts[i]).0 < cuts[i].1 && chunk_size(
            fks,
            cuts[i].0 as int,
            cuts[i].1 as int,
        ) <= 4080
    &&& forall|i: int, j: int|
        0 <= i && j == i + 1 && j < cuts.len() ==> (#[trigger] cuts[i]).1 == (#[trigger] cuts[j]).0
            && chunk_size(fks, cuts[i].0 as int, cuts[i].1 + 1) > 4080
}

/// Splits keys into page-sized chunks.
pub fn sh_page_chunk_ranges(fks: &[Fk]) -> (r: Result<Vec<(usize, usize)>, StoreError>)
    ensures
        r is Ok,
        is_chunking(fks@, r->Ok_0@, fks@.len() as int),
{
    let mut out: Vec<(usize, usize)> = Vec::new();
    if fks.len() == 0 {
        return Ok(out);
    }
    let mut start: usize = 0;
    let mut used: usize = uleb128_len(fks[0].0);
    let mut i: usize = 1;
    while i < fks.len()
        invariant
            1 <= i <= fks@.len(),
            start < i,
            used == chunk_size(fks@, start as int, i as int),
            used <= 4080,
            out@.len() > 0 ==> out@[0].0 == 0 && out@.last().1 == start && chunk_size(
                fks@,
                out@.last().0 as int,
                start + 1,
            ) > 4080,
            out@.len() == 0 ==> start == 0,
            forall|k: int|
                0 <= k < out@.len() ==> (#[trigger] out@[k]).0 < out@[k].1 && chunk_size(
                    fks@,
                    out@[k].0 as int,
                    out@[k].1 as int,
                ) <= 4080,
            forall|k: int, j: int|
                0 <= k && j == k + 1 && j < out@.len() ==> (#[trigger] out@[k]).1 == (
                #[trigger] out@[j]).0 && chunk_size(fks@, out@[k].0 as int, out@[k].1 + 1) > 4080,
        decreases fks@.len() - i,
    {
        let d: u64 = if fks[i].0 >= fks[i - 1].0 {
            fks[i].0 - fks[i - 1].0
        } else {
            0
        };
        let step: usize = uleb128_len(d);
        if used + step > SH_PAGE_STREAM_MAX {
            out.push((start, i));
            start = i;
            used = uleb128_len(fks[i].0);
        } else {
            used += step;
        }
        i += 1;
    }
    out.push((start, fks.len()));
    Ok(out)
}

/// For a valid list a chunk takes as much room as its stream.
pub proof fn lemma_chunk_is_stream(fks: Seq<Fk>, s: int, e: int)
    requires
        fks_ok(fks),
        0 <= s <= e <= fks.len(),
    ensures
        chunk_size(fks, s, e) == fk_stream(fks.subrange(s, e)).len(),
        fks_ok(fks.subrange(s, e)),
    decreases e - s,
{
    let c = fks.subrange(s, e);
    if e > s {
        assert(c[0] == fks[s]);
        assert(fks[0].0 <= fks[s].0);
    }
    if e > s + 1 {
        lemma_chunk_is_stream(fks, s, e - 1);
        assert(c.drop_last() =~= fks.subrange(s, e - 1));
        assert(fks[e - 2].0 < fks[e - 1].0);
    }
}

/// Cuts of a valid list into the pages of an extent: consecutive, non-empty,
/// each within its page, the last within the smaller room of the last page.
pub open spec fn is_extent_cut(fks: Seq<Fk>, cuts: Seq<(usize, usize)>) -> bool {
    &&& 0 < cuts.len() <= fks.len()
    &&& cuts[0].0 == 0
    &&& cuts.last().1 == fks.len()
    &&& forall|i: int|
        0 <= i < cuts.len() ==> (#[trigger] cuts[i]).0 < cuts[i].1 <= fks.len() && fk_stream(
            fks.subrange(cuts[i].0 as int, cuts[i].1 as int),
        ).len() <= (if i + 1 == cuts.len() {
            4064int
        } else {
            4080int
        }) && fks_ok(fks.subrange(cuts[i].0 as int, cuts[i].1 as int))
    &&& forall|i: int, j: int|
        0 <= i && j == i + 1 && j < cuts.len() ==> (#[trigger] cuts[i]).1 == (#[trigger] cuts[j]).0
}

proof fn lemma_cuts_increase(cuts: Seq<(usize, usize)>, i: int)
    requires
        forall|k: int| 0 <= k < cuts.len() ==> (#[trigger] cuts[k]).0 < cuts[k].1,
        forall|k: int, j: int|
            0 <= k && j == k + 1 && j < cuts.len() ==> (#[trigger] cuts[k]).1 == (
            #[trigger] cuts[j]).0,
        0 <= i < cuts.len(),
    ensures
        i < cuts[i].1 <= cuts.last().1,
    decreases cuts.len() - i, i,
{
    if i > 0 {
        lemma_cuts_low(cuts, i);
    }
    if i + 1 < cuts.len() {
        lemma_cuts_increase(cuts, i + 1);
    }
}

proof fn lemma_cuts_low(cuts: Seq<(usize, usize)>, i: int)
    requires
        forall|k: int| 0 <= k < cuts.len() ==> (#[trigger] cuts[k]).0 < cuts[k].1,
        forall|k: int, j: int|
            0 <= k && j == k + 1 && j < cuts.len() ==> (#[trigger] cuts[k]).1 == (
            #[trigger] cuts[j]).0,
        0 <= i < cuts.len(),
    ensures
        i < cuts[i].1,
    decreases i,
{
    if i > 0 {
        lemma_cuts_low(cuts, i - 1);
        assert(cuts[i - 1].1 == cuts[i].0);
    }
}

/// Every chunk of a valid list is a valid list within a page.
proof fn lemma_chunking_bounds(fks: Seq<Fk>, c0: Seq<(usize, usize)>, i: int)
    requires
        fks_ok(fks),
        fks.len() > 0,
        is_chunking(fks, c0, fks.len() as int),
        0 <= i < c0.len(),
    ensures
        c0[i].0 < c0[i].1 <= fks.len(),
        fk_stream(fks.subrange(c0[i].0 as int, c0[i].1 as int)).len() <= 4080,
        fks_ok(fks.subrange(c0[i].0 as int, c0[i].1 as int)),
        i < c0[i].1,
{
    lemma_cuts_increase(c0, i);
    lemma_chunk_is_stream(fks, c0[i].0 as int, c0[i].1 as int);
}

proof fn lemma_extent_keep(fks: Seq<Fk>, c0: Seq<(usize, usize)>)
    requires
        fks_ok(fks),
        fks.len() > 0,
        is_chunking(fks, c0, fks.len() as int),
        fk_stream(fks.subrange(c0.last().0 as int, c0.last().1 as int)).len() <= 4064,
    ensures
        is_extent_cut(fks, c0),
{
    assert forall|i: int| 0 <= i < c0.len() implies (#[trigger] c0[i]).0 < c0[i].1 <= fks.len()
        && fk_stream(fks.subrange(c0[i].0 as int, c0[i].1 as int)).len() <= (if i + 1 == c0.len() {
        4064int
    } else {
        4080int
    }) && fks_ok(fks.subrange(c0[i].0 as int, c0[i].1 as int)) by {
        lemma_chunking_bounds(fks, c0, i);
    }
    lemma_chunking_bounds(fks, c0, c0.len() - 1);
}

proof fn lemma_extent_split(fks: Seq<Fk>, c0: Seq<(usize, usize)>)
    requires
        fks_ok(fks),
        fks.len() > 0,
        is_chunking(fks, c0, fks.len() as int),
        fk_stream(fks.subrange(c0.last().0 as int, c0.last().1 as int)).len() > 4064,
    ensures
        ({
            let (s, e) = c0.last();
            &&& s + 1 < e
            &&& is_extent_cut(
                fks,
                c0.update(c0.len() - 1, (s, (e - 1) as usize)).push(((e - 1) as usize, e)),
            )
        }),
{
    let m = c0.len() as int;
    let (s, e) = c0.last();
    lemma_chunking_bounds(fks, c0, m - 1);
    lemma_chunk_is_stream(fks, s as int, e as int);
    if e == s + 1 {
        lemma_uleb_len_u64(fks[s as int].0);
    }
    lemma_chunk_is_stream(fks, s as int, e - 1);
    lemma_chunk_is_stream(fks, e - 1, e as int);
    lemma_uleb_len_u64(fks[e - 1].0);
    lemma_chunk_mono(fks, s as int, e - 1, e as int);
    let c = c0.update(m - 1, (s, (e - 1) as usize)).push(((e - 1) as usize, e));
    assert forall|i: int, j: int| 0 <= i && j == i + 1 && j < c.len() implies (#[trigger] c[i]).1
        == (#[trigger] c[j]).0 by {
        if i < m - 1 {
            assert(c0[i].1 == c0[j].0);
        }
    }
    assert forall|i: int| 0 <= i < c.len() implies (#[trigger] c[i]).0 < c[i].1 <= fks.len()
        && fk_stream(fks.subrange(c[i].0 as int, c[i].1 as int)).len() <= (if i + 1 == c.len() {
        4064int
    } else {
        4080int
    }) && fks_ok(fks.subrange(c[i].0 as int, c[i].1 as int)) by {
        if i < m - 1 {
            assert(c[i] == c0[i]);
            lemma_chunking_bounds(fks, c0, i);
        }
    }
    lemma_cuts_low(c, c.len() - 1);
    if m > 1 {
        assert(c[0] == c0[0]);
    }
}

/// Length of `fks[s..e]` as one stream.
fn chunk_len(fks: &[Fk], s: usize, e: usize) -> (r: usize)
    requires
        fks_ok(fks@),
        s < e <= fks@.len(),
        chunk_size(fks@, s as int, e as int) <= 4080,
    ensures
        r == chunk_size(fks@, s as int, e as int),
{
    let mut used: usize = uleb128_len(fks[s].0);
    let mut i: usize = s + 1;
    while i < e
        invariant
            s < i <= e <= fks@.len(),
            fks_ok(fks@),
            used == chunk_size(fks@, s as int, i as int),
            used <= 4080 || i == s + 1,
            used <= 4090,
            chunk_size(fks@, s as int, e as int) <= 4080,
        decreases e - i,
    {
        assert(fks@[i - 1].0 < fks@[i as int].0);
        let step: usize = uleb128_len(fks[i].0 - fks[i - 1].0);
        proof {
            lemma_chunk_mono(fks@, s as int, i as int, e as int);
            lemma_chunk_mono(fks@, s as int, i + 1, e as int);
        }
        used += step;
        i += 1;
    }
    used
}

/// Splits keys into the pages of an extent. A last page that would not leave
/// room for the extent fields gives its last key to a page of its own.
pub fn sh_extent_chunk_ranges(fks: &[Fk]) -> (r: Vec<(usize, usize)>)
    requires
        fks@.len() > 0,
        fks_ok(fks@),
    ensures
        is_extent_cut(fks@, r@),
        fk_stream(fks@).len() <= 4080 ==> r@.len() <= 2,
{
    let mut cuts = match sh_page_chunk_ranges(fks) {
        Ok(c) => c,
        Err(_) => Vec::new(),
    };
    let ghost c0 = cuts@;
    let m: usize = cuts.len();
    let (s, e) = cuts[m - 1];
    proof {
        lemma_chunking_bounds(fks@, c0, m - 1);
        lemma_chunk_is_stream(fks@, s as int, e as int);
        if fk_stream(fks@).len() <= 4080 && m > 1 {
            lemma_chunking_bounds(fks@, c0, 0);
            lemma_chunking_bounds(fks@, c0, 1);
            assert(c0[0].1 == c0[1].0);
            lemma_chunk_mono(fks@, 0, c0[0].1 + 1, fks@.len() as int);
            lemma_chunk_is_stream(fks@, 0, fks@.len() as int);
            assert(fks@.subrange(0, fks@.len() as int) =~= fks@);
        }
    }
    if chunk_len(fks, s, e) > SH_PAGE_EXTENT_STREAM_MAX {
        proof {
            lemma_extent_split(fks@, c0);
        }
        cuts.set(m - 1, (s, e - 1));
        cuts.push((e - 1, e));
    } else {
        proof {
            lemma_extent_keep(fks@, c0);
        }
    }
    cuts
}

proof fn lemma_chunk_mono(fks: Seq<Fk>, s: int, i: int, e: int)
    requires
        fks_ok(fks),
        0 <= s <= i <= e <= fks.len(),
    ensures
        chunk_size(fks, s, i) <= chunk_size(fks, s, e),
    decreases e - i,
{
    if i < e {
        lemma_chunk_mono(fks, s, i, e - 1);
    }
}

/// Why `fks` cannot be packed into one page with `room` stream bytes.
pub open spec fn pack_err(fks: Seq<Fk>, next: u64, room: int) -> Option<StoreError> {
    if !fks_ok(fks) {
        stream_fault(fks)
    } else if fk_stream(fks).len() > room {
        Some(StoreError::Corrupt("scripthash page pack: entries exceed page capacity"))
    } else if flagged(next) {
        Some(StoreError::Corrupt("scripthash: payload must have bit63 clear (fk/offset < 2^63)"))
    } else {
        None
    }
}

/// Packs strictly increasing entries into a fresh page with its next offset.
///
/// A page that could not be packed is left as it was, unless only the next
/// offset was refused: then it is empty.
pub fn sh_page_pack(page: &mut [u8; 4096], entries: &[ShEntry], next_off: u64) -> (r: Result<
    (),
    StoreError,
>)
    ensures
        match r {
            Ok(_) => pack_err(entry_fks(entries@), next_off, 4080) is None && final(page)@
                == page_image(next_off, entry_fks(entries@)),
            Err(e) => {
                &&& pack_err(entry_fks(entries@), next_off, 4080) == Some(e)
                &&& final(page)@ == if pack_err(entry_fks(entries@), 0, 4080) is None {
                    page_image(0, Seq::empty())
                } else {
                    old(page)@
                }
            },
        },
{
    let fks = entries_to_fks(entries);
    proof {
        lemma_stream_fault_iff(fks@);
    }
    let stream = match encode_fk_delta_stream(&fks) {
        Ok(s) => s,
        Err(e) => return Err(e),
    };
    if stream.len() > SH_PAGE_STREAM_MAX {
        return Err(StoreError::Corrupt("scripthash page pack: entries exceed page capacity"));
    }
    sh_page_init_empty(page);
    if next_off >= SH_FLAG_BIT {
        return Err(
            StoreError::Corrupt("scripthash: payload must have bit63 clear (fk/offset < 2^63)"),
        );
    }
    proof {
        law_page_image(next_off, fks@);
    }
    let mut v = page_header(next_off, fks.len() as u16, SH_PAGE_DELTA_VER);
    push_slice(&mut v, stream.as_slice());
    push_zeros(&mut v, SH_PAGE_STREAM_MAX - stream.len());
    proof {
        assert(v@ =~= page_image(next_off, fks@));
    }
    put_in_array(page, 0, v.as_slice());
    proof {
        assert(page@ =~= v@);
    }
    Ok(())
}

/// Packs strictly increasing entries into a fresh last page of an extent.
pub fn sh_page_pack_extent_last(
    page: &mut [u8; 4096],
    entries: &[ShEntry],
    base: u64,
    n_pages: u32,
    next_off: u64,
) -> (r: Result<(), StoreError>)
    ensures
        match r {
            Ok(_) => pack_err(entry_fks(entries@), next_off, 4064) is None && final(page)@
                == extent_image(next_off, base, n_pages, entry_fks(entries@)),
            Err(e) => pack_err(entry_fks(entries@), next_off, 4064) == Some(e) && final(page)@
                == old(page)@,
        },
{
    let fks = entries_to_fks(entries);
    proof {
        lemma_stream_fault_iff(fks@);
    }
    let stream = match encode_fk_delta_stream(&fks) {
        Ok(s) => s,
        Err(e) => return Err(e),
    };
    if stream.len() > SH_PAGE_EXTENT_STREAM_MAX {
        return Err(StoreError::Corrupt("scripthash page pack: entries exceed page capacity"));
    }
    if next_off >= SH_FLAG_BIT {
        return Err(
            StoreError::Corrupt("scripthash: payload must have bit63 clear (fk/offset < 2^63)"),
        );
    }
    proof {
        law_extent_image(next_off, base, n_pages, fks@);
    }
    let mut v = page_header(next_off, fks.len() as u16, SH_PAGE_EXTENT_VER);
    push_u64(&mut v, base);
    push_u32(&mut v, n_pages);
    push_zeros(&mut v, 4);
    push_slice(&mut v, stream.as_slice());
    push_zeros(&mut v, SH_PAGE_EXTENT_STREAM_MAX - stream.len());
    proof {
        assert(v@ =~= extent_image(next_off, base, n_pages, fks@));
    }
    put_in_array(page, 0, v.as_slice());
    proof {
        assert(page@ =~= v@);
    }
    Ok(())
}

fn sh_page_stream_used(page: &[u8; 4096], n: usize) -> (r: Result<usize, StoreError>)
    ensures
        match (r, uleb_skip(page_stream(page@), n as nat)) {
            (Ok(u), Ok(v)) => u == v,
            (Err(e), Err(f)) => e == f,
            _ => false,
        },
{
    let start: usize = stream_off(page);
    let ghost s = page_stream(page@);
    let mut off: usize = 0;
    let mut i: usize = 0;
    while i < n
        invariant
            i <= n,
            start == stream_start(page@[10]),
            s == page_stream(page@),
            off <= s.len(),
            uleb_skip(s, i as nat) == Ok::<nat, StoreError>(off as nat),
        decreases n - i,
    {
        proof {
            lemma_skip_fail(s, (i + 1) as nat, n as nat);
            assert(page@.subrange(start + off, page@.len() as int) =~= s.subrange(
                off as int,
                s.len() as int,
            ));
        }
        let used: usize = match read_uleb128_at(page.as_slice(), start + off) {
            Ok((_, used)) => used,
            Err(e) => return Err(e),
        };
        off += used;
        i += 1;
    }
    Ok(off)
}

/// The bytes that adding `fk` behind `fks` takes.
pub open spec fn append_step(fks: Seq<Fk>, fk: Fk) -> Seq<u8> {
    if fks.len() == 0 {
        uleb(fk.0 as nat)
    } else {
        uleb((fk.0 - fks.last().0) as nat)
    }
}

/// Why `fk` cannot be offered to the page.
pub open spec fn append_err(p: Seq<u8>, fk: Fk) -> Option<StoreError> {
    if fk.0 == 0 {
        Some(StoreError::InvalidFk)
    } else if flagged(fk.0) {
        Some(StoreError::Corrupt("scripthash: create_fk must have bit63 clear"))
    } else if page_fault(p) is Some {
        page_fault(p)
    } else {
        match uleb_skip(page_stream(p), u16_at(p, 8) as nat) {
            Err(e) => Some(e),
            Ok(_) => match page_fks(p) {
                Err(e) => Some(e),
                Ok(fks) => if fks.len() > 0 && fk.0 <= fks.last().0 {
                    Some(
                        StoreError::Corrupt(
                            "invariant: scripthash page append create_fk not strictly increasing",
                        ),
                    )
                } else {
                    None
                },
            },
        }
    }
}

/// Whether the page has room for `fk`.
pub open spec fn append_fits(p: Seq<u8>, fk: Fk) -> bool {
    let (fks, used) = page_read(p)->Ok_0;
    used + append_step(fks, fk).len() <= 4096 - stream_start(p[10])
}

/// The page with `fk` added.
pub open spec fn page_appended(p: Seq<u8>, fk: Fk) -> Seq<u8> {
    let (fks, used) = page_read(p)->Ok_0;
    let ver = if p[10] == 2 {
        2u8
    } else {
        1u8
    };
    overlay(
        overlay(
            overlay(p, stream_start(p[10]) + used, append_step(fks, fk)),
            10,
            seq![ver],
        ),
        8,
        le16((fks.len() + 1) as u16),
    )
}

/// Adding a key keeps the others, the next offset and the extent.
pub proof fn law_page_append(p: Seq<u8>, fk: Fk)
    requires
        p.len() == 4096,
        append_err(p, fk) is None,
        append_fits(p, fk),
    ensures
        page_appended(p, fk).len() == 4096,
        page_next(page_appended(p, fk)) == page_next(p),
        page_extent(page_appended(p, fk)) == page_extent(p),
        page_read(page_appended(p, fk)) == ({
            let (fks, used) = page_read(p)->Ok_0;
            Ok::<(Seq<Fk>, nat), StoreError>((fks.push(fk), used + append_step(fks, fk).len()))
        }),
{
    let q = page_appended(p, fk);
    let (fks, used) = page_read(p)->Ok_0;
    let n = u16_at(p, 8) as nat;
    let st = page_stream(p);
    let step = append_step(fks, fk);
    lemma_unstream_ok(st, n);
    let d = if n == 0 {
        fk.0
    } else {
        (fk.0 - fks.last().0) as u64
    };
    lemma_uleb_len_u64(d);
    lemma_p256_values();
    lemma_le_nat_of_seq((n + 1) as nat, 2);
    assert(q.subrange(0, 8) =~= p.subrange(0, 8));
    assert(q.subrange(8, 10) =~= le16((n + 1) as u16));
    assert(q.subrange(16, 24) =~= p.subrange(16, 24) || p[10] != 2);
    assert(q.subrange(24, 28) =~= p.subrange(24, 28) || p[10] != 2);
    let su = page_stream(q);
    assert(stream_start(q[10]) == stream_start(p[10]));
    assert(su =~= overlay(st, used as int, step));
    assert(su.subrange(0, used as int) =~= st.subrange(0, used as int));
    lemma_unstream_prefix(st, su, n);
    let rest = su.subrange((used + step.len()) as int, su.len() as int);
    assert(su.subrange(used as int, su.len() as int) =~= step + rest);
    law_uleb_roundtrip(d, rest);
    if n == 0 {
        assert(fks.push(fk) =~= seq![fk]);
    }
    assert(fk_unstream(su, n + 1) == Ok::<(Seq<Fk>, nat), StoreError>(
        (fks.push(fk), used + step.len()),
    ));
}

/// Adds one key to the page; `Ok(false)` if the page is full.
pub fn sh_page_try_append(page: &mut [u8; 4096], fk: Fk) -> (r: Result<bool, StoreError>)
    ensures
        match append_err(old(page)@, fk) {
            Some(e) => r == Err::<bool, StoreError>(e) && final(page)@ == old(page)@,
            None => {
                &&& r == Ok::<bool, StoreError>(append_fits(old(page)@, fk))
                &&& final(page)@ == if append_fits(old(page)@, fk) {
                    page_appended(old(page)@, fk)
                } else {
                    old(page)@
                }
            },
        },
{
    sh_page_try_append_entry(page, ShEntry::new(fk))
}

/// Adds one entry to the page; `Ok(false)` if the page is full.
///
/// The key must be larger than the last one of the page.
pub fn sh_page_try_append_entry(page: &mut [u8; 4096], entry: ShEntry) -> (r: Result<
    bool,
    StoreError,
>)
    ensures
        match append_err(old(page)@, entry.create_tx_fk) {
            Some(e) => r == Err::<bool, StoreError>(e) && final(page)@ == old(page)@,
            None => {
                &&& r == Ok::<bool, StoreError>(append_fits(old(page)@, entry.create_tx_fk))
                &&& final(page)@ == if append_fits(old(page)@, entry.create_tx_fk) {
                    page_appended(old(page)@, entry.create_tx_fk)
                } else {
                    old(page)@
                }
            },
        },
{
    let fk = entry.create_tx_fk;
    if fk.is_null() {
        return Err(StoreError::InvalidFk);
    }
    if fk.0 >= SH_FLAG_BIT {
        return Err(StoreError::Corrupt("scripthash: create_fk must have bit63 clear"));
    }
    let n: u16 = match sh_page_require_delta(page) {
        Ok(n) => n,
        Err(e) => return Err(e),
    };
    match sh_page_stream_used(page, n as usize) {
        Ok(_) => {},
        Err(e) => return Err(e),
    }
    let (fks, used) = match read_page(page) {
        Ok(p) => p,
        Err(e) => return Err(e),
    };
    proof {
        lemma_unstream_ok(page_stream(page@), n as nat);
    }
    let d: u64 = if n == 0 {
        fk.0
    } else {
        let last: u64 = fks[fks.len() - 1].0;
        if fk.0 <= last {
            return Err(
                StoreError::Corrupt(
                    "invariant: scripthash page append create_fk not strictly increasing",
                ),
            );
        }
        fk.0 - last
    };
    let start: usize = stream_off(page);
    let mut tmp: Vec<u8> = Vec::new();
    write_uleb128(&mut tmp, d);
    proof {
        assert(tmp@ =~= append_step(fks@, fk));
        lemma_uleb_len_u64(d);
    }
    if used + tmp.len() > SH_PAGE_SIZE - start {
        return Ok(false);
    }
    let ver: u8 = if page[SH_PAGE_OFF_VER] == SH_PAGE_EXTENT_VER {
        SH_PAGE_EXTENT_VER
    } else {
        SH_PAGE_DELTA_VER
    };
    let ghost p0 = page@;
    put_in_array(page, start + used, tmp.as_slice());
    let ghost p1 = page@;
    page[SH_PAGE_OFF_VER] = ver;
    proof {
        assert(page@ =~= overlay(p1, 10, seq![ver]));
    }
    let mut cnt: Vec<u8> = Vec::new();
    push_u16(&mut cnt, n + 1);
    proof {
        lemma_le_seq_len((n + 1) as nat, 2);
        assert(cnt@ =~= le16((n + 1) as u16));
    }
    put_in_array(page, SH_PAGE_OFF_N_FKS, cnt.as_slice());
    Ok(true)
}

/// Pages for `n` entries at eight bytes each.
pub open spec fn pages_for(n: int) -> int {
    (n + 509) / 510
}

/// Number of pages for `n` entries at eight bytes each.
pub fn sh_page_count_for_entries(n: usize) -> (r: usize)
    ensures
        r == pages_for(n as int),
{
    n / SH_PAGE_FK_CAP + (if n % SH_PAGE_FK_CAP == 0 {
        0
    } else {
        1
    })
}

} // verus!
