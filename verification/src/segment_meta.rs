//! Segment list of the transaction head, and the names of its files.
//!
//! The list is a header of 24 bytes (magic, schema, version, segment count,
//! width) and 32 bytes for each segment.

use vstd::prelude::*;
use crate::bytes::{bytes_at, copy_range, get_u32, get_u64, le16, le32, le64, lemma_le_nat_of_seq, lemma_p256_values, push_slice, push_u16, push_u32, push_u64, u32_at, u64_at};
use crate::error::StoreError;
use crate::primitives::{SCHEMA_VERSION, STORE_MAGIC};
use crate::segmented_head::{SegDesc, META_HEADER_LEN, META_VERSION, SEGMENT_HEAD_BITS, SEG_DESC_LEN};
use crate::text::{all_digits, dec_padded, is_digit, lemma_dec_padded, parse_dec, parse_u64, push_dec};

verus! {

/// Header of a segment list.
pub open spec fn meta_header(bits: u32, n: u32) -> Seq<u8> {
    STORE_MAGIC@ + le16(SCHEMA_VERSION) + le16(0) + le32(META_VERSION) + le32(n) + le32(bits)
        + le32(0)
}

/// Bytes of one segment in the list.
pub open spec fn desc_bytes(d: SegDesc) -> Seq<u8> {
    le64(d.first_fk) + le64(d.count) + le32(d.file_id) + le32(d.flags) + le64(0)
}

/// Bytes of the segments in the list.
pub open spec fn descs_bytes(descs: Seq<SegDesc>) -> Seq<u8>
    decreases descs.len(),
{
    if descs.len() == 0 {
        Seq::empty()
    } else {
        descs_bytes(descs.drop_last()) + desc_bytes(descs.last())
    }
}

/// A segment list.
pub open spec fn meta_bytes(bits: u32, descs: Seq<SegDesc>) -> Seq<u8> {
    meta_header(bits, descs.len() as u32) + descs_bytes(descs)
}

/// The segment at `off`.
pub open spec fn desc_at(b: Seq<u8>, off: int) -> SegDesc {
    SegDesc {
        first_fk: u64_at(b, off),
        count: u64_at(b, off + 8),
        file_id: u32_at(b, off + 16),
        flags: u32_at(b, off + 20),
    }
}

/// What a segment list says: width and segments.
pub open spec fn meta_value(b: Seq<u8>) -> Result<(u32, Seq<SegDesc>), StoreError> {
    if b.len() < 24 {
        Err(StoreError::Corrupt("tx.head.meta short"))
    } else if b.subrange(0, 4) != STORE_MAGIC@ {
        Err(StoreError::Corrupt("tx.head.meta magic"))
    } else if u32_at(b, 8) != META_VERSION {
        Err(StoreError::Corrupt("tx.head.meta version"))
    } else if b.len() < 24 + u32_at(b, 12) * 32 {
        Err(StoreError::Corrupt("tx.head.meta truncated"))
    } else {
        Ok((u32_at(b, 16), Seq::new(u32_at(b, 12) as nat, |i: int| desc_at(b, 24 + 32 * i))))
    }
}

/// Writes a segment list.
pub fn write_meta(bits: u32, segs: &[SegDesc]) -> (r: Vec<u8>)
    requires
        segs@.len() <= u32::MAX,
    ensures
        r@ == meta_bytes(bits, segs@),
{
    let mut buf: Vec<u8> = Vec::new();
    push_slice(&mut buf, STORE_MAGIC.as_slice());
    push_u16(&mut buf, SCHEMA_VERSION);
    push_u16(&mut buf, 0);
    push_u32(&mut buf, META_VERSION);
    push_u32(&mut buf, segs.len() as u32);
    push_u32(&mut buf, bits);
    push_u32(&mut buf, 0);
    let ghost head = meta_header(bits, segs@.len() as u32);
    let mut i: usize = 0;
    proof {
        assert(buf@ =~= head + descs_bytes(segs@.subrange(0, 0)));
    }
    while i < segs.len()
        invariant
            i <= segs@.len(),
            buf@ == head + descs_bytes(segs@.subrange(0, i as int)),
        decreases segs@.len() - i,
    {
        let d: SegDesc = segs[i];
        let ghost before = buf@;
        push_u64(&mut buf, d.first_fk);
        push_u64(&mut buf, d.count);
        push_u32(&mut buf, d.file_id);
        push_u32(&mut buf, d.flags);
        push_u64(&mut buf, 0);
        proof {
            let p = segs@.subrange(0, i + 1);
            assert(p.drop_last() =~= segs@.subrange(0, i as int));
            assert(buf@ =~= before + desc_bytes(d));
            assert(buf@ =~= head + descs_bytes(p));
        }
        i += 1;
    }
    proof {
        assert(segs@.subrange(0, i as int) =~= segs@);
    }
    buf
}

/// Reads a segment list.
pub fn read_meta_buf(buf: &[u8]) -> (r: Result<(u32, Vec<SegDesc>), StoreError>)
    ensures
        match r {
            Ok(v) => meta_value(buf@) == Ok::<(u32, Seq<SegDesc>), StoreError>((v.0, v.1@)),
            Err(e) => meta_value(buf@) == Err::<(u32, Seq<SegDesc>), StoreError>(e),
        },
{
    if buf.len() < META_HEADER_LEN {
        return Err(StoreError::Corrupt("tx.head.meta short"));
    }
    if !bytes_at(buf, 0, STORE_MAGIC.as_slice()) {
        return Err(StoreError::Corrupt("tx.head.meta magic"));
    }
    if get_u32(buf, 8) != META_VERSION {
        return Err(StoreError::Corrupt("tx.head.meta version"));
    }
    let n: u32 = get_u32(buf, 12);
    let bits: u32 = get_u32(buf, 16);
    if (buf.len() as u64) < META_HEADER_LEN as u64 + n as u64 * SEG_DESC_LEN as u64 {
        return Err(StoreError::Corrupt("tx.head.meta truncated"));
    }
    let mut descs: Vec<SegDesc> = Vec::new();
    let mut i: u32 = 0;
    let blen: usize = buf.len();
    while i < n
        invariant
            i <= n,
            blen == buf@.len(),
            buf@.len() >= 24 + n * 32,
            descs@.len() == i,
            forall|j: int| 0 <= j < i ==> (#[trigger] descs@[j]) == desc_at(buf@, 24 + 32 * j),
        decreases n - i,
    {
        let o: usize = META_HEADER_LEN + i as usize * SEG_DESC_LEN;
        descs.push(
            SegDesc {
                first_fk: get_u64(buf, o),
                count: get_u64(buf, o + 8),
                file_id: get_u32(buf, o + 16),
                flags: get_u32(buf, o + 20),
            },
        );
        i += 1;
    }
    proof {
        assert(descs@ =~= Seq::new(n as nat, |i: int| desc_at(buf@, 24 + 32 * i)));
    }
    Ok((bits, descs))
}

/// Reads the segment list; without one the head is new.
pub fn read_meta(file: Option<&[u8]>) -> (r: Result<(u32, Vec<SegDesc>), StoreError>)
    ensures
        match file {
            None => r is Ok && (r->Ok_0).0 == SEGMENT_HEAD_BITS && (r->Ok_0).1@.len() == 0,
            Some(buf) => match r {
                Ok(v) => meta_value(buf@) == Ok::<(u32, Seq<SegDesc>), StoreError>((v.0, v.1@)),
                Err(e) => meta_value(buf@) == Err::<(u32, Seq<SegDesc>), StoreError>(e),
            },
        },
{
    match file {
        None => Ok((SEGMENT_HEAD_BITS, Vec::new())),
        Some(buf) => read_meta_buf(buf),
    }
}

proof fn lemma_descs_bytes(head: Seq<u8>, descs: Seq<SegDesc>, tail: Seq<u8>)
    requires
        head.len() == 24,
    ensures
        descs_bytes(descs).len() == 32 * descs.len(),
        forall|i: int|
            0 <= i < descs.len() ==> #[trigger] desc_at(
                head + descs_bytes(descs) + tail,
                24 + 32 * i,
            ) == descs[i],
    decreases descs.len(),
{
    if descs.len() > 0 {
        let d = descs.last();
        let p = descs.drop_last();
        lemma_p256_values();
        lemma_le_nat_of_seq(d.first_fk as nat, 8);
        lemma_le_nat_of_seq(d.count as nat, 8);
        lemma_le_nat_of_seq(d.file_id as nat, 4);
        lemma_le_nat_of_seq(d.flags as nat, 4);
        lemma_le_nat_of_seq(0, 8);
        lemma_descs_bytes(head, p, desc_bytes(d) + tail);
        let b = head + descs_bytes(descs) + tail;
        assert(b =~= head + descs_bytes(p) + (desc_bytes(d) + tail));
        let o = 24 + 32 * (descs.len() - 1);
        assert(b.subrange(o, o + 8) =~= le64(d.first_fk));
        assert(b.subrange(o + 8, o + 16) =~= le64(d.count));
        assert(b.subrange(o + 16, o + 20) =~= le32(d.file_id));
        assert(b.subrange(o + 20, o + 24) =~= le32(d.flags));
        assert(desc_at(b, o) == d);
        assert forall|i: int| 0 <= i < descs.len() implies #[trigger] desc_at(b, 24 + 32 * i)
            == descs[i] by {
            if i < p.len() {
                assert(p[i] == descs[i]);
            }
        }
    }
}

/// A segment list gives back the width and the segments that were written.
pub proof fn law_meta_roundtrip(bits: u32, descs: Seq<SegDesc>)
    requires
        descs.len() <= u32::MAX,
    ensures
        meta_value(meta_bytes(bits, descs)) == Ok::<(u32, Seq<SegDesc>), StoreError>((bits, descs)),
{
    let n = descs.len() as u32;
    let head = meta_header(bits, n);
    let b = meta_bytes(bits, descs);
    lemma_p256_values();
    lemma_le_nat_of_seq(bits as nat, 4);
    lemma_le_nat_of_seq(n as nat, 4);
    lemma_le_nat_of_seq(META_VERSION as nat, 4);
    lemma_le_nat_of_seq(SCHEMA_VERSION as nat, 2);
    lemma_le_nat_of_seq(0, 2);
    lemma_le_nat_of_seq(0, 4);
    assert(head.len() == 24);
    lemma_descs_bytes(head, descs, Seq::empty());
    assert(b =~= head + descs_bytes(descs) + Seq::empty());
    assert(b.subrange(0, 4) =~= STORE_MAGIC@);
    assert(b.subrange(8, 12) =~= le32(META_VERSION));
    assert(b.subrange(12, 16) =~= le32(n));
    assert(b.subrange(16, 20) =~= le32(bits));
    assert(Seq::new(n as nat, |i: int| desc_at(b, 24 + 32 * i)) =~= descs);
}

/// Ending of a filter file.
pub open spec fn fuse_ending() -> Seq<u8> {
    seq![0x2eu8, 0x66u8, 0x75u8, 0x73u8, 0x65u8, 0x38u8]
}

/// What names of flat head files start with.
pub open spec fn flat_start() -> Seq<u8> {
    seq![0x74u8, 0x78u8, 0x2eu8, 0x68u8, 0x65u8, 0x61u8, 0x64u8, 0x2eu8]
}

/// Name of a segment file: its number with at least six digits.
pub open spec fn head_name(file_id: u32) -> Seq<u8> {
    dec_padded(file_id as nat, 6)
}

/// Name of a segment file.
pub fn segment_head_name(file_id: u32) -> (r: Vec<u8>)
    ensures
        r@ == head_name(file_id),
{
    let mut v: Vec<u8> = Vec::new();
    push_dec(&mut v, file_id as u64, 6);
    proof {
        assert(v@ =~= head_name(file_id));
    }
    v
}

/// Name of a filter file.
pub fn segment_fuse_name(file_id: u32) -> (r: Vec<u8>)
    ensures
        r@ == head_name(file_id) + fuse_ending(),
{
    let mut v = segment_head_name(file_id);
    let ending: [u8; 6] = [0x2e, 0x66, 0x75, 0x73, 0x65, 0x38];
    push_slice(&mut v, ending.as_slice());
    proof {
        assert(ending@ =~= fuse_ending());
    }
    v
}

/// Number of digits of the name behind the start.
pub open spec fn flat_base(name: Seq<u8>) -> Seq<u8> {
    let rest = name.subrange(8, name.len() as int);
    if rest.len() >= 6 && rest.subrange(rest.len() - 6, rest.len() as int) == fuse_ending() {
        rest.subrange(0, rest.len() - 6)
    } else {
        rest
    }
}

/// The name is one of a flat head file: `tx.head.`, six digits, and `.fuse8`
/// for a filter.
pub open spec fn is_flat(name: Seq<u8>) -> bool {
    &&& name.len() >= 8
    &&& name.subrange(0, 8) == flat_start()
    &&& flat_base(name).len() == 6
    &&& all_digits(flat_base(name))
}

/// Where in the head's own directory a flat head file belongs (`None` for other
/// files).
pub fn flat_target(name: &[u8]) -> (r: Option<Vec<u8>>)
    ensures
        match r {
            Some(t) => is_flat(name@) && t@ == name@.subrange(8, name@.len() as int),
            None => !is_flat(name@),
        },
{
    let n: usize = name.len();
    let start: [u8; 8] = [0x74, 0x78, 0x2e, 0x68, 0x65, 0x61, 0x64, 0x2e];
    let ending: [u8; 6] = [0x2e, 0x66, 0x75, 0x73, 0x65, 0x38];
    proof {
        assert(start@ =~= flat_start());
        assert(ending@ =~= fuse_ending());
    }
    if n < 8 || !bytes_at(name, 0, start.as_slice()) {
        return None;
    }
    let ghost rest = name@.subrange(8, n as int);
    let hi: usize = if n >= 14 && bytes_at(name, n - 6, ending.as_slice()) {
        n - 6
    } else {
        n
    };
    proof {
        if n >= 14 {
            assert(rest.subrange(rest.len() - 6, rest.len() as int) =~= name@.subrange(
                n - 6,
                n as int,
            ));
        }
        assert(flat_base(name@) =~= name@.subrange(8, hi as int));
    }
    if hi != 14 {
        return None;
    }
    let mut i: usize = 8;
    while i < hi
        invariant
            8 <= i <= hi,
            hi == 14,
            hi <= name@.len(),
            flat_base(name@) == name@.subrange(8, hi as int),
            forall|j: int| 8 <= j < i ==> is_digit(#[trigger] name@[j]),
        decreases hi - i,
    {
        if name[i] < 48 || name[i] > 57 {
            assert(flat_base(name@)[i - 8] == name@[i as int]);
            assert(!is_digit(flat_base(name@)[i - 8]));
            return None;
        }
        i += 1;
    }
    proof {
        assert forall|j: int| 0 <= j < 6 implies is_digit(#[trigger] flat_base(name@)[j]) by {
            assert(flat_base(name@)[j] == name@[j + 8]);
        }
    }
    Some(copy_range(name, 8, n))
}

/// What there is under the name `tx.head`, and the list of a flat head.
#[derive(Debug, Clone, Copy, PartialEq, Eq, Structural)]
pub struct HeadFiles {
    /// `tx.head` is a file.
    pub is_file: bool,
    /// `tx.head` is a directory.
    pub is_dir: bool,
    /// The directory holds a segment list.
    pub has_meta: bool,
    /// There is a segment list beside it.
    pub has_flat_meta: bool,
    /// The directory holds anything.
    pub non_empty: bool,
}

/// What to do before the head is opened.
#[derive(Debug, Clone, Copy, PartialEq, Eq, Structural)]
pub enum LayoutStep {
    /// The directory is in order.
    Ready,
    /// Make an empty directory.
    MakeDir,
    /// Make the directory and move the flat files there, the list last.
    MoveFlat,
}

/// What to do before the head is opened, or why it cannot be.
pub open spec fn layout_step(f: HeadFiles) -> Result<LayoutStep, StoreError> {
    if f.is_file {
        Err(
            StoreError::Corrupt(
                "legacy monolithic tx.head present — reindex required (segmented 25-bit heads)",
            ),
        )
    } else if f.is_dir && !f.has_meta && !f.has_flat_meta && f.non_empty {
        Err(StoreError::Corrupt("legacy sharded tx.head/ dir — reindex required"))
    } else if f.has_meta {
        Ok(LayoutStep::Ready)
    } else if f.has_flat_meta {
        Ok(LayoutStep::MoveFlat)
    } else {
        Ok(LayoutStep::MakeDir)
    }
}

/// Refuses the files of old heads, and says how to reach the present layout.
pub fn ensure_head_layout(f: HeadFiles) -> (r: Result<LayoutStep, StoreError>)
    ensures
        r == layout_step(f),
{
    if f.is_file {
        return Err(
            StoreError::Corrupt(
                "legacy monolithic tx.head present — reindex required (segmented 25-bit heads)",
            ),
        );
    }
    if f.is_dir && !f.has_meta && !f.has_flat_meta && f.non_empty {
        return Err(StoreError::Corrupt("legacy sharded tx.head/ dir — reindex required"));
    }
    if f.has_meta {
        return Ok(LayoutStep::Ready);
    }
    if f.has_flat_meta {
        return Ok(LayoutStep::MoveFlat);
    }
    Ok(LayoutStep::MakeDir)
}

/// The names of the segments' files in a flat layout are flat names, and they
/// keep their names in the directory.
pub proof fn law_flat_names(file_id: u32)
    requires
        file_id <= 999_999,
    ensures
        is_flat(flat_start() + head_name(file_id)),
        is_flat(flat_start() + head_name(file_id) + fuse_ending()),
{
    lemma_dec_padded(file_id as nat, 6);
    lemma_six(file_id as nat);
    let d = head_name(file_id);
    let a = flat_start() + d;
    assert(a.subrange(0, 8) =~= flat_start());
    assert(a.subrange(8, a.len() as int) =~= d);
    assert(d.subrange(0, 6) =~= d);
    assert(d[0] != 0x2e) by {
        assert(is_digit(d[0]));
    }
    assert(fuse_ending()[0] == 0x2e);
    assert(flat_base(a) == d);
    let b = a + fuse_ending();
    assert(b.subrange(0, 8) =~= flat_start());
    let r = b.subrange(8, b.len() as int);
    assert(r =~= d + fuse_ending());
    assert(r.subrange(r.len() - 6, r.len() as int) =~= fuse_ending());
    assert(r.subrange(0, r.len() - 6) =~= d);
}

proof fn lemma_six(x: nat)
    requires
        x <= 999_999,
    ensures
        dec_padded(x, 6).len() == 6,
{
    reveal_with_fuel(dec_padded, 7);
}

/// Body bytes after which a segment is rolled: the number given, if it is one
/// and at least 8, or else the default.
pub fn soft_span_bytes(given: Option<&[u8]>, default_span: u64) -> (r: u64)
    ensures
        r == (match given {
            Some(t) => match parse_dec(t@) {
                Some(v) => if v >= 8 {
                    v
                } else {
                    default_span
                },
                None => default_span,
            },
            None => default_span,
        }),
{
    match given {
        Some(t) => {
            proof {
                assert(t@.subrange(0, t@.len() as int) =~= t@);
            }
            match parse_u64(t, 0, t.len()) {
                Some(v) => if v >= 8 {
                    v
                } else {
                    default_span
                },
                None => default_span,
            }
        },
        None => default_span,
    }
}

} // verus!
