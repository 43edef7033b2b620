//! Packing of create keys: geometric slabs and ULEB128 key deltas.
//!
//! A list of strictly increasing keys is written as its first key and the
//! distance from each key to the next. Slab payloads and page streams share
//! that form.

use vstd::prelude::*;
use crate::bytes::{get_u16, le16, lemma_le_nat_of_seq, lemma_p256_values, push_slice, push_u16, u16_at};
use crate::compact::{law_uleb_roundtrip, lemma_uleb_len_u64, lemma_uleb_scan_len, read_uleb128_at, uleb, uleb_get, uleb_window, write_uleb128};
use crate::error::StoreError;
use crate::primitives::Fk;
use crate::scripthash_layout::{class_bytes, class_cap, lemma_class_cap_values, slab_bytes, slab_cap, SH_INLINE_CAP};
use crate::scripthash_pages::{flagged, pages_for, sh_page_count_for_entries, SH_FLAG_BIT, SH_PAGE_SIZE};

verus! {

/// First key count that needs a page chain.
pub const SH_MEGAKEY_MIN_FKS: u32 = 257;

/// The smallest class that holds `n` keys, for the counts that live in slabs.
pub open spec fn is_class_for(n: u32, r: Option<u8>) -> bool {
    match r {
        Some(c) => 3 <= n <= 256 && c <= 6 && class_cap(c as nat) >= n && (forall|d: nat|
            d < c ==> class_cap(d) < n),
        None => n <= 2 || n >= 257,
    }
}

/// Smallest class with room for `n` keys (`None` if inline or a page chain).
pub fn slab_class_for_n_fks(n: u32) -> (r: Option<u8>)
    ensures
        is_class_for(n, r),
{
    if n <= 2 || n > 256 {
        return None;
    }
    let mut c: u8 = 0;
    proof {
        lemma_class_cap_values();
    }
    while slab_cap(c) < n
        invariant
            3 <= n <= 256,
            c <= 6,
            class_cap(6) == 256,
            forall|d: nat| d < c ==> class_cap(d) < n,
        decreases 6 - c,
    {
        c += 1;
    }
    Some(c)
}

/// Class for a growing list: one spare slot where a larger class exists.
pub open spec fn is_slack_class_for(n: u32, r: Option<u8>) -> bool {
    if 2 <= n <= 255 {
        is_class_for((n + 1) as u32, r)
    } else {
        is_class_for(n, r)
    }
}

/// Class for a growing list: one spare slot where a larger class exists.
pub fn slab_class_for_n_fks_with_slack(n: u32) -> (r: Option<u8>)
    ensures
        is_slack_class_for(n, r),
{
    let up: u32 = if n < 0xffff_ffff {
        n + 1
    } else {
        n
    };
    match slab_class_for_n_fks(up) {
        Some(c) => Some(c),
        None => slab_class_for_n_fks(n),
    }
}

/// Smallest class whose slab holds `len` bytes (`None` beyond the largest).
pub open spec fn is_class_for_len(len: int, r: Option<u8>) -> bool {
    match r {
        Some(c) => c <= 6 && class_bytes(c as nat) >= len && (forall|d: nat|
            d < c ==> class_bytes(d) < len),
        None => len > 2048,
    }
}

/// Smallest class whose slab holds `len` bytes (`None` beyond the largest).
pub fn slab_class_for_packed_len(len: usize) -> (r: Option<u8>)
    ensures
        is_class_for_len(len as int, r),
{
    proof {
        lemma_class_cap_values();
    }
    if len > 2048 {
        return None;
    }
    let mut c: u8 = 0;
    while slab_bytes(c) < len as u64
        invariant
            len <= 2048,
            c <= 6,
            class_cap(6) == 256,
            forall|d: nat| d < c ==> class_bytes(d) < len,
        decreases 6 - c,
    {
        c += 1;
    }
    Some(c)
}

/// Body bytes of one key with `n` creates when only pages are used.
pub fn page_alloc_bytes_for_n_fks(n: u32) -> (r: u64)
    ensures
        r == (if n <= 2 { 0int } else { pages_for(n as int) * 4096 }),
{
    if n as usize <= SH_INLINE_CAP {
        0
    } else {
        let pages: usize = sh_page_count_for_entries(n as usize);
        pages as u64 * SH_PAGE_SIZE as u64
    }
}

/// Body bytes of one key with `n` creates: a slab of the exact class, else pages.
pub fn slab_alloc_bytes_for_n_fks(n: u32) -> (r: u64)
    ensures
        n <= 2 ==> r == 0,
        3 <= n <= 256 ==> exists|c: u8|
            #[trigger] is_class_for(n, Some(c)) && r == class_bytes(c as nat),
        n >= 257 ==> r == pages_for(n as int) * 4096,
{
    if n as usize <= SH_INLINE_CAP {
        return 0;
    }
    match slab_class_for_n_fks(n) {
        Some(c) => {
            assert(is_class_for(n, Some(c)));
            slab_bytes(c)
        },
        None => page_alloc_bytes_for_n_fks(n),
    }
}

/// Keys that a stream can hold: not null, bit 63 clear, strictly increasing.
pub open spec fn fks_ok(fks: Seq<Fk>) -> bool {
    &&& fks.len() > 0 ==> fks[0].0 > 0
    &&& forall|i: int| 0 <= i < fks.len() ==> !flagged((#[trigger] fks[i]).0)
    &&& forall|i: int, j: int|
        0 <= i < j < fks.len() ==> (#[trigger] fks[i]).0 < (#[trigger] fks[j]).0
}

/// The stream: the first key, then the distance to each next key.
pub open spec fn fk_stream(fks: Seq<Fk>) -> Seq<u8>
    decreases fks.len(),
{
    if fks.len() == 0 {
        Seq::empty()
    } else if fks.len() == 1 {
        uleb(fks[0].0 as nat)
    } else {
        fk_stream(fks.drop_last()) + uleb((fks.last().0 - fks[fks.len() - 2].0) as nat)
    }
}

/// First reason why `fks[i..]` cannot be streamed after `fks[i - 1]`.
pub open spec fn stream_fault_from(fks: Seq<Fk>, i: int) -> Option<StoreError>
    decreases fks.len() - i,
{
    if i < 1 || i >= fks.len() {
        None
    } else if fks[i].0 <= fks[i - 1].0 {
        Some(StoreError::Corrupt("invariant: scripthash fk stream not strictly increasing"))
    } else if flagged(fks[i].0) {
        Some(StoreError::Corrupt("scripthash fk stream flag bit set"))
    } else {
        stream_fault_from(fks, i + 1)
    }
}

/// First reason why `fks` cannot be streamed.
pub open spec fn stream_fault(fks: Seq<Fk>) -> Option<StoreError> {
    if fks.len() == 0 {
        None
    } else if fks[0].0 == 0 {
        Some(StoreError::Corrupt("scripthash fk stream null first fk"))
    } else if flagged(fks[0].0) {
        Some(StoreError::Corrupt("scripthash fk stream flag bit set"))
    } else {
        stream_fault_from(fks, 1)
    }
}

/// Reading `n` keys from the front of `buf`: the keys and the bytes they take.
pub open spec fn fk_unstream(buf: Seq<u8>, n: nat) -> Result<(Seq<Fk>, nat), StoreError>
    decreases n,
{
    if n == 0 {
        Ok((Seq::empty(), 0nat))
    } else {
        match fk_unstream(buf, (n - 1) as nat) {
            Err(e) => Err(e),
            Ok((fks, off)) => match uleb_get(buf.subrange(off as int, buf.len() as int)) {
                Err(e) => Err(e),
                Ok((d, used)) => if n == 1 {
                    if d == 0 {
                        Err(StoreError::Corrupt("scripthash fk stream null first fk"))
                    } else if flagged(d) {
                        Err(StoreError::Corrupt("scripthash fk stream flag bit set"))
                    } else {
                        Ok((seq![Fk(d)], used as nat))
                    }
                } else {
                    if d == 0 {
                        Err(StoreError::Corrupt("invariant: scripthash fk stream zero delta"))
                    } else if fks.last().0 + d > u64::MAX {
                        Err(StoreError::Corrupt("scripthash fk stream delta overflow"))
                    } else if flagged((fks.last().0 + d) as u64) {
                        Err(StoreError::Corrupt("scripthash fk stream flag bit set"))
                    } else {
                        Ok((fks.push(Fk((fks.last().0 + d) as u64)), off + used as nat))
                    }
                },
            },
        }
    }
}

/// The keys of a stream, without its length.
pub open spec fn stream_fks(buf: Seq<u8>, n: nat) -> Result<Seq<Fk>, StoreError> {
    match fk_unstream(buf, n) {
        Ok((fks, _)) => Ok(fks),
        Err(e) => Err(e),
    }
}

pub proof fn lemma_uleb_get_bounds(s: Seq<u8>)
    ensures
        uleb_get(s) matches Ok((_, n)) ==> 1 <= n <= s.len(),
{
    lemma_uleb_scan_len(uleb_window(s));
}

/// What was read is a valid list that lies inside the buffer.
pub proof fn lemma_unstream_ok(buf: Seq<u8>, n: nat)
    ensures
        fk_unstream(buf, n) matches Ok((fks, off)) ==> fks.len() == n && off <= buf.len() && n
            <= off && fks_ok(fks),
    decreases n,
{
    if n > 0 {
        lemma_unstream_ok(buf, (n - 1) as nat);
        match fk_unstream(buf, (n - 1) as nat) {
            Ok((fks, off)) => {
                lemma_uleb_get_bounds(buf.subrange(off as int, buf.len() as int));
            },
            Err(_) => {},
        }
    }
}

proof fn lemma_fks_ok_prefix(fks: Seq<Fk>)
    requires
        fks_ok(fks),
        fks.len() > 0,
    ensures
        fks_ok(fks.drop_last()),
{
}

/// Reading a stream gives back the keys that were written, whatever follows.
pub proof fn law_fk_stream_roundtrip(fks: Seq<Fk>, rest: Seq<u8>)
    requires
        fks_ok(fks),
    ensures
        fk_unstream(fk_stream(fks) + rest, fks.len()) == Ok::<(Seq<Fk>, nat), StoreError>(
            (fks, fk_stream(fks).len()),
        ),
    decreases fks.len(),
{
    let n = fks.len();
    if n == 0 {
        assert(fks =~= Seq::<Fk>::empty());
    } else if n == 1 {
        let s = fk_stream(fks) + rest;
        assert(s.subrange(0, s.len() as int) =~= s);
        law_uleb_roundtrip(fks[0].0, rest);
        assert(fk_unstream(s, 0) == Ok::<(Seq<Fk>, nat), StoreError>((Seq::empty(), 0nat)));
        assert(fks =~= seq![fks[0]]);
        lemma_uleb_len_u64(fks[0].0);
    } else {
        let head = fks.drop_last();
        let d = (fks.last().0 - fks[n - 2].0) as u64;
        let tail = uleb(d as nat) + rest;
        lemma_fks_ok_prefix(fks);
        law_fk_stream_roundtrip(head, tail);
        let s = fk_stream(fks) + rest;
        assert(s =~= fk_stream(head) + tail);
        let off = fk_stream(head).len();
        assert(s.subrange(off as int, s.len() as int) =~= tail);
        law_uleb_roundtrip(d, rest);
        lemma_uleb_len_u64(d);
        assert(head.last() == fks[n - 2]);
        assert(head.push(Fk((head.last().0 + d) as u64)) =~= fks);
    }
}

proof fn lemma_stream_fault_none(fks: Seq<Fk>, i: int)
    requires
        1 <= i,
        fks.len() > 0,
        stream_fault_from(fks, i) is None,
    ensures
        forall|j: int| i <= j < fks.len() ==> fks[j - 1].0 < (#[trigger] fks[j]).0 && !flagged(
            fks[j].0,
        ),
    decreases fks.len() - i,
{
    if i < fks.len() {
        lemma_stream_fault_none(fks, i + 1);
    }
}

proof fn lemma_adjacent_increasing(fks: Seq<Fk>, i: int, j: int)
    requires
        forall|k: int| 1 <= k < fks.len() ==> fks[k - 1].0 < (#[trigger] fks[k]).0,
        0 <= i < j < fks.len(),
    ensures
        fks[i].0 < fks[j].0,
    decreases j - i,
{
    if i + 1 < j {
        lemma_adjacent_increasing(fks, i, j - 1);
    }
}

proof fn lemma_stream_fault_ok_from(fks: Seq<Fk>, i: int)
    requires
        fks_ok(fks),
        1 <= i,
    ensures
        stream_fault_from(fks, i) is None,
    decreases fks.len() - i,
{
    if i < fks.len() {
        lemma_stream_fault_ok_from(fks, i + 1);
    }
}

/// A list has no fault exactly if it can be streamed.
pub proof fn lemma_stream_fault_iff(fks: Seq<Fk>)
    ensures
        stream_fault(fks) is None <==> fks_ok(fks),
{
    if fks.len() > 0 {
        if stream_fault(fks) is None {
            lemma_stream_fault_none(fks, 1);
            assert forall|i: int, j: int| 0 <= i < j < fks.len() implies (#[trigger] fks[i]).0
                < (#[trigger] fks[j]).0 by {
                lemma_adjacent_increasing(fks, i, j);
            }
        }
        if fks_ok(fks) {
            lemma_stream_fault_ok_from(fks, 1);
        }
    }
}

/// Writes strictly increasing keys as a delta stream.
pub fn encode_fk_delta_stream(fks: &[Fk]) -> (r: Result<Vec<u8>, StoreError>)
    ensures
        match r {
            Ok(v) => fks_ok(fks@) && v@ == fk_stream(fks@),
            Err(e) => !fks_ok(fks@) && stream_fault(fks@) == Some(e),
        },
{
    proof {
        lemma_stream_fault_iff(fks@);
    }
    if fks.len() == 0 {
        let v: Vec<u8> = Vec::new();
        assert(v@ =~= fk_stream(fks@));
        return Ok(v);
    }
    if fks[0].0 == 0 {
        return Err(StoreError::Corrupt("scripthash fk stream null first fk"));
    }
    if fks[0].0 >= SH_FLAG_BIT {
        return Err(StoreError::Corrupt("scripthash fk stream flag bit set"));
    }
    let mut i: usize = 1;
    while i < fks.len()
        invariant
            1 <= i <= fks@.len(),
            stream_fault(fks@) == stream_fault_from(fks@, i as int),
            stream_fault(fks@) is None <==> fks_ok(fks@),
        decreases fks@.len() - i,
    {
        if fks[i].0 <= fks[i - 1].0 {
            return Err(
                StoreError::Corrupt("invariant: scripthash fk stream not strictly increasing"),
            );
        }
        if fks[i].0 >= SH_FLAG_BIT {
            return Err(StoreError::Corrupt("scripthash fk stream flag bit set"));
        }
        i += 1;
    }
    let mut out: Vec<u8> = Vec::new();
    write_uleb128(&mut out, fks[0].0);
    proof {
        assert(fks@.subrange(0, 1).len() == 1);
        assert(out@ =~= fk_stream(fks@.subrange(0, 1)));
    }
    let mut k: usize = 1;
    while k < fks.len()
        invariant
            1 <= k <= fks@.len(),
            fks_ok(fks@),
            out@ == fk_stream(fks@.subrange(0, k as int)),
        decreases fks@.len() - k,
    {
        assert(fks@[k - 1].0 < fks@[k as int].0);
        write_uleb128(&mut out, fks[k].0 - fks[k - 1].0);
        k += 1;
        proof {
            let p = fks@.subrange(0, k as int);
            assert(p.drop_last() =~= fks@.subrange(0, k - 1));
        }
    }
    proof {
        assert(fks@.subrange(0, fks@.len() as int) =~= fks@);
    }
    Ok(out)
}

/// Reads `n` strictly increasing keys that start at `start`.
pub fn decode_fk_delta_stream_at(buf: &[u8], start: usize, n: usize) -> (r: Result<
    (Vec<Fk>, usize),
    StoreError,
>)
    requires
        start <= buf@.len(),
    ensures
        match (r, fk_unstream(buf@.subrange(start as int, buf@.len() as int), n as nat)) {
            (Ok((v, used)), Ok((fks, off))) => v@ == fks && used == off,
            (Err(e), Err(f)) => e == f,
            _ => false,
        },
{
    let ghost s = buf@.subrange(start as int, buf@.len() as int);
    let mut out: Vec<Fk> = Vec::new();
    let mut off: usize = 0;
    let mut i: usize = 0;
    let blen: usize = buf.len();
    proof {
        assert(out@ =~= Seq::<Fk>::empty());
    }
    while i < n
        invariant
            i <= n,
            blen == buf@.len(),
            start <= blen,
            s == buf@.subrange(start as int, buf@.len() as int),
            fk_unstream(s, i as nat) == Ok::<(Seq<Fk>, nat), StoreError>((out@, off as nat)),
            out@.len() == i,
            off <= s.len(),
        decreases n - i,
    {
        proof {
            lemma_unstream_ok(s, i as nat);
            lemma_unstream_fail(s, (i + 1) as nat, n as nat);
            assert(buf@.subrange(start + off, buf@.len() as int) =~= s.subrange(
                off as int,
                s.len() as int,
            ));
        }
        let (d, used) = match read_uleb128_at(buf, start + off) {
            Ok(p) => p,
            Err(e) => return Err(e),
        };
        if i == 0 {
            if d == 0 {
                return Err(StoreError::Corrupt("scripthash fk stream null first fk"));
            }
            if d >= SH_FLAG_BIT {
                return Err(StoreError::Corrupt("scripthash fk stream flag bit set"));
            }
            out.push(Fk(d));
            proof {
                assert(out@ =~= seq![Fk(d)]);
            }
        } else {
            if d == 0 {
                return Err(StoreError::Corrupt("invariant: scripthash fk stream zero delta"));
            }
            let last: u64 = out[i - 1].0;
            let next: u64 = match last.checked_add(d) {
                Some(x) => x,
                None => return Err(StoreError::Corrupt("scripthash fk stream delta overflow")),
            };
            if next >= SH_FLAG_BIT {
                return Err(StoreError::Corrupt("scripthash fk stream flag bit set"));
            }
            out.push(Fk(next));
        }
        off += used;
        i += 1;
    }
    Ok((out, off))
}

/// Reading depends only on the bytes that the keys occupy.
pub proof fn lemma_unstream_prefix(a: Seq<u8>, b: Seq<u8>, n: nat)
    requires
        fk_unstream(a, n) is Ok,
        ({
            let off = fk_unstream(a, n)->Ok_0.1 as int;
            off <= a.len() && off <= b.len() && a.subrange(0, off) == b.subrange(0, off)
        }),
    ensures
        fk_unstream(b, n) == fk_unstream(a, n),
    decreases n,
{
    if n > 0 {
        let m = (n - 1) as nat;
        lemma_unstream_ok(a, m);
        let (fks, off) = fk_unstream(a, m)->Ok_0;
        let sa = a.subrange(off as int, a.len() as int);
        let sb = b.subrange(off as int, b.len() as int);
        lemma_uleb_get_bounds(sa);
        let used = uleb_get(sa)->Ok_0.1 as int;
        let end = fk_unstream(a, n)->Ok_0.1 as int;
        if n == 1 {
            assert(off == 0);
        }
        assert(end == off + used);
        assert(a.subrange(0, off as int) =~= a.subrange(0, end).subrange(0, off as int));
        assert(b.subrange(0, off as int) =~= b.subrange(0, end).subrange(0, off as int));
        lemma_unstream_prefix(a, b, m);
        assert(sa.subrange(0, used) =~= a.subrange(0, end).subrange(off as int, end));
        assert(sb.subrange(0, used) =~= b.subrange(0, end).subrange(off as int, end));
        crate::compact::lemma_uleb_get_prefix(sa, sb);
    }
}

/// Length of `n` numbers at the front of `buf`.
pub open spec fn uleb_skip(buf: Seq<u8>, n: nat) -> Result<nat, StoreError>
    decreases n,
{
    if n == 0 {
        Ok(0nat)
    } else {
        match uleb_skip(buf, (n - 1) as nat) {
            Err(e) => Err(e),
            Ok(off) => match uleb_get(buf.subrange(off as int, buf.len() as int)) {
                Err(e) => Err(e),
                Ok((_, used)) => Ok(off + used as nat),
            },
        }
    }
}

/// Keys that read well take as many bytes as their numbers.
pub proof fn lemma_skip_unstream(buf: Seq<u8>, n: nat)
    ensures
        fk_unstream(buf, n) matches Ok((_, off)) ==> uleb_skip(buf, n) == Ok::<nat, StoreError>(
            off,
        ),
    decreases n,
{
    if n > 0 {
        lemma_skip_unstream(buf, (n - 1) as nat);
        if n == 1 {
            assert(uleb_skip(buf, 0) == Ok::<nat, StoreError>(0nat));
        }
    }
}

pub proof fn lemma_skip_fail(s: Seq<u8>, a: nat, b: nat)
    requires
        a <= b,
    ensures
        uleb_skip(s, a) matches Err(e) ==> uleb_skip(s, b) == Err::<nat, StoreError>(e),
    decreases b,
{
    if a < b {
        lemma_skip_fail(s, a, (b - 1) as nat);
    }
}

proof fn lemma_unstream_fail(s: Seq<u8>, a: nat, b: nat)
    requires
        a <= b,
    ensures
        fk_unstream(s, a) matches Err(e) ==> fk_unstream(s, b) == Err::<
            (Seq<Fk>, nat),
            StoreError,
        >(e),
    decreases b,
{
    if a < b {
        lemma_unstream_fail(s, a, (b - 1) as nat);
    }
}

/// Reads `n` strictly increasing keys from the front of `buf`.
pub fn decode_fk_delta_stream(buf: &[u8], n: usize) -> (r: Result<Vec<Fk>, StoreError>)
    ensures
        match (r, stream_fks(buf@, n as nat)) {
            (Ok(v), Ok(fks)) => v@ == fks,
            (Err(e), Err(f)) => e == f,
            _ => false,
        },
{
    proof {
        assert(buf@.subrange(0, buf@.len() as int) =~= buf@);
    }
    match decode_fk_delta_stream_at(buf, 0, n) {
        Ok((v, _)) => Ok(v),
        Err(e) => Err(e),
    }
}

/// Slab payload: the number of keys, then the stream.
pub open spec fn slab_payload(fks: Seq<Fk>) -> Seq<u8> {
    le16(fks.len() as u16) + fk_stream(fks)
}

/// Writes a slab payload.
pub fn encode_slab_payload(fks: &[Fk]) -> (r: Result<Vec<u8>, StoreError>)
    ensures
        match r {
            Ok(v) => fks@.len() <= u16::MAX && fks_ok(fks@) && v@ == slab_payload(fks@),
            Err(e) => if fks@.len() > u16::MAX {
                e == StoreError::Corrupt("scripthash slab used overflow")
            } else {
                !fks_ok(fks@) && stream_fault(fks@) == Some(e)
            },
        },
{
    if fks.len() > 0xffff {
        return Err(StoreError::Corrupt("scripthash slab used overflow"));
    }
    let stream = match encode_fk_delta_stream(fks) {
        Ok(s) => s,
        Err(e) => return Err(e),
    };
    let mut out: Vec<u8> = Vec::new();
    push_u16(&mut out, fks.len() as u16);
    push_slice(&mut out, stream.as_slice());
    proof {
        assert(out@ =~= slab_payload(fks@));
    }
    Ok(out)
}

/// Keys of a slab; bytes after the stream do not matter.
pub open spec fn slab_fks(buf: Seq<u8>) -> Result<Seq<Fk>, StoreError> {
    if buf.len() < 2 {
        Err(StoreError::Corrupt("scripthash slab payload short"))
    } else {
        stream_fks(buf.subrange(2, buf.len() as int), u16_at(buf, 0) as nat)
    }
}

/// Reads a slab payload.
pub fn decode_slab_payload(buf: &[u8]) -> (r: Result<Vec<Fk>, StoreError>)
    ensures
        match (r, slab_fks(buf@)) {
            (Ok(v), Ok(fks)) => v@ == fks,
            (Err(e), Err(f)) => e == f,
            _ => false,
        },
{
    if buf.len() < 2 {
        return Err(StoreError::Corrupt("scripthash slab payload short"));
    }
    let used: u16 = get_u16(buf, 0);
    match decode_fk_delta_stream_at(buf, 2, used as usize) {
        Ok((v, _)) => Ok(v),
        Err(e) => Err(e),
    }
}

/// A slab gives back the keys that were packed into it, whatever pads it.
pub proof fn law_slab_roundtrip(fks: Seq<Fk>, pad: Seq<u8>)
    requires
        fks_ok(fks),
        fks.len() <= u16::MAX,
    ensures
        slab_fks(slab_payload(fks) + pad) == Ok::<Seq<Fk>, StoreError>(fks),
{
    let n = fks.len() as u16;
    let s = slab_payload(fks) + pad;
    lemma_p256_values();
    lemma_le_nat_of_seq(n as nat, 2);
    assert(s.subrange(0, 2) =~= le16(n));
    assert(s.subrange(2, s.len() as int) =~= fk_stream(fks) + pad);
    law_fk_stream_roundtrip(fks, pad);
}

/// A stream never takes more than nine bytes per key.
pub proof fn lemma_stream_len(fks: Seq<Fk>)
    requires
        fks_ok(fks),
    ensures
        fks.len() <= fk_stream(fks).len() <= 9 * fks.len(),
    decreases fks.len(),
{
    if fks.len() == 1 {
        lemma_uleb_len_u64(fks[0].0);
    } else if fks.len() > 1 {
        lemma_fks_ok_prefix(fks);
        lemma_stream_len(fks.drop_last());
        lemma_uleb_len_u64((fks.last().0 - fks[fks.len() - 2].0) as u64);
    }
}

} // verus!
