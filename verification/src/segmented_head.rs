//! Segmented head of the transaction table.
//!
//! Creates are kept in segments. Each entry holds its number relative to the
//! first create of its segment, counted from 1. The last segment may be open;
//! a sealed one has a filter of its keys. A segment is sealed when four fifths
//! of its slots are in use, or when the caller asks for it.
//!
//! A lookup asks the open segment first and then the sealed ones, newest first.

use vstd::prelude::*;
use crate::bytes::{bytes_at, get_u64, u64_at};
use crate::error::StoreError;
use crate::primitives::Fk;
use crate::sorting::{lemma_same_items, sort_ranked, sorted_by_rank, RankU64, Ranked};
use vstd::arithmetic::power2::pow2;

verus! {

/// Version of the segment list.
pub const META_VERSION: u32 = 1;

/// Header of the segment list.
pub const META_HEADER_LEN: usize = 24;

/// Bytes of one segment in the list.
pub const SEG_DESC_LEN: usize = 32;

/// The segment is sealed.
pub const FLAG_SEALED: u32 = 1;

/// Default width: 2^25 slots of four bytes per segment.
pub const SEGMENT_HEAD_BITS: u32 = 25;

/// Widest head.
pub const MAX_HEAD_BITS: u32 = 32;

/// How often lookups asked which part of the head.
#[derive(Debug, Clone, Copy, PartialEq, Eq, Structural)]
pub struct HeadLookupStats {
    pub open_probes: u64,
    pub sealed_fuse_checks: u64,
    pub sealed_fuse_skips: u64,
    pub sealed_head_probes: u64,
    pub rolls: u64,
    pub seals: u64,
}

/// Slot count and entry size of a segment.
#[derive(Debug, Clone, Copy, PartialEq, Eq, Structural)]
pub struct HeadLayout {
    pub bits: u32,
    pub entry_bytes: u8,
}

impl HeadLayout {
    /// The layout is one that segments can have.
    pub open spec fn valid(self) -> bool {
        1 <= self.bits <= 32
    }

    /// Number of slots.
    pub fn slots(&self) -> (r: u64)
        requires
            self.valid(),
        ensures
            r == pow2(self.bits as nat),
            2 <= r <= 0x1_0000_0000,
    {
        proof {
            vstd::arithmetic::power2::lemma2_to64();
            vstd::arithmetic::power2::lemma_pow2_unfold(self.bits as nat);
            vstd::arithmetic::power2::lemma_pow2_pos((self.bits - 1) as nat);
            if self.bits < 32 {
                vstd::arithmetic::power2::lemma_pow2_strictly_increases(self.bits as nat, 32);
            }
            vstd::bits::lemma_u64_shl_is_mul(1, self.bits as u64);
        }
        1u64 << self.bits as u64
    }
}

/// Keys that fill a segment: four fifths of its slots.
pub open spec fn max_keys(layout: HeadLayout) -> int {
    pow2(layout.bits as nat) as int * 4 / 5
}

/// Keys that fill a segment.
pub fn max_keys_for_layout(layout: HeadLayout) -> (r: u64)
    requires
        layout.valid(),
    ensures
        r == max_keys(layout),
        1 <= r,
{
    layout.slots() * 4 / 5
}

/// One create in a segment: probe key and relative number.
#[derive(Debug, Clone, Copy, PartialEq, Eq)]
pub struct RelEntry {
    pub mixed: [u8; 32],
    pub rel: u32,
}

/// Key of the filter: the first eight bytes of the probe key.
pub open spec fn fuse_key(mixed: Seq<u8>) -> u64 {
    u64_at(mixed, 0)
}

/// Key of the filter.
pub fn fuse_key_from_mixed(mixed: &[u8; 32]) -> (r: u64)
    ensures
        r == fuse_key(mixed@),
{
    get_u64(mixed.as_slice(), 0)
}

/// The keys rise.
pub open spec fn rising(keys: Seq<u64>) -> bool {
    forall|i: int, j: int| 0 <= i < j < keys.len() ==> (#[trigger] keys[i]) < (#[trigger] keys[j])
}

/// Creates with consecutive numbers.
pub struct Segment {
    pub first_fk: u64,
    pub count: u64,
    pub file_id: u32,
    pub sealed: bool,
    /// Entries in the order they came.
    pub entries: Vec<RelEntry>,
    /// Filter of a sealed segment: its filter keys in order.
    pub fuse: Option<Vec<u64>>,
    /// Filter keys of an open segment.
    pub open_keys: Vec<u64>,
}

/// Number of an entry (`None` for the empty mark 0).
pub open spec fn abs_fk(first_fk: u64, rel: int) -> Option<Fk> {
    if rel == 0 {
        None
    } else {
        Some(Fk(wrapped(first_fk + rel - 1)))
    }
}

/// A number modulo 2^64.
pub open spec fn wrapped(n: int) -> u64 {
    if n > u64::MAX {
        (n - 0x1_0000_0000_0000_0000) as u64
    } else {
        n as u64
    }
}

/// Number of an entry.
pub fn rel_to_abs(first_fk: u64, rel: u64) -> (r: Option<Fk>)
    ensures
        r == abs_fk(first_fk, rel as int),
{
    if rel == 0 {
        return None;
    }
    Some(Fk(first_fk.wrapping_add(rel - 1)))
}

/// Key and number of each create of a segment.
pub open spec fn seg_pairs(s: Segment) -> Seq<(Seq<u8>, u64)> {
    s.entries@.map_values(|e: RelEntry| (e.mixed@, wrapped(s.first_fk + e.rel - 1)))
}

/// Key and number of each create, oldest segment first.
pub open spec fn all_pairs(segs: Seq<Segment>) -> Seq<(Seq<u8>, u64)>
    decreases segs.len(),
{
    if segs.len() == 0 {
        Seq::empty()
    } else {
        all_pairs(segs.drop_last()) + seg_pairs(segs.last())
    }
}

impl Segment {
    /// Entries have numbers, and a sealed segment has a filter. The count is that of the
    /// segment list, which may lag behind the entries.
    pub open spec fn inv(&self) -> bool {
        &&& forall|i: int|
            0 <= i < self.entries@.len() ==> (#[trigger] self.entries@[i]).rel >= 1
        &&& self.sealed ==> self.fuse is Some && rising(self.fuse->0@)
    }

    /// A filter knows the keys of all entries.
    pub open spec fn filter_ok(&self) -> bool {
        if self.sealed {
            self.fuse is Some && forall|i: int|
                0 <= i < self.entries@.len() ==> self.fuse->0@.contains(
                    fuse_key((#[trigger] self.entries@[i]).mixed@),
                )
        } else {
            self.keys_complete()
        }
    }

    /// One filter key for each entry, in order.
    pub open spec fn keys_complete(&self) -> bool {
        self.open_keys@ == self.entries@.map_values(|e: RelEntry| fuse_key(e.mixed@))
    }
}

/// Segmented head.
pub struct SegmentedTxHead {
    pub layout: HeadLayout,
    pub segs: Vec<Segment>,
    pub next_file_id: u32,
}

impl SegmentedTxHead {
    /// Only the last segment may be open; segments and the filters are in order.
    pub open spec fn inv(&self) -> bool {
        &&& self.layout.valid()
        &&& forall|i: int| 0 <= i < self.segs@.len() ==> (#[trigger] self.segs@[i]).inv()
        &&& forall|i: int| 0 <= i < self.segs@.len() - 1 ==> (#[trigger] self.segs@[i]).sealed
    }

    /// All filters know the keys of their segments.
    pub open spec fn filters_ok(&self) -> bool {
        forall|i: int| 0 <= i < self.segs@.len() ==> (#[trigger] self.segs@[i]).filter_ok()
    }

    /// As many filter keys as creates in the open segment.
    pub open spec fn tail_counted(&self) -> bool {
        self.segs@.len() > 0 && !self.segs@.last().sealed ==> self.segs@.last().open_keys@.len()
            == self.segs@.last().count
    }

    /// Every segment starts where the one before it ends.
    pub open spec fn chained(&self) -> bool {
        descs_chained(descs_of(self.segs@))
    }

    /// Key and number of each create.
    pub open spec fn pairs(&self) -> Seq<(Seq<u8>, u64)> {
        all_pairs(self.segs@)
    }

    /// A new head without segments.
    pub fn create(layout: HeadLayout) -> (r: Result<Self, StoreError>)
        requires
            layout.valid(),
        ensures
            match r {
                Ok(h) => layout.entry_bytes == 4 && h.inv() && h.chained() && h.pairs()
                    == Seq::<(Seq<u8>, u64)>::empty() && h.layout == layout && h.segs@.len() == 0
                    && h.next_file_id == 0,
                Err(e) => layout.entry_bytes != 4 && e == StoreError::Corrupt(
                    "segmented tx.head requires 4 B relative entries",
                ),
            },
    {
        if layout.entry_bytes != 4 {
            return Err(StoreError::Corrupt("segmented tx.head requires 4 B relative entries"));
        }
        Ok(SegmentedTxHead { layout, segs: Vec::new(), next_file_id: 0 })
    }

    pub fn layout(&self) -> (r: HeadLayout)
        ensures
            r == self.layout,
    {
        self.layout
    }

    pub fn bits(&self) -> (r: u32)
        ensures
            r == self.layout.bits,
    {
        self.layout.bits
    }

    pub fn slots(&self) -> (r: u64)
        requires
            self.inv(),
        ensures
            r == pow2(self.layout.bits as nat),
    {
        self.layout.slots()
    }

    pub fn entry_bytes(&self) -> (r: u8)
        ensures
            r == 4,
    {
        4
    }

    pub fn max_keys_per_segment(&self) -> (r: u64)
        requires
            self.inv(),
        ensures
            r == max_keys(self.layout),
    {
        max_keys_for_layout(self.layout)
    }

    pub fn segment_count(&self) -> (r: usize)
        ensures
            r == self.segs@.len(),
    {
        self.segs.len()
    }

    /// Number of sealed segments.
    pub fn sealed_segment_count(&self) -> (r: usize)
        ensures
            r == count_sealed(self.segs@),
    {
        let mut n: usize = 0;
        let mut i: usize = 0;
        proof {
            assert(self.segs@.subrange(0, 0) =~= Seq::empty());
        }
        while i < self.segs.len()
            invariant
                i <= self.segs@.len(),
                n <= i,
                n == count_sealed(self.segs@.subrange(0, i as int)),
            decreases self.segs@.len() - i,
        {
            proof {
                let p = self.segs@.subrange(0, i + 1);
                assert(p.drop_last() =~= self.segs@.subrange(0, i as int));
                assert(p.last() == self.segs@[i as int]);
            }
            if self.segs[i].sealed {
                n += 1;
            }
            i += 1;
        }
        proof {
            assert(self.segs@.subrange(0, i as int) =~= self.segs@);
        }
        n
    }

    /// Number of creates.
    pub fn occupied(&self) -> (r: u64)
        requires
            sum_counts(self.segs@) <= u64::MAX,
        ensures
            r == sum_counts(self.segs@),
    {
        let mut n: u64 = 0;
        let mut i: usize = 0;
        proof {
            assert(self.segs@.subrange(0, 0) =~= Seq::empty());
        }
        while i < self.segs.len()
            invariant
                i <= self.segs@.len(),
                sum_counts(self.segs@) <= u64::MAX,
                n == sum_counts(self.segs@.subrange(0, i as int)),
            decreases self.segs@.len() - i,
        {
            proof {
                let p = self.segs@.subrange(0, i + 1);
                assert(p.drop_last() =~= self.segs@.subrange(0, i as int));
                assert(p.last() == self.segs@[i as int]);
                lemma_sum_prefix(self.segs@, i + 1);
            }
            n = n + self.segs[i].count;
            i += 1;
        }
        proof {
            assert(self.segs@.subrange(0, i as int) =~= self.segs@);
        }
        n
    }

    /// First create and number of creates of the open segment, if there is one.
    pub fn open_tail_range(&self) -> (r: Option<(u64, u64)>)
        ensures
            r == (if self.segs@.len() == 0 || self.segs@.last().sealed {
                None
            } else {
                Some((self.segs@.last().first_fk, self.segs@.last().count))
            }),
    {
        let n: usize = self.segs.len();
        if n == 0 {
            return None;
        }
        let last = &self.segs[n - 1];
        if last.sealed {
            return None;
        }
        Some((last.first_fk, last.count))
    }

    /// Number of filter keys kept for the open segment.
    pub fn open_keys_len(&self) -> (r: usize)
        ensures
            r == (if self.segs@.len() == 0 || self.segs@.last().sealed {
                0
            } else {
                self.segs@.last().open_keys@.len()
            }),
    {
        let n: usize = self.segs.len();
        if n == 0 {
            return 0;
        }
        let last = &self.segs[n - 1];
        if last.sealed {
            return 0;
        }
        last.open_keys.len()
    }

    /// Replaces the filter keys of the open segment (after a restart).
    pub fn replace_open_keys(&mut self, keys: Vec<u64>) -> (r: Result<(), StoreError>)
        requires
            old(self).inv(),
        ensures
            final(self).inv(),
            final(self).pairs() == old(self).pairs(),
            final(self).segs@.len() == old(self).segs@.len(),
            final(self).layout == old(self).layout,
            final(self).next_file_id == old(self).next_file_id,
            final(self).shape() == old(self).shape(),
            match r {
                Ok(_) => {
                    let n = old(self).segs@.len() - 1;
                    &&& n >= 0
                    &&& !old(self).segs@[n].sealed
                    &&& keys@.len() == old(self).segs@[n].count
                    &&& final(self).segs@[n] == (Segment { open_keys: keys, ..old(self).segs@[n] })
                    &&& forall|i: int| 0 <= i < n ==> final(self).segs@[i] == old(self).segs@[i]
                    &&& final(self).tail_counted()
                    &&& old(self).filters_ok() && keys@ == old(self).segs@[n].entries@.map_values(
                        |e: RelEntry| fuse_key(e.mixed@),
                    ) ==> final(self).filters_ok()
                },
                Err(e) => {
                    &&& *final(self) == *old(self)
                    &&& e == (if old(self).segs@.len() == 0 {
                        StoreError::Corrupt("tx.head replace_open_keys: no segment")
                    } else if old(self).segs@.last().sealed {
                        StoreError::Corrupt("tx.head replace_open_keys: tail sealed")
                    } else {
                        StoreError::Corrupt("tx.head replace_open_keys: key count mismatch")
                    })
                    &&& old(self).segs@.len() > 0 && !old(self).segs@.last().sealed ==> keys@.len()
                        != old(self).segs@.last().count
                },
            },
    {
        let n: usize = self.segs.len();
        if n == 0 {
            return Err(StoreError::Corrupt("tx.head replace_open_keys: no segment"));
        }
        if self.segs[n - 1].sealed {
            return Err(StoreError::Corrupt("tx.head replace_open_keys: tail sealed"));
        }
        if keys.len() as u64 != self.segs[n - 1].count {
            return Err(StoreError::Corrupt("tx.head replace_open_keys: key count mismatch"));
        }
        let ghost s0 = self.segs@;
        let last = &mut self.segs[n - 1];
        last.open_keys = keys;
        proof {
            assert(self.segs@.drop_last() =~= s0.drop_last());
            assert(seg_pairs(self.segs@.last()) =~= seg_pairs(s0.last()));
            assert(descs_of(self.segs@) =~= descs_of(s0));
            if old(self).filters_ok() {
                assert forall|i: int| 0 <= i < n - 1 implies (
                #[trigger] self.segs@[i]).filter_ok() by {
                    assert(s0[i].filter_ok());
                }
            }
        }
        Ok(())
    }
}

/// Number of sealed segments.
pub open spec fn count_sealed(segs: Seq<Segment>) -> nat
    decreases segs.len(),
{
    if segs.len() == 0 {
        0
    } else {
        count_sealed(segs.drop_last()) + if segs.last().sealed {
            1nat
        } else {
            0nat
        }
    }
}

/// Number of creates.
pub open spec fn sum_counts(segs: Seq<Segment>) -> nat
    decreases segs.len(),
{
    if segs.len() == 0 {
        0
    } else {
        sum_counts(segs.drop_last()) + segs.last().count as nat
    }
}

proof fn lemma_sum_prefix(segs: Seq<Segment>, i: int)
    requires
        0 <= i <= segs.len(),
    ensures
        sum_counts(segs.subrange(0, i)) <= sum_counts(segs),
    decreases segs.len() - i,
{
    if i < segs.len() {
        lemma_sum_prefix(segs, i + 1);
        let p = segs.subrange(0, i + 1);
        assert(p.drop_last() =~= segs.subrange(0, i));
    } else {
        assert(segs.subrange(0, i) =~= segs);
    }
}

/// A create to insert: probe key and number.
pub type NewEntry = ([u8; 32], Fk);

/// Keys and numbers of creates.
pub open spec fn new_pairs(entries: Seq<NewEntry>) -> Seq<(Seq<u8>, u64)> {
    entries.map_values(|e: NewEntry| (e.0@, e.1.0))
}

/// The keys in order without repeats.
pub(crate) fn sort_dedup(keys: &Vec<u64>) -> (r: Vec<u64>)
    ensures
        forall|k: u64| #[trigger] r@.contains(k) <==> keys@.contains(k),
        rising(r@),
        r@.len() <= keys@.len(),
{
    let mut v: Vec<RankU64> = Vec::new();
    let mut i: usize = 0;
    while i < keys.len()
        invariant
            i <= keys@.len(),
            v@.len() == i,
            forall|j: int| 0 <= j < i ==> (#[trigger] v@[j]).0 == keys@[j],
        decreases keys@.len() - i,
    {
        v.push(RankU64(keys[i]));
        i += 1;
    }
    let s = sort_ranked(&v);
    let mut out: Vec<u64> = Vec::new();
    i = 0;
    while i < s.len()
        invariant
            i <= s@.len(),
            sorted_by_rank(s@),
            forall|a: int, b: int|
                0 <= a < b < out@.len() ==> (#[trigger] out@[a]) < (#[trigger] out@[b]),
            i > 0 ==> out@.len() > 0 && out@.last() == s@[i - 1].0,
            i == 0 ==> out@.len() == 0,
            out@.len() <= i,
            forall|j: int| 0 <= j < i ==> out@.contains((#[trigger] s@[j]).0),
            forall|a: int|
                0 <= a < out@.len() ==> exists|j: int|
                    0 <= j < i && (#[trigger] s@[j]).0 == #[trigger] out@[a],
        decreases s@.len() - i,
    {
        let x: u64 = s[i].0;
        let ghost before = out@;
        proof {
            if i > 0 {
                assert(s@[i - 1].rank() <= s@[i as int].rank());
            }
        }
        if i == 0 || out[out.len() - 1] != x {
            out.push(x);
        }
        proof {
            assert forall|j: int| 0 <= j < i + 1 implies out@.contains((#[trigger] s@[j]).0) by {
                if j < i {
                    assert(before.contains(s@[j].0));
                    let a = choose|a: int| 0 <= a < before.len() && before[a] == s@[j].0;
                    assert(out@[a] == s@[j].0);
                } else {
                    assert(out@[out@.len() - 1] == x);
                }
            }
            assert forall|a: int| 0 <= a < out@.len() implies exists|j: int|
                0 <= j < i + 1 && (#[trigger] s@[j]).0 == #[trigger] out@[a] by {
                if a < before.len() {
                    assert(out@[a] == before[a]);
                    let j = choose|j: int| 0 <= j < i && (#[trigger] s@[j]).0 == before[a];
                    assert(s@[j].0 == out@[a]);
                } else {
                    assert(s@[i as int].0 == out@[a]);
                }
            }
            assert forall|a: int, b: int| 0 <= a < b < out@.len() implies (#[trigger] out@[a]) < (
            #[trigger] out@[b]) by {
                if b == before.len() {
                    assert(out@[a] == before[a]);
                    if a < before.len() - 1 {
                        assert(before[a] < before[before.len() - 1]);
                    }
                }
            }
        }
        i += 1;
    }
    proof {
        assert forall|k: u64| #[trigger] out@.contains(k) <==> keys@.contains(k) by {
            if out@.contains(k) {
                let a = choose|a: int| 0 <= a < out@.len() && out@[a] == k;
                let j = choose|j: int| 0 <= j < s@.len() && (#[trigger] s@[j]).0 == out@[a];
                let b = lemma_same_items(s@, v@, j);
                assert(keys@[b] == k);
            }
            if keys@.contains(k) {
                let b = choose|b: int| 0 <= b < keys@.len() && keys@[b] == k;
                assert(v@[b].0 == k);
                let j = lemma_same_items(v@, s@, b);
                assert(out@.contains(s@[j].0));
            }
        }
    }
    out
}

/// A create may go into a segment that starts at `first`.
pub open spec fn near(first: int, fk: int) -> bool {
    first <= fk && fk - first < u32::MAX
}

/// Where the segment starts into which create `j` of a batch falls.
pub open spec fn start_for(sh: Shape, entries: Seq<NewEntry>, j: int, max: int) -> int {
    let p = filled(sh, entries.subrange(0, j), max);
    opened(p, entries[j].1.0).descs.last().first_fk as int
}

/// Why create `j` of a batch is refused: it is null where a segment would start with it, it
/// lies before its segment, or it is too far from its start for a relative number.
pub open spec fn entry_error(sh: Shape, entries: Seq<NewEntry>, j: int, max: int) -> Option<
    StoreError,
> {
    let first = start_for(sh, entries, j, max);
    let fk = entries[j].1.0;
    if !tail_open(filled(sh, entries.subrange(0, j), max).descs) && fk == 0 {
        Some(StoreError::InvalidFk)
    } else if near(first, fk as int) {
        None
    } else {
        Some(far_error(first, fk as int))
    }
}

/// The error of a create that may not go into a segment that starts at `first`.
pub open spec fn far_error(first: int, fk: int) -> StoreError {
    if fk < first {
        StoreError::Corrupt("tx.head insert fk before segment")
    } else {
        StoreError::Corrupt("tx.head relative fk overflow")
    }
}

/// The first create from `j` on that is refused (the length if there is none).
pub open spec fn first_refused(sh: Shape, entries: Seq<NewEntry>, j: int, max: int) -> int
    decreases entries.len() - j,
{
    if j >= entries.len() {
        entries.len() as int
    } else if entry_error(sh, entries, j, max) is Some {
        j
    } else {
        first_refused(sh, entries, j + 1, max)
    }
}

/// Creates of a batch that go in before the open segment has to be sealed: none where it is
/// sealed first, else as many as it has room for.
pub open spec fn before_seal(sh: Shape, force: bool, max: int) -> int {
    if rolled(sh, force, max) != sh {
        0
    } else {
        max - sh.descs.last().count
    }
}

/// The creates up to the last segment that is full before create `n`.
pub open spec fn full_segments(sh: Shape, entries: Seq<NewEntry>, n: int, max: int) -> int
    decreases n,
{
    if n <= 0 || !tail_open(filled(sh, entries.subrange(0, n), max).descs) {
        n
    } else {
        full_segments(sh, entries, n - 1, max)
    }
}

/// How many creates of a refused batch went in: those of the segments that are full before
/// the refused one, or those before the segment that cannot be sealed.
pub open spec fn taken_of(
    sh: Shape,
    counted: bool,
    entries: Seq<NewEntry>,
    force: bool,
    max: int,
) -> int {
    let r = rolled(sh, force, max);
    let n = first_refused(r, entries, 0, max);
    if !counted && before_seal(sh, force, max) <= n {
        before_seal(sh, force, max)
    } else {
        full_segments(r, entries, n, max)
    }
}

/// Why a batch is refused. An open segment without all its filter keys cannot be sealed.
pub open spec fn insert_error(
    sh: Shape,
    counted: bool,
    entries: Seq<NewEntry>,
    force: bool,
    max: int,
) -> Option<StoreError> {
    let r = rolled(sh, force, max);
    let n = first_refused(r, entries, 0, max);
    if entries.len() == 0 {
        None
    } else if !counted && before_seal(sh, force, max) <= n {
        Some(
            StoreError::Corrupt(
                "tx.head seal open_keys incomplete (reopen mid-segment without rebuild)",
            ),
        )
    } else if n < entries.len() {
        entry_error(r, entries, n, max)
    } else {
        None
    }
}

/// Where the segment that takes the next create starts.
pub open spec fn next_start(segs: Seq<Segment>, entries: Seq<NewEntry>, i: int) -> int {
    if segs.len() > 0 && !segs.last().sealed {
        segs.last().first_fk as int
    } else {
        entries[i].1.0 as int
    }
}

/// What holds when the segment that takes the next creates refused some of them, or could
/// not be sealed.
spec fn chunk_refused(
    segs: Seq<Segment>,
    counted: bool,
    entries: Seq<NewEntry>,
    i: int,
    hi: int,
    max: int,
    e: StoreError,
) -> bool {
    let open = segs.len() > 0 && !segs.last().sealed;
    let first = next_start(segs, entries, i);
    let count = if open {
        segs.last().count as int
    } else {
        0
    };
    ||| hi == i && !open && entries[i].1.0 == 0 && e == StoreError::InvalidFk
    ||| hi == i && (open || entries[i].1.0 != 0) && exists|j: int|
        i <= j < entries.len() && j - i < max - count && !near(
            first,
            (#[trigger] entries[j]).1.0 as int,
        ) && e == far_error(first, entries[j].1.0 as int) && all_near(entries, i, j, first)
    ||| {
        &&& !counted
        &&& open
        &&& hi == i + (max - count)
        &&& all_near(entries, i, hi, first)
        &&& e == StoreError::Corrupt(
            "tx.head seal open_keys incomplete (reopen mid-segment without rebuild)",
        )
    }
}

/// The creates from `i` to `j` may go into a segment that starts at `first`.
spec fn all_near(entries: Seq<NewEntry>, i: int, j: int, first: int) -> bool {
    forall|m: int| i <= m < j ==> near(first, (#[trigger] entries[m]).1.0 as int)
}

/// First number that the open segment, or else the batch, counts from.
pub open spec fn base_fk(segs: Seq<Segment>, entries: Seq<NewEntry>) -> int {
    if segs.len() > 0 && !segs.last().sealed {
        segs.last().first_fk as int
    } else {
        entries[0].1.0 as int
    }
}

/// Creates that fit behind what is there: not null, in order, not before the
/// open segment, and close enough together for relative numbers.
pub open spec fn entries_fit(segs: Seq<Segment>, entries: Seq<NewEntry>) -> bool {
    entries.len() > 0 ==> {
        &&& 1 <= base_fk(segs, entries) <= entries[0].1.0
        &&& forall|i: int, j: int|
            0 <= i < j < entries.len() ==> (#[trigger] entries[i]).1.0 <= (
            #[trigger] entries[j]).1.0
        &&& entries.last().1.0 - base_fk(segs, entries) < u32::MAX
    }
}

impl SegmentedTxHead {
    /// Seals the open segment, if it has creates.
    fn seal_tail(&mut self) -> (r: Result<(), StoreError>)
        requires
            old(self).inv(),
            old(self).segs@.len() > 0,
        ensures
            final(self).inv(),
            final(self).pairs() == old(self).pairs(),
            final(self).layout == old(self).layout,
            old(self).filters_ok() ==> final(self).filters_ok(),
            old(self).tail_counted() ==> r is Ok && final(self).tail_counted(),
            r is Ok && old(self).segs@.last().count > 0 ==> old(self).tail_counted(),
            final(self).segs@.len() == old(self).segs@.len(),
            forall|i: int|
                0 <= i < old(self).segs@.len() ==> (#[trigger] final(self).segs@[i]).first_fk
                    == old(self).segs@[i].first_fk && final(self).segs@[i].count
                    == old(self).segs@[i].count && final(self).segs@[i].file_id
                    == old(self).segs@[i].file_id,
            final(self).next_file_id == old(self).next_file_id,
            final(self).segs@.drop_last() == old(self).segs@.drop_last(),
            match r {
                Ok(_) => final(self).segs@.last().sealed == (old(self).segs@.last().sealed || old(
                    self,
                ).segs@.last().count > 0),
                Err(e) => *final(self) == *old(self) && !old(self).tail_counted() && e
                    == StoreError::Corrupt(
                    "tx.head seal open_keys incomplete (reopen mid-segment without rebuild)",
                ),
            },
    {
        let n: usize = self.segs.len();
        if self.segs[n - 1].sealed || self.segs[n - 1].count == 0 {
            return Ok(());
        }
        if self.segs[n - 1].open_keys.len() as u64 != self.segs[n - 1].count {
            return Err(
                StoreError::Corrupt(
                    "tx.head seal open_keys incomplete (reopen mid-segment without rebuild)",
                ),
            );
        }
        let fuse = sort_dedup(&self.segs[n - 1].open_keys);
        let ghost s0 = self.segs@;
        let last = &mut self.segs[n - 1];
        last.sealed = true;
        last.fuse = Some(fuse);
        last.open_keys = Vec::new();
        proof {
            let s1 = self.segs@;
            assert(s1.drop_last() =~= s0.drop_last());
            assert(seg_pairs(s1.last()) =~= seg_pairs(s0.last()));
            if old(self).filters_ok() {
                assert forall|i: int| 0 <= i < s1.len() implies (#[trigger] s1[i]).filter_ok() by {
                    assert(s0[i].filter_ok());
                    if i == n - 1 {
                        let e = s0[i].entries@;
                        assert forall|j: int| 0 <= j < e.len() implies s1[i].fuse->0@.contains(
                            fuse_key((#[trigger] e[j]).mixed@),
                        ) by {
                            assert(s0[i].open_keys@[j] == fuse_key(e[j].mixed@));
                            assert(s0[i].open_keys@.contains(fuse_key(e[j].mixed@)));
                        }
                    }
                }
            }
        }
        Ok(())
    }

    /// Opens a new segment behind a sealed one.
    fn open_new(&mut self, first_fk: u64)
        requires
            old(self).inv(),
            first_fk >= 1,
            old(self).segs@.len() > 0 ==> old(self).segs@.last().sealed,
        ensures
            final(self).inv(),
            final(self).pairs() == old(self).pairs(),
            final(self).layout == old(self).layout,
            old(self).filters_ok() ==> final(self).filters_ok(),
            final(self).tail_counted(),
            final(self).segs@.len() == old(self).segs@.len() + 1,
            final(self).segs@.drop_last() == old(self).segs@,
            !final(self).segs@.last().sealed,
            final(self).segs@.last().first_fk == first_fk,
            final(self).segs@.last().count == 0,
            final(self).segs@.last().file_id == old(self).next_file_id,
            final(self).next_file_id == id_after(old(self).next_file_id),
    {
        let file_id: u32 = self.next_file_id;
        self.next_file_id = if file_id == 0xffff_ffff {
            0
        } else {
            file_id + 1
        };
        let ghost s0 = self.segs@;
        self.segs.push(
            Segment {
                first_fk,
                count: 0,
                file_id,
                sealed: false,
                entries: Vec::new(),
                fuse: None,
                open_keys: Vec::new(),
            },
        );
        proof {
            let s1 = self.segs@;
            assert(s1.drop_last() =~= s0);
            assert(all_pairs(s1) =~= all_pairs(s0));
            assert(s1.last().open_keys@ =~= s1.last().entries@.map_values(
                |e: RelEntry| fuse_key(e.mixed@),
            ));
            assert forall|i: int| 0 <= i < s1.len() - 1 implies (#[trigger] s1[i]).sealed by {
                if i < s0.len() - 1 {
                    assert(s0[i].sealed);
                }
            }
        }
    }

    /// Appends creates to the open segment.
    #[verifier::rlimit(40)]
    fn push_batch(&mut self, entries: &[NewEntry], lo: usize, hi: usize) -> (r: Result<
        (),
        StoreError,
    >)
        requires
            old(self).inv(),
            old(self).segs@.len() > 0,
            !old(self).segs@.last().sealed,
            lo < hi <= entries@.len(),
            old(self).segs@.last().count + (hi - lo) <= u64::MAX,
        ensures
            final(self).inv(),
            final(self).layout == old(self).layout,
            match r {
                Ok(_) => {
                    &&& final(self).pairs() == old(self).pairs() + new_pairs(
                        entries@.subrange(lo as int, hi as int),
                    )
                    &&& old(self).filters_ok() ==> final(self).filters_ok()
                    &&& old(self).tail_counted() == final(self).tail_counted()
                    &&& all_near(
                        entries@,
                        lo as int,
                        hi as int,
                        old(self).segs@.last().first_fk as int,
                    )
                    &&& final(self).segs@.len() == old(self).segs@.len()
                    &&& final(self).segs@.drop_last() == old(self).segs@.drop_last()
                    &&& !final(self).segs@.last().sealed
                    &&& final(self).segs@.last().first_fk == old(self).segs@.last().first_fk
                    &&& final(self).segs@.last().file_id == old(self).segs@.last().file_id
                    &&& final(self).next_file_id == old(self).next_file_id
                    &&& final(self).segs@.last().count == old(self).segs@.last().count + (hi - lo)
                },
                Err(e) => {
                    &&& *final(self) == *old(self)
                    &&& exists|k: int|
                        lo <= k < hi && !near(
                            old(self).segs@.last().first_fk as int,
                            (#[trigger] entries@[k]).1.0 as int,
                        ) && e == far_error(
                            old(self).segs@.last().first_fk as int,
                            entries@[k].1.0 as int,
                        ) && all_near(
                            entries@,
                            lo as int,
                            k,
                            old(self).segs@.last().first_fk as int,
                        )
                },
            },
    {
        let n: usize = self.segs.len();
        let first_fk: u64 = self.segs[n - 1].first_fk;
        let mut k: usize = lo;
        while k < hi
            invariant
                lo <= k <= hi <= entries@.len(),
                *self == *old(self),
                n == self.segs@.len(),
                n > 0,
                first_fk == self.segs@.last().first_fk,
                self.inv(),
                forall|j: int|
                    lo <= j < k ==> first_fk <= (#[trigger] entries@[j]).1.0 && entries@[j].1.0
                        - first_fk < u32::MAX,
            decreases hi - k,
        {
            let fk: u64 = entries[k].1.0;
            if fk < first_fk {
                assert(entries@[k as int].1.0 < first_fk);
                return Err(StoreError::Corrupt("tx.head insert fk before segment"));
            }
            if fk - first_fk >= 0xffff_ffff {
                assert(entries@[k as int].1.0 - first_fk >= u32::MAX);
                return Err(StoreError::Corrupt("tx.head relative fk overflow"));
            }
            k += 1;
        }
        let ghost s0 = self.segs@;
        let ghost e0 = s0.last().entries@;
        let ghost k0 = s0.last().open_keys@;
        let last = &mut self.segs[n - 1];
        let ghost l0 = *last;
        k = lo;
        proof {
            assert(new_pairs(entries@.subrange(lo as int, lo as int)) =~= Seq::empty());
            assert(seg_pairs(l0) + new_pairs(entries@.subrange(lo as int, lo as int)) =~= seg_pairs(
                l0,
            ));
        }
        while k < hi
            invariant
                lo <= k <= hi <= entries@.len(),
                first_fk == l0.first_fk,
                l0.inv(),
                !l0.sealed,
                l0.count + (hi - lo) <= u64::MAX,
                forall|j: int|
                    lo <= j < hi ==> first_fk <= (#[trigger] entries@[j]).1.0 && entries@[j].1.0
                        - first_fk < u32::MAX,
                last.first_fk == l0.first_fk,
                last.file_id == l0.file_id,
                last.sealed == l0.sealed,
                last.fuse == l0.fuse,
                last.count == l0.count + (k - lo),
                last.inv(),
                seg_pairs(*last) == seg_pairs(l0) + new_pairs(
                    entries@.subrange(lo as int, k as int),
                ),
                last.open_keys@.len() == l0.open_keys@.len() + (k - lo),
                l0.keys_complete() ==> last.keys_complete(),
            decreases hi - k,
        {
            let e: NewEntry = entries[k];
            let ghost b = *last;
            let rel: u32 = (e.1.0 - first_fk) as u32 + 1;
            last.entries.push(RelEntry { mixed: e.0, rel });
            last.open_keys.push(fuse_key_from_mixed(&e.0));
            last.count = last.count + 1;
            proof {
                let p = entries@.subrange(lo as int, k + 1);
                assert(p =~= entries@.subrange(lo as int, k as int).push(e));
                assert(new_pairs(p) =~= new_pairs(entries@.subrange(lo as int, k as int)).push(
                    (e.0@, e.1.0),
                ));
                assert(seg_pairs(*last) =~= seg_pairs(b).push((e.0@, e.1.0)));
                assert(seg_pairs(*last) =~= seg_pairs(l0) + new_pairs(p));
                if b.keys_complete() {
                    assert(last.open_keys@ =~= last.entries@.map_values(
                        |x: RelEntry| fuse_key(x.mixed@),
                    ));
                }
                assert forall|i: int| 0 <= i < last.entries@.len() implies (
                #[trigger] last.entries@[i]).rel >= 1 by {
                    if i < b.entries@.len() {
                        assert(b.entries@[i] == last.entries@[i]);
                    }
                }
            }
            k += 1;
        }
        proof {
            let s1 = self.segs@;
            assert(s1.drop_last() =~= s0.drop_last());
            assert(all_pairs(s1) =~= all_pairs(s0) + new_pairs(
                entries@.subrange(lo as int, hi as int),
            ));
        }
        Ok(())
    }
}

/// Description of a segment in the segment list.
#[derive(Debug, Clone, Copy, PartialEq, Eq, Structural)]
pub struct SegDesc {
    pub first_fk: u64,
    pub count: u64,
    pub file_id: u32,
    pub flags: u32,
}

/// Flags of a segment.
pub open spec fn flags_of(sealed: bool) -> u32 {
    if sealed {
        1
    } else {
        0
    }
}

/// Description of a segment.
pub open spec fn desc_of(s: Segment) -> SegDesc {
    SegDesc {
        first_fk: s.first_fk,
        count: s.count,
        file_id: s.file_id,
        flags: flags_of(s.sealed),
    }
}

/// Descriptions of the segments.
pub open spec fn descs_of(segs: Seq<Segment>) -> Seq<SegDesc> {
    segs.map_values(|s: Segment| desc_of(s))
}

/// Descriptions of the segments, and the next free file number.
pub ghost struct Shape {
    pub descs: Seq<SegDesc>,
    pub next: u32,
}

/// File number behind `id`.
pub open spec fn id_after(id: u32) -> u32 {
    if id == u32::MAX {
        0
    } else {
        (id + 1) as u32
    }
}

/// There is an open segment at the end.
pub open spec fn tail_open(descs: Seq<SegDesc>) -> bool {
    descs.len() > 0 && descs.last().flags == 0
}

/// The last segment sealed.
pub open spec fn seal_last(descs: Seq<SegDesc>) -> Seq<SegDesc> {
    descs.drop_last().push(SegDesc { flags: 1, ..descs.last() })
}

/// What the segments are before a batch: a full open segment is sealed, and
/// with `force` every open segment that has creates.
pub open spec fn rolled(sh: Shape, force: bool, max: int) -> Shape {
    if tail_open(sh.descs) && sh.descs.last().count > 0 && (force || sh.descs.last().count >= max) {
        Shape { descs: seal_last(sh.descs), next: sh.next }
    } else {
        sh
    }
}

/// The last segment with `k` more creates, sealed when it is full.
pub open spec fn grown(descs: Seq<SegDesc>, k: int, max: int) -> Seq<SegDesc> {
    let count = (descs.last().count + k) as u64;
    descs.drop_last().push(SegDesc { count, flags: flags_of(count >= max), ..descs.last() })
}

/// An empty open segment at the end, if there is no open one.
pub open spec fn opened(sh: Shape, fk: u64) -> Shape {
    if tail_open(sh.descs) {
        sh
    } else {
        Shape {
            descs: sh.descs.push(SegDesc { first_fk: fk, count: 0, file_id: sh.next, flags: 0 }),
            next: id_after(sh.next),
        }
    }
}

/// What the segments are after the creates went in one by one.
pub open spec fn filled(sh: Shape, entries: Seq<NewEntry>, max: int) -> Shape
    decreases entries.len(),
{
    if entries.len() == 0 {
        sh
    } else {
        let p = filled(sh, entries.drop_last(), max);
        let o = opened(p, entries.last().1.0);
        Shape { descs: grown(o.descs, 1, max), next: o.next }
    }
}

/// Creates that fit into the open segment go there together.
proof fn lemma_filled_chunk(sh: Shape, entries: Seq<NewEntry>, max: int)
    requires
        entries.len() > 0,
        max <= 0x1_0000_0000,
        ({
            let o = opened(sh, entries[0].1.0);
            o.descs.last().count + entries.len() <= max
        }),
    ensures
        filled(sh, entries, max) == (Shape {
            descs: grown(opened(sh, entries[0].1.0).descs, entries.len() as int, max),
            next: opened(sh, entries[0].1.0).next,
        }),
    decreases entries.len(),
{
    let o = opened(sh, entries[0].1.0);
    let p = entries.drop_last();
    if p.len() == 0 {
        assert(filled(sh, p, max) == sh);
    } else {
        lemma_filled_chunk(sh, p, max);
        let m = filled(sh, p, max);
        assert(m.descs.last().flags == 0);
        assert(opened(m, entries.last().1.0) == m);
        assert(grown(m.descs, 1, max) =~= grown(o.descs, entries.len() as int, max));
    }
}

/// Filling in two steps is filling in one.
proof fn lemma_filled_concat(sh: Shape, a: Seq<NewEntry>, b: Seq<NewEntry>, max: int)
    ensures
        filled(filled(sh, a, max), b, max) == filled(sh, a + b, max),
    decreases b.len(),
{
    if b.len() == 0 {
        assert(a + b =~= a);
    } else {
        lemma_filled_concat(sh, a, b.drop_last(), max);
        assert((a + b).drop_last() =~= a + b.drop_last());
    }
}

proof fn lemma_new_pairs_concat(a: Seq<NewEntry>, b: Seq<NewEntry>)
    ensures
        new_pairs(a + b) == new_pairs(a) + new_pairs(b),
{
    assert(new_pairs(a + b) =~= new_pairs(a) + new_pairs(b));
}

/// The creates from `i` on fit behind an open segment.
pub open spec fn tail_fits(
    segs: Seq<Segment>,
    entries: Seq<NewEntry>,
    i: int,
    base: int,
) -> bool {
    &&& forall|j: int|
        i <= j < entries.len() ==> 1 <= base <= (#[trigger] entries[j]).1.0 && entries[j].1.0 - base
            < u32::MAX
    &&& forall|j: int, k: int|
        i <= j < k < entries.len() ==> (#[trigger] entries[j]).1.0 <= (#[trigger] entries[k]).1.0
    &&& segs.len() > 0 && !segs.last().sealed && i < entries.len() ==> base
        <= segs.last().first_fk <= entries[i].1.0
}

impl SegmentedTxHead {
    /// Descriptions of the segments, and the next free file number.
    pub open spec fn shape(&self) -> Shape {
        Shape { descs: descs_of(self.segs@), next: self.next_file_id }
    }

    /// Inserts as many creates as one segment takes.
    #[verifier::rlimit(40)]
    fn insert_chunk(
        &mut self,
        entries: &[NewEntry],
        i: usize,
        max: u64,
        Ghost(base): Ghost<int>,
    ) -> (r: (usize, Result<(), StoreError>))
        requires
            old(self).inv(),
            i < entries@.len(),
            max == max_keys(old(self).layout),
            1 <= max <= 0x1_0000_0000,
            old(self).segs@.len() > 0 && !old(self).segs@.last().sealed
                ==> old(self).segs@.last().count < max,
        ensures
            final(self).inv(),
            final(self).layout == old(self).layout,
            i <= r.0 <= entries@.len(),
            final(self).pairs() == old(self).pairs() + new_pairs(
                entries@.subrange(i as int, r.0 as int),
            ),
            old(self).filters_ok() ==> final(self).filters_ok(),
            old(self).tail_counted() && tail_fits(old(self).segs@, entries@, i as int, base)
                ==> r.1 is Ok && final(self).tail_counted() && tail_fits(
                final(self).segs@,
                entries@,
                r.0 as int,
                base,
            ),
            match r.1 {
                Ok(_) => {
                    &&& i < r.0
                    &&& r.0 < entries@.len() ==> final(self).segs@.last().sealed
                    &&& all_near(
                        entries@,
                        i as int,
                        r.0 as int,
                        next_start(old(self).segs@, entries@, i as int),
                    )
                    &&& tail_open(old(self).shape().descs) || entries@[i as int].1.0 != 0
                    &&& r.0 - i <= max - (if tail_open(old(self).shape().descs) {
                        old(self).segs@.last().count as int
                    } else {
                        0
                    })
                    &&& !old(self).tail_counted() ==> !final(self).tail_counted()
                        && final(self).segs@.last().count == old(self).segs@.last().count + (r.0
                        - i)
                    &&& final(self).shape() == filled(
                        old(self).shape(),
                        entries@.subrange(i as int, r.0 as int),
                        max as int,
                    )
                    &&& !final(self).segs@.last().sealed ==> final(self).segs@.last().count < max
                    &&& final(self).segs@.len() > 0
                    &&& !final(self).segs@.last().sealed ==> final(self).segs@.last().first_fk
                        == next_start(old(self).segs@, entries@, i as int)
                    &&& old(self).tail_counted() ==> final(self).tail_counted()
                },
                Err(e) => chunk_refused(
                    old(self).segs@,
                    old(self).tail_counted(),
                    entries@,
                    i as int,
                    r.0 as int,
                    max as int,
                    e,
                ),
            },
    {
        proof {
            assert(new_pairs(entries@.subrange(i as int, i as int)) =~= Seq::empty());
            if old(self).segs@.len() > 0 {
                assert(old(self).shape().descs.last() == desc_of(old(self).segs@.last()));
            }
            assert(self.pairs() + new_pairs(entries@.subrange(i as int, i as int))
                =~= self.pairs());
        }
        let n: usize = self.segs.len();
        let fk: u64 = entries[i].1.0;
        if n == 0 || self.segs[n - 1].sealed {
            if fk == 0 {
                return (i, Err(StoreError::InvalidFk));
            }
            self.open_new(fk);
            proof {
                let a = self.shape().descs;
                let b = opened(old(self).shape(), fk).descs;
                assert forall|j: int| 0 <= j < a.len() implies a[j] == b[j] by {
                    if j < n {
                        assert(self.segs@.drop_last()[j] == old(self).segs@[j]);
                    }
                }
                assert(a =~= b);
            }
        }
        let ghost o = *self;
        let m: usize = self.segs.len();
        let room: u64 = max - self.segs[m - 1].count;
        let left: usize = entries.len() - i;
        let take: usize = if (left as u64) < room {
            left
        } else {
            room as usize
        };
        let hi: usize = i + take;
        match self.push_batch(entries, i, hi) {
            Ok(_) => {},
            Err(e) => {
                return (i, Err(e));
            },
        }
        let ghost q = *self;
        proof {
            lemma_filled_chunk(old(self).shape(), entries@.subrange(i as int, hi as int), max as int);
        }
        if self.segs[m - 1].count >= max {
            match self.seal_tail() {
                Ok(_) => {},
                Err(e) => {
                    return (hi, Err(e));
                },
            }
        }
        proof {
            let want = grown(o.shape().descs, take as int, max as int);
            let got = self.shape().descs;
            assert forall|j: int| 0 <= j < got.len() implies got[j] == want[j] by {
                if j < m - 1 {
                    assert(o.segs@.drop_last()[j] == q.segs@.drop_last()[j]);
                    assert(q.segs@.drop_last()[j] == self.segs@.drop_last()[j]);
                }
            }
            assert(got =~= want);
        }
        (hi, Ok(()))
    }

    /// Inserts creates behind those that are there.
    ///
    /// A full open segment is sealed; with `force_roll` an open segment with
    /// creates is sealed first.
    #[verifier::rlimit(40)]
    pub fn insert_many(&mut self, entries: &[NewEntry], force_roll: bool) -> (r: Result<
        (),
        StoreError,
    >)
        requires
            old(self).inv(),
        ensures
            final(self).inv(),
            final(self).layout == old(self).layout,
            r is Ok ==> final(self).pairs() == old(self).pairs() + new_pairs(entries@),
            r is Ok && entries@.len() > 0 ==> final(self).shape() == filled(
                rolled(old(self).shape(), force_roll, max_keys(old(self).layout)),
                entries@,
                max_keys(old(self).layout),
            ),
            entries@.len() == 0 ==> r is Ok && *final(self) == *old(self),
            old(self).filters_ok() ==> final(self).filters_ok(),
            old(self).tail_counted() && entries_fit(old(self).segs@, entries@) ==> r is Ok,
            old(self).tail_counted() && r is Ok ==> final(self).tail_counted(),
            match r {
                Ok(_) => insert_error(
                    old(self).shape(),
                    old(self).tail_counted(),
                    entries@,
                    force_roll,
                    max_keys(old(self).layout),
                ) is None,
                Err(e) => insert_error(
                    old(self).shape(),
                    old(self).tail_counted(),
                    entries@,
                    force_roll,
                    max_keys(old(self).layout),
                ) == Some(e),
            },
            r is Err ==> final(self).pairs() == old(self).pairs() + new_pairs(
                entries@.subrange(
                    0,
                    taken_of(
                        old(self).shape(),
                        old(self).tail_counted(),
                        entries@,
                        force_roll,
                        max_keys(old(self).layout),
                    ),
                ),
            ),
    {
        proof {
            assert(new_pairs(entries@.subrange(0, 0)) =~= Seq::empty());
            assert(old(self).pairs() + new_pairs(entries@.subrange(0, 0)) =~= old(self).pairs());
        }
        if entries.len() == 0 {
            proof {
                assert(entries@.subrange(0, 0) =~= entries@);
            }
            return Ok(());
        }
        let max: u64 = max_keys_for_layout(self.layout);
        proof {
            vstd::arithmetic::power2::lemma2_to64();
            if self.layout.bits < 32 {
                vstd::arithmetic::power2::lemma_pow2_strictly_increases(
                    self.layout.bits as nat,
                    32,
                );
            }
        }
        let n0: usize = self.segs.len();
        let ghost sh0 = self.shape();
        let ghost fits = self.tail_counted() && entries_fit(self.segs@, entries@);
        let ghost base = base_fk(self.segs@, entries@);
        if n0 > 0 && !self.segs[n0 - 1].sealed && self.segs[n0 - 1].count > 0 && (force_roll
            || self.segs[n0 - 1].count >= max) {
            proof {
                let d = descs_of(self.segs@);
                assert(d.last() == desc_of(self.segs@.last()));
                assert(tail_open(d));
                assert(seal_last(d).last().flags == 1);
                assert(rolled(sh0, force_roll, max as int) != sh0);
                lemma_refused_bound(
                    rolled(sh0, force_roll, max as int),
                    entries@,
                    0,
                    max as int,
                );
            }
            match self.seal_tail() {
                Ok(_) => {},
                Err(e) => {
                    return Err(e);
                },
            }
            proof {
                assert(self.shape().descs =~= rolled(sh0, force_roll, max as int).descs);
            }
        }
        let ghost sh1 = self.shape();
        proof {
            assert(sh1 == rolled(sh0, force_roll, max as int));
            if n0 > 0 {
                assert(sh0.descs.last() == desc_of(old(self).segs@.last()));
            }
        }
        let mut i: usize = 0;
        while i < entries.len()
            invariant
                i <= entries@.len(),
                self.inv(),
                self.layout == old(self).layout,
                max == max_keys(self.layout),
                1 <= max <= 0x1_0000_0000,
                self.pairs() == old(self).pairs() + new_pairs(entries@.subrange(0, i as int)),
                self.shape() == filled(sh1, entries@.subrange(0, i as int), max as int),
                old(self).filters_ok() ==> self.filters_ok(),
                self.segs@.len() > 0 && !self.segs@.last().sealed ==> self.segs@.last().count < max,
                fits == (old(self).tail_counted() && entries_fit(old(self).segs@, entries@)),
                fits ==> self.tail_counted() && tail_fits(self.segs@, entries@, i as int, base),
                base == base_fk(old(self).segs@, entries@),
                old(self).tail_counted() ==> self.tail_counted(),
                entries@.len() > 0,
                0 < i < entries@.len() ==> !tail_open(self.shape().descs),
                sh0 == old(self).shape(),
                sh1 == rolled(sh0, force_roll, max as int),
                !old(self).tail_counted() ==> {
                    &&& !self.tail_counted()
                    &&& sh1 == sh0
                    &&& old(self).segs@.len() > 0
                    &&& sh0.descs.last().count == old(self).segs@.last().count
                    &&& self.segs@.last().count == old(self).segs@.last().count + i
                    &&& i < before_seal(sh0, force_roll, max as int)
                },
                forall|j: int|
                    0 <= j < i ==> entry_error(sh1, entries@, #[trigger] spot(j), max as int) is None,
            decreases entries@.len() - i,
        {
            let ghost e0 = *self;
            proof {
                if self.segs@.len() > 0 {
                    assert(self.shape().descs.last() == desc_of(self.segs@.last()));
                }
            }
            let (hi, res) = self.insert_chunk(entries, i, max, Ghost(base));
            proof {
                let a = entries@.subrange(0, i as int);
                let b = entries@.subrange(i as int, hi as int);
                assert(entries@.subrange(0, hi as int) =~= a + b);
                lemma_new_pairs_concat(a, b);
                assert(self.pairs() =~= old(self).pairs() + new_pairs(
                    entries@.subrange(0, hi as int),
                ));
                lemma_filled_concat(sh1, a, b, max as int);
                lemma_chunk_entries(sh1, &e0, entries@, i as int, max as int);
            }
            match res {
                Ok(_) => {},
                Err(e) => {
                    proof {
                        lemma_chunk_error(
                            sh0,
                            &e0,
                            old(self).tail_counted(),
                            entries@,
                            force_roll,
                            i as int,
                            hi as int,
                            max as int,
                            e,
                        );
                    }
                    return Err(e);
                },
            }
            proof {
                let first = next_start(e0.segs@, entries@, i as int);
                assert forall|j: int| 0 <= j < hi implies entry_error(
                    sh1,
                    entries@,
                    #[trigger] spot(j),
                    max as int,
                ) is None by {
                    if j < i {
                        assert(entry_error(sh1, entries@, spot(j), max as int) is None);
                    } else {
                        assert(near(first, entries@[j].1.0 as int));
                        assert(chunk_entry(sh1, &e0, entries@, i as int, j, max as int));
                    }
                }
            }
            i = hi;
        }
        proof {
            lemma_first_refused(sh1, entries@, 0, entries@.len() as int, max as int);
            if !old(self).tail_counted() {
                assert(before_seal(sh0, force_roll, max as int) > entries@.len());
            }
        }
        proof {
            assert(entries@.subrange(0, i as int) =~= entries@);
        }
        Ok(())
    }
}

/// An index of a batch.
spec fn spot(j: int) -> int {
    j
}

proof fn lemma_refused_bound(sh: Shape, entries: Seq<NewEntry>, j: int, max: int)
    requires
        0 <= j <= entries.len(),
    ensures
        j <= first_refused(sh, entries, j, max) <= entries.len(),
    decreases entries.len() - j,
{
    if j < entries.len() && entry_error(sh, entries, j, max) is None {
        lemma_refused_bound(sh, entries, j + 1, max);
    }
}

/// Creates before `k` are taken, and `k` is refused or the end.
proof fn lemma_first_refused(sh: Shape, entries: Seq<NewEntry>, j: int, k: int, max: int)
    requires
        0 <= j <= k <= entries.len(),
        forall|m: int| j <= m < k ==> entry_error(sh, entries, #[trigger] spot(m), max) is None,
        k < entries.len() ==> entry_error(sh, entries, k, max) is Some,
    ensures
        first_refused(sh, entries, j, max) == k,
    decreases k - j,
{
    if j < k {
        assert(entry_error(sh, entries, spot(j), max) is None);
        lemma_first_refused(sh, entries, j + 1, k, max);
    }
}

/// Creates that are taken up to `k` put the first refused one behind it.
proof fn lemma_not_before(sh: Shape, entries: Seq<NewEntry>, j: int, k: int, max: int)
    requires
        0 <= j <= k <= entries.len(),
        forall|m: int| j <= m < k ==> entry_error(sh, entries, #[trigger] spot(m), max) is None,
    ensures
        first_refused(sh, entries, j, max) >= k,
    decreases k - j,
{
    if j < k {
        assert(entry_error(sh, entries, spot(j), max) is None);
        lemma_not_before(sh, entries, j + 1, k, max);
    } else {
        lemma_refused_bound(sh, entries, j, max);
    }
}

/// What decides on create `j` in the segment that takes create `i`.
spec fn chunk_entry(
    sh: Shape,
    t: &SegmentedTxHead,
    entries: Seq<NewEntry>,
    i: int,
    j: int,
    max: int,
) -> bool {
    let open = tail_open(t.shape().descs);
    let first = next_start(t.segs@, entries, i);
    let fk = entries[j].1.0 as int;
    entry_error(sh, entries, j, max) == (if !open && j == i && fk == 0 {
        Some(StoreError::InvalidFk)
    } else if near(first, fk) {
        None
    } else {
        Some(far_error(first, fk))
    })
}

/// The creates that have room in the segment of create `i` fall into it.
proof fn lemma_chunk_entries(
    sh: Shape,
    t: &SegmentedTxHead,
    entries: Seq<NewEntry>,
    i: int,
    max: int,
)
    requires
        0 <= i < entries.len(),
        1 <= max <= 0x1_0000_0000,
        t.shape() == filled(sh, entries.subrange(0, i), max),
        tail_open(t.shape().descs) ==> t.segs@.last().count < max,
    ensures
        forall|j: int|
            i <= j < entries.len() && j - i < max - (if tail_open(t.shape().descs) {
                t.segs@.last().count as int
            } else {
                0
            }) ==> #[trigger] chunk_entry(sh, t, entries, i, j, max),
{
    let p = t.shape();
    if t.segs@.len() > 0 {
        assert(p.descs.last() == desc_of(t.segs@.last()));
    }
    let o = opened(p, entries[i].1.0);
    assert forall|j: int|
        i <= j < entries.len() && j - i < max - (if tail_open(t.shape().descs) {
            t.segs@.last().count as int
        } else {
            0
        }) implies #[trigger] chunk_entry(sh, t, entries, i, j, max) by {
        if j > i {
            let b = entries.subrange(i, j);
            assert(entries.subrange(0, j) =~= entries.subrange(0, i) + b);
            lemma_filled_concat(sh, entries.subrange(0, i), b, max);
            assert(b[0] == entries[i]);
            lemma_filled_chunk(p, b, max);
            let f = filled(sh, entries.subrange(0, j), max);
            assert(f.descs == grown(o.descs, j - i, max));
            assert(f.descs.last().flags == 0);
            assert(tail_open(f.descs));
        }
    }
}

/// The segments that are full before a create that has room in that of create `i`.
proof fn lemma_full_segments(
    sh: Shape,
    t: &SegmentedTxHead,
    entries: Seq<NewEntry>,
    i: int,
    j: int,
    max: int,
)
    requires
        0 <= i <= j < entries.len(),
        1 <= max <= 0x1_0000_0000,
        t.shape() == filled(sh, entries.subrange(0, i), max),
        i > 0 ==> !tail_open(t.shape().descs),
        j - i < max - (if tail_open(t.shape().descs) {
            t.segs@.last().count as int
        } else {
            0
        }),
    ensures
        full_segments(sh, entries, j, max) == i,
    decreases j - i,
{
    if j > i {
        let p = t.shape();
        if t.segs@.len() > 0 {
            assert(p.descs.last() == desc_of(t.segs@.last()));
        }
        let o = opened(p, entries[i].1.0);
        let b = entries.subrange(i, j);
        assert(entries.subrange(0, j) =~= entries.subrange(0, i) + b);
        lemma_filled_concat(sh, entries.subrange(0, i), b, max);
        assert(b[0] == entries[i]);
        lemma_filled_chunk(p, b, max);
        let f = filled(sh, entries.subrange(0, j), max);
        assert(f.descs == grown(o.descs, j - i, max));
        assert(f.descs.last().flags == 0);
        lemma_full_segments(sh, t, entries, i, j - 1, max);
    }
}

/// The error of a segment is that of the batch.
proof fn lemma_chunk_error(
    sh0: Shape,
    t: &SegmentedTxHead,
    counted: bool,
    entries: Seq<NewEntry>,
    force: bool,
    i: int,
    hi: int,
    max: int,
    e: StoreError,
)
    requires
        0 <= i < entries.len(),
        i <= hi <= entries.len(),
        1 <= max <= 0x1_0000_0000,
        ({
            let sh = rolled(sh0, force, max);
            &&& t.shape() == filled(sh, entries.subrange(0, i), max)
            &&& forall|j: int|
                0 <= j < i ==> entry_error(sh, entries, #[trigger] spot(j), max) is None
        }),
        tail_open(t.shape().descs) ==> t.segs@.last().count < max,
        counted ==> t.tail_counted(),
        i > 0 ==> !tail_open(t.shape().descs),
        !counted ==> {
            &&& rolled(sh0, force, max) == sh0
            &&& t.segs@.len() > 0
            &&& !t.segs@.last().sealed
            &&& t.segs@.last().count == sh0.descs.last().count + i
            &&& i < before_seal(sh0, force, max)
        },
        chunk_refused(t.segs@, t.tail_counted(), entries, i, hi, max, e),
    ensures
        insert_error(sh0, counted, entries, force, max) == Some(e),
        taken_of(sh0, counted, entries, force, max) == hi,
{
    let sh = rolled(sh0, force, max);
    let first = next_start(t.segs@, entries, i);
    lemma_chunk_entries(sh, t, entries, i, max);
    if t.segs@.len() > 0 {
        assert(t.shape().descs.last() == desc_of(t.segs@.last()));
    }
    let open = tail_open(t.shape().descs);
    let count = if open {
        t.segs@.last().count as int
    } else {
        0
    };
    if !open && entries[i].1.0 == 0 && e == StoreError::InvalidFk {
        assert(chunk_entry(sh, t, entries, i, i, max));
        lemma_first_refused(sh, entries, 0, i, max);
        lemma_full_segments(sh, t, entries, i, i, max);
    } else if exists|j: int|
        i <= j < entries.len() && j - i < max - count && !near(
            first,
            (#[trigger] entries[j]).1.0 as int,
        ) && e == far_error(first, entries[j].1.0 as int) && all_near(entries, i, j, first) {
        let j = choose|j: int|
            i <= j < entries.len() && j - i < max - count && !near(
                first,
                (#[trigger] entries[j]).1.0 as int,
            ) && e == far_error(first, entries[j].1.0 as int) && all_near(entries, i, j, first);
        assert(chunk_entry(sh, t, entries, i, j, max));
        assert forall|m: int| 0 <= m < j implies entry_error(sh, entries, #[trigger] spot(m), max)
            is None by {
            if m < i {
                assert(entry_error(sh, entries, spot(m), max) is None);
            } else {
                assert(near(first, entries[m].1.0 as int));
                assert(chunk_entry(sh, t, entries, i, m, max));
            }
        }
        lemma_first_refused(sh, entries, 0, j, max);
        lemma_full_segments(sh, t, entries, i, j, max);
    } else {
        assert forall|m: int| 0 <= m < hi implies entry_error(sh, entries, #[trigger] spot(m), max)
            is None by {
            if m < i {
                assert(entry_error(sh, entries, spot(m), max) is None);
            } else {
                assert(near(first, entries[m].1.0 as int));
                assert(chunk_entry(sh, t, entries, i, m, max));
            }
        }
        lemma_not_before(sh, entries, 0, hi, max);
    }
}

/// Every segment starts where the one before it ends.
pub open spec fn descs_chained(descs: Seq<SegDesc>) -> bool {
    forall|i: int, j: int|
        0 <= i && j == i + 1 && j < descs.len() ==> (#[trigger] descs[j]).first_fk == (
        #[trigger] descs[i]).first_fk + descs[i].count
}

/// Number behind the last create.
pub open spec fn descs_end(descs: Seq<SegDesc>) -> int {
    descs.last().first_fk + descs.last().count
}

/// Creates with consecutive numbers keep the segments without gap or overlap.
pub proof fn law_dense_inserts_chain(
    sh: Shape,
    force: bool,
    entries: Seq<NewEntry>,
    start: int,
    max: int,
)
    requires
        descs_chained(sh.descs),
        0 <= max <= 0x1_0000_0000,
        sh.descs.len() > 0 ==> descs_end(sh.descs) == start,
        tail_open(sh.descs) ==> sh.descs.last().count <= 0x1_0000_0000,
        forall|i: int| 0 <= i < entries.len() ==> (#[trigger] entries[i]).1.0 == start + i,
    ensures
        descs_chained(filled(rolled(sh, force, max), entries, max).descs),
        filled(rolled(sh, force, max), entries, max).descs.len() > 0 && (entries.len() > 0
            || sh.descs.len() > 0) ==> descs_end(
            filled(rolled(sh, force, max), entries, max).descs,
        ) == start + entries.len(),
{
    lemma_dense(rolled(sh, force, max), entries, start, max);
}

proof fn lemma_dense(sh: Shape, entries: Seq<NewEntry>, start: int, max: int)
    requires
        descs_chained(sh.descs),
        0 <= max <= 0x1_0000_0000,
        sh.descs.len() > 0 ==> descs_end(sh.descs) == start,
        tail_open(sh.descs) ==> sh.descs.last().count <= 0x1_0000_0000,
        forall|i: int| 0 <= i < entries.len() ==> (#[trigger] entries[i]).1.0 == start + i,
    ensures
        descs_chained(filled(sh, entries, max).descs),
        sh.descs.len() > 0 || entries.len() > 0 ==> filled(sh, entries, max).descs.len() > 0
            && descs_end(filled(sh, entries, max).descs) == start + entries.len(),
        tail_open(filled(sh, entries, max).descs) ==> filled(sh, entries, max).descs.last().count
            <= 0x1_0000_0000,
    decreases entries.len(),
{
    if entries.len() > 0 {
        lemma_dense(sh, entries.drop_last(), start, max);
        let p = filled(sh, entries.drop_last(), max);
        assert(entries[entries.len() - 1].1.0 == start + entries.len() - 1);
        let o = opened(p, entries.last().1.0);
        assert(descs_chained(o.descs)) by {
            if !tail_open(p.descs) {
                assert forall|i: int, j: int| 0 <= i && j == i + 1 && j < o.descs.len() implies (
                #[trigger] o.descs[j]).first_fk == (#[trigger] o.descs[i]).first_fk
                    + o.descs[i].count by {
                    if j < p.descs.len() {
                        assert(p.descs[j].first_fk == p.descs[i].first_fk + p.descs[i].count);
                    }
                }
            }
        }
        let g = grown(o.descs, 1, max);
        assert forall|i: int, j: int| 0 <= i && j == i + 1 && j < g.len() implies (
        #[trigger] g[j]).first_fk == (#[trigger] g[i]).first_fk + g[i].count by {
            assert(o.descs[j].first_fk == o.descs[i].first_fk + o.descs[i].count);
        }
    }
}

/// Numbers of the creates with this key, newest first.
pub open spec fn hits(pairs: Seq<(Seq<u8>, u64)>, key: Seq<u8>) -> Seq<Fk>
    decreases pairs.len(),
{
    if pairs.len() == 0 {
        Seq::empty()
    } else if pairs.last().0 == key {
        seq![Fk(pairs.last().1)] + hits(pairs.drop_last(), key)
    } else {
        hits(pairs.drop_last(), key)
    }
}

/// A sealed segment is asked only for keys that its filter knows.
pub open spec fn asked_segment(s: Segment, key: Seq<u8>) -> bool {
    s.sealed ==> s.fuse is Some && s.fuse->0@.contains(fuse_key(key))
}

/// Candidates of the segments from `si` on, newest first.
pub open spec fn candidates_from(segs: Seq<Segment>, si: int, key: Seq<u8>) -> Seq<Fk>
    decreases segs.len() - si,
{
    if si < 0 || si >= segs.len() {
        Seq::empty()
    } else {
        candidates_from(segs, si + 1, key) + if asked_segment(segs[si], key) {
            hits(seg_pairs(segs[si]), key)
        } else {
            Seq::empty()
        }
    }
}

/// Keys that the filter of a sealed segment does not know.
pub open spec fn segment_skips(s: Segment, keys: Seq<[u8; 32]>) -> nat
    decreases keys.len(),
{
    if keys.len() == 0 {
        0
    } else {
        segment_skips(s, keys.drop_last()) + if asked_segment(s, keys.last()@) {
            0nat
        } else {
            1nat
        }
    }
}

proof fn lemma_segment_skips(s: Segment, keys: Seq<[u8; 32]>)
    ensures
        segment_skips(s, keys) <= keys.len(),
    decreases keys.len(),
{
    if keys.len() > 0 {
        lemma_segment_skips(s, keys.drop_last());
    }
}

proof fn lemma_hits_concat(a: Seq<(Seq<u8>, u64)>, b: Seq<(Seq<u8>, u64)>, key: Seq<u8>)
    ensures
        hits(a + b, key) == hits(b, key) + hits(a, key),
    decreases b.len(),
{
    if b.len() == 0 {
        assert(a + b =~= a);
        assert(hits(b, key) + hits(a, key) =~= hits(a, key));
    } else {
        lemma_hits_concat(a, b.drop_last(), key);
        assert((a + b).drop_last() =~= a + b.drop_last());
        assert(hits(a + b, key) =~= hits(b, key) + hits(a, key));
    }
}

proof fn lemma_no_hits(pairs: Seq<(Seq<u8>, u64)>, key: Seq<u8>)
    requires
        forall|i: int| 0 <= i < pairs.len() ==> (#[trigger] pairs[i]).0 != key,
    ensures
        hits(pairs, key) == Seq::<Fk>::empty(),
    decreases pairs.len(),
{
    if pairs.len() > 0 {
        assert(pairs[pairs.len() - 1].0 != key);
        let d = pairs.drop_last();
        assert forall|i: int| 0 <= i < d.len() implies (#[trigger] d[i]).0 != key by {
            assert(pairs[i].0 != key);
        }
        lemma_no_hits(d, key);
    }
}

/// Filters leave out no create: where they know the keys of their segments, the
/// candidates of a key are all creates with that key, newest first.
pub proof fn law_candidates_complete(h: SegmentedTxHead, key: Seq<u8>)
    requires
        h.inv(),
        h.filters_ok(),
    ensures
        candidates_from(h.segs@, 0, key) == hits(h.pairs(), key),
{
    lemma_candidates(h.segs@, 0, key);
    assert(h.segs@.subrange(0, 0) =~= Seq::empty());
    assert(candidates_from(h.segs@, 0, key) + hits(all_pairs(h.segs@.subrange(0, 0)), key)
        =~= candidates_from(h.segs@, 0, key));
}

proof fn lemma_candidates(segs: Seq<Segment>, si: int, key: Seq<u8>)
    requires
        0 <= si <= segs.len(),
        forall|i: int| 0 <= i < segs.len() ==> (#[trigger] segs[i]).filter_ok(),
    ensures
        hits(all_pairs(segs), key) == candidates_from(segs, si, key) + hits(
            all_pairs(segs.subrange(0, si)),
            key,
        ),
    decreases segs.len() - si,
{
    if si == segs.len() {
        assert(segs.subrange(0, si) =~= segs);
        assert(candidates_from(segs, si, key) + hits(all_pairs(segs), key) =~= hits(
            all_pairs(segs),
            key,
        ));
    } else {
        lemma_candidates(segs, si + 1, key);
        let p = segs.subrange(0, si + 1);
        assert(p.drop_last() =~= segs.subrange(0, si));
        assert(p.last() == segs[si]);
        lemma_hits_concat(all_pairs(segs.subrange(0, si)), seg_pairs(segs[si]), key);
        if !asked_segment(segs[si], key) {
            assert(segs[si].filter_ok());
            let q = seg_pairs(segs[si]);
            assert forall|i: int| 0 <= i < q.len() implies (#[trigger] q[i]).0 != key by {
                assert(segs[si].fuse->0@.contains(fuse_key(segs[si].entries@[i].mixed@)));
            }
            lemma_no_hits(q, key);
        }
        assert(candidates_from(segs, si, key) + hits(all_pairs(segs.subrange(0, si)), key)
            =~= candidates_from(segs, si + 1, key) + (hits(seg_pairs(segs[si]), key) + hits(
            all_pairs(segs.subrange(0, si)),
            key,
        )));
    }
}

/// Every create is among the candidates of its key.
pub proof fn law_create_is_candidate(h: SegmentedTxHead, i: int)
    requires
        h.inv(),
        h.filters_ok(),
        0 <= i < h.pairs().len(),
    ensures
        candidates_from(h.segs@, 0, h.pairs()[i].0).contains(Fk(h.pairs()[i].1)),
{
    law_candidates_complete(h, h.pairs()[i].0);
    lemma_hit(h.pairs(), i);
}

proof fn lemma_hit(pairs: Seq<(Seq<u8>, u64)>, i: int)
    requires
        0 <= i < pairs.len(),
    ensures
        hits(pairs, pairs[i].0).contains(Fk(pairs[i].1)),
    decreases pairs.len(),
{
    let key = pairs[i].0;
    let h = hits(pairs, key);
    if i == pairs.len() - 1 {
        assert(h[0] == Fk(pairs[i].1));
    } else {
        let d = pairs.drop_last();
        lemma_hit(d, i);
        assert(d[i] == pairs[i]);
        let g = hits(d, key);
        let k = choose|k: int| 0 <= k < g.len() && g[k] == Fk(pairs[i].1);
        if pairs.last().0 == key {
            assert(h[k + 1] == g[k]);
        } else {
            assert(h[k] == g[k]);
        }
    }
}

/// The keys rise and hold `key`.
fn fuse_contains(keys: &Vec<u64>, key: u64) -> (r: bool)
    requires
        rising(keys@),
    ensures
        r == keys@.contains(key),
{
    let mut lo: usize = 0;
    let mut hi: usize = keys.len();
    while lo < hi
        invariant
            lo <= hi <= keys@.len(),
            rising(keys@),
            forall|i: int| 0 <= i < lo ==> (#[trigger] keys@[i]) < key,
            forall|i: int| hi <= i < keys@.len() ==> (#[trigger] keys@[i]) > key,
        decreases hi - lo,
    {
        let mid: usize = lo + (hi - lo) / 2;
        let k: u64 = keys[mid];
        if k == key {
            assert(keys@[mid as int] == key);
            return true;
        }
        if k < key {
            lo = mid + 1;
        } else {
            hi = mid;
        }
    }
    false
}

impl Segment {
    /// Appends the numbers of the creates with this key, newest first.
    fn push_hits(&self, key: &[u8; 32], out: &mut Vec<Fk>)
        requires
            self.inv(),
        ensures
            final(out)@ == old(out)@ + hits(seg_pairs(*self), key@),
    {
        let mut i: usize = self.entries.len();
        let ghost pairs = seg_pairs(*self);
        proof {
            assert(pairs.subrange(0, pairs.len() as int) =~= pairs);
        }
        while i > 0
            invariant
                i <= self.entries@.len(),
                self.inv(),
                pairs == seg_pairs(*self),
                pairs.len() == self.entries@.len(),
                old(out)@ + hits(pairs, key@) == out@ + hits(pairs.subrange(0, i as int), key@),
            decreases i,
        {
            i -= 1;
            let ghost before = out@;
            proof {
                let p = pairs.subrange(0, i + 1);
                assert(p.drop_last() =~= pairs.subrange(0, i as int));
                assert(p.last() == pairs[i as int]);
                assert(p.last().0 == self.entries@[i as int].mixed@);
            }
            if key_matches(&self.entries[i].mixed, key) {
                if let Some(fk) = rel_to_abs(self.first_fk, self.entries[i].rel as u64) {
                    out.push(fk);
                    proof {
                        assert(before + hits(pairs.subrange(0, i + 1), key@) =~= out@ + hits(
                            pairs.subrange(0, i as int),
                            key@,
                        ));
                    }
                }
            }
        }
        proof {
            assert(out@ + hits(pairs.subrange(0, 0), key@) =~= out@);
        }
    }
}

/// The two keys are equal.
fn key_matches(a: &[u8; 32], b: &[u8; 32]) -> (r: bool)
    ensures
        r == (a@ == b@),
{
    proof {
        assert(a@.subrange(0, 32) =~= a@);
    }
    bytes_at(a.as_slice(), 0, b.as_slice())
}

/// What a batch of lookups counts up to.
pub open spec fn lookup_skips(segs: Seq<Segment>, si: int, keys: Seq<[u8; 32]>) -> nat
    decreases segs.len() - si,
{
    if si < 0 || si >= segs.len() {
        0
    } else {
        lookup_skips(segs, si + 1, keys) + segment_skips(segs[si], keys)
    }
}

/// A count that stops at the largest value.
pub open spec fn counted(n: nat) -> u64 {
    if n > u64::MAX {
        u64::MAX
    } else {
        n as u64
    }
}

/// One more.
fn count_up(n: u64) -> (r: u64)
    ensures
        r == (if n == u64::MAX {
            n
        } else {
            (n + 1) as u64
        }),
{
    if n == 0xffff_ffff_ffff_ffff {
        n
    } else {
        n + 1
    }
}

/// What a batch of lookups counts.
pub open spec fn lookup_stats(segs: Seq<Segment>, keys: Seq<[u8; 32]>) -> HeadLookupStats {
    let checks = count_sealed(segs) * keys.len();
    let skips = lookup_skips(segs, 0, keys);
    HeadLookupStats {
        open_probes: if segs.len() > 0 && !segs.last().sealed {
            keys.len() as u64
        } else {
            0
        },
        sealed_fuse_checks: counted(checks),
        sealed_fuse_skips: counted(skips),
        sealed_head_probes: counted((checks - skips) as nat),
        rolls: 0,
        seals: 0,
    }
}

/// Number of sealed segments from `si` on.
spec fn sealed_from(segs: Seq<Segment>, si: int) -> nat {
    count_sealed(segs.subrange(si, segs.len() as int))
}

proof fn lemma_sealed_from(segs: Seq<Segment>, si: int)
    requires
        0 <= si < segs.len(),
    ensures
        sealed_from(segs, si) == sealed_from(segs, si + 1) + if segs[si].sealed {
            1nat
        } else {
            0nat
        },
    decreases segs.len(),
{
    let a = segs.subrange(si, segs.len() as int);
    let b = segs.subrange(si + 1, segs.len() as int);
    if b.len() == 0 {
        assert(a.drop_last() =~= Seq::empty());
        assert(count_sealed(a.drop_last()) == 0);
    } else {
        let t = segs.drop_last();
        lemma_sealed_from(t, si);
        assert(a.drop_last() =~= t.subrange(si, t.len() as int));
        assert(b.drop_last() =~= t.subrange(si + 1, t.len() as int));
        assert(a.last() == b.last());
    }
}

/// The lists hold the candidates of the segments from `si` on.
spec fn lists_hold(
    out: Seq<Vec<Fk>>,
    segs: Seq<Segment>,
    si: int,
    keys: Seq<[u8; 32]>,
) -> bool {
    &&& out.len() == keys.len()
    &&& forall|i: int|
        0 <= i < keys.len() ==> (#[trigger] out[i])@ == candidates_from(segs, si, keys[i]@)
}

impl SegmentedTxHead {
    /// Asks one segment for all keys.
    fn probe_segment(
        &self,
        si: usize,
        mixed: &[[u8; 32]],
        out: &mut Vec<Vec<Fk>>,
        stats: &mut HeadLookupStats,
        Ghost(checks): Ghost<nat>,
        Ghost(skips): Ghost<nat>,
    )
        requires
            self.inv(),
            si < self.segs@.len(),
            lists_hold(old(out)@, self.segs@, si + 1, mixed@),
            self.segs@[si as int].sealed,
            skips <= checks,
            old(stats).sealed_fuse_checks == counted(checks),
            old(stats).sealed_fuse_skips == counted(skips),
            old(stats).sealed_head_probes == counted((checks - skips) as nat),
        ensures
            lists_hold(final(out)@, self.segs@, si as int, mixed@),
            *final(stats) == (HeadLookupStats {
                sealed_fuse_checks: counted(checks + mixed@.len()),
                sealed_fuse_skips: counted(
                    skips + segment_skips(self.segs@[si as int], mixed@),
                ),
                sealed_head_probes: counted(
                    (checks + mixed@.len() - skips - segment_skips(
                        self.segs@[si as int],
                        mixed@,
                    )) as nat,
                ),
                ..*old(stats)
            }),
    {
        let seg = &self.segs[si];
        let mut i: usize = 0;
        proof {
            assert(mixed@.subrange(0, 0) =~= Seq::empty());
        }
        while i < mixed.len()
            invariant
                i <= mixed@.len(),
                self.inv(),
                si < self.segs@.len(),
                *seg == self.segs@[si as int],
                seg.inv(),
                seg.sealed,
                skips <= checks,
                out@.len() == mixed@.len(),
                segment_skips(*seg, mixed@.subrange(0, i as int)) <= i,
                forall|j: int|
                    0 <= j < i ==> (#[trigger] out@[j])@ == candidates_from(
                        self.segs@,
                        si as int,
                        mixed@[j]@,
                    ),
                forall|j: int|
                    i <= j < mixed@.len() ==> (#[trigger] out@[j])@ == candidates_from(
                        self.segs@,
                        si + 1,
                        mixed@[j]@,
                    ),
                *stats == (HeadLookupStats {
                    sealed_fuse_checks: counted(checks + i as nat),
                    sealed_fuse_skips: counted(
                        skips + segment_skips(*seg, mixed@.subrange(0, i as int)),
                    ),
                    sealed_head_probes: counted(
                        (checks + i - skips - segment_skips(
                            *seg,
                            mixed@.subrange(0, i as int),
                        )) as nat,
                    ),
                    ..*old(stats)
                }),
            decreases mixed@.len() - i,
        {
            proof {
                let p = mixed@.subrange(0, i + 1);
                assert(p.drop_last() =~= mixed@.subrange(0, i as int));
                assert(p.last() == mixed@[i as int]);
                lemma_segment_skips(*seg, p);
            }
            stats.sealed_fuse_checks = count_up(stats.sealed_fuse_checks);
            let key: u64 = fuse_key_from_mixed(&mixed[i]);
            let known = match &seg.fuse {
                Some(keys) => fuse_contains(keys, key),
                None => false,
            };
            let ghost before = out@;
            if known {
                stats.sealed_head_probes = count_up(stats.sealed_head_probes);
                let list = &mut out[i];
                seg.push_hits(&mixed[i], list);
            } else {
                stats.sealed_fuse_skips = count_up(stats.sealed_fuse_skips);
                proof {
                    assert(candidates_from(self.segs@, si as int, mixed@[i as int]@)
                        =~= before[i as int]@);
                }
            }
            proof {
                assert forall|j: int| 0 <= j < mixed@.len() && j != i implies out@[j]
                    == before[j] by {}
            }
            i += 1;
        }
        proof {
            assert(mixed@.subrange(0, i as int) =~= mixed@);
        }
    }

    /// The candidates of each key, and what the lookups counted.
    ///
    /// The open segment comes first, then the sealed ones, newest first; within
    /// a segment the newest create comes first.
    pub fn probe_candidates_batch_counted(&self, mixed: &[[u8; 32]]) -> (r: (
        Vec<Vec<Fk>>,
        HeadLookupStats,
    ))
        requires
            self.inv(),
        ensures
            r.0@.len() == mixed@.len(),
            forall|i: int|
                0 <= i < mixed@.len() ==> (#[trigger] r.0@[i])@ == candidates_from(
                    self.segs@,
                    0,
                    mixed@[i]@,
                ),
            r.1 == lookup_stats(self.segs@, mixed@),
    {
        let mut out: Vec<Vec<Fk>> = Vec::new();
        let n: usize = self.segs.len();
        let mut i: usize = 0;
        while i < mixed.len()
            invariant
                i <= mixed@.len(),
                out@.len() == i,
                forall|j: int| 0 <= j < i ==> (#[trigger] out@[j])@ == Seq::<Fk>::empty(),
            decreases mixed@.len() - i,
        {
            out.push(Vec::new());
            i += 1;
        }
        let mut stats = HeadLookupStats {
            open_probes: 0,
            sealed_fuse_checks: 0,
            sealed_fuse_skips: 0,
            sealed_head_probes: 0,
            rolls: 0,
            seals: 0,
        };
        let mut si: usize = n;
        proof {
            assert(self.segs@.subrange(n as int, n as int) =~= Seq::empty());
        }
        if n > 0 && !self.segs[n - 1].sealed {
            si = n - 1;
            stats.open_probes = mixed.len() as u64;
            let seg = &self.segs[n - 1];
            proof {
                lemma_sealed_from(self.segs@, n - 1);
                lemma_open_skips(*seg, mixed@);
            }
            i = 0;
            while i < mixed.len()
                invariant
                    i <= mixed@.len(),
                    self.inv(),
                    n == self.segs@.len(),
                    n > 0,
                    *seg == self.segs@[n - 1],
                    seg.inv(),
                    !seg.sealed,
                    out@.len() == mixed@.len(),
                    forall|j: int|
                        0 <= j < i ==> (#[trigger] out@[j])@ == candidates_from(
                            self.segs@,
                            n - 1,
                            mixed@[j]@,
                        ),
                    forall|j: int|
                        i <= j < mixed@.len() ==> (#[trigger] out@[j])@ == Seq::<Fk>::empty(),
                decreases mixed@.len() - i,
            {
                let ghost before = out@;
                let list = &mut out[i];
                seg.push_hits(&mixed[i], list);
                proof {
                    assert(candidates_from(self.segs@, n as int, mixed@[i as int]@)
                        =~= Seq::empty());
                    assert(out@[i as int]@ =~= candidates_from(
                        self.segs@,
                        n - 1,
                        mixed@[i as int]@,
                    ));
                    assert forall|j: int| 0 <= j < mixed@.len() && j != i implies out@[j]
                        == before[j] by {}
                }
                i += 1;
            }
        }
        proof {
            assert(lookup_skips(self.segs@, n as int, mixed@) == 0);
            assert(lookup_skips(self.segs@, si as int, mixed@) == 0);
            assert(sealed_from(self.segs@, si as int) == 0);
            assert(0 * mixed@.len() == 0);
        }
        while si > 0
            invariant
                si <= n,
                n == self.segs@.len(),
                self.inv(),
                forall|j: int| 0 <= j < si ==> (#[trigger] self.segs@[j]).sealed,
                lists_hold(out@, self.segs@, si as int, mixed@),
                lookup_skips(self.segs@, si as int, mixed@) <= sealed_from(self.segs@, si as int)
                    * mixed@.len(),
                stats == (HeadLookupStats {
                    open_probes: if n > 0 && !self.segs@[n - 1].sealed {
                        mixed@.len() as u64
                    } else {
                        0
                    },
                    sealed_fuse_checks: counted(
                        sealed_from(self.segs@, si as int) * mixed@.len(),
                    ),
                    sealed_fuse_skips: counted(lookup_skips(self.segs@, si as int, mixed@)),
                    sealed_head_probes: counted(
                        (sealed_from(self.segs@, si as int) * mixed@.len() - lookup_skips(
                            self.segs@,
                            si as int,
                            mixed@,
                        )) as nat,
                    ),
                    rolls: 0,
                    seals: 0,
                }),
            decreases si,
        {
            let ghost c = sealed_from(self.segs@, si as int);
            let ghost k = mixed@.len();
            si -= 1;
            proof {
                lemma_sealed_from(self.segs@, si as int);
                lemma_segment_skips(self.segs@[si as int], mixed@);
                assert((c + 1) * k == c * k + k) by (nonlinear_arith);
            }
            self.probe_segment(
                si,
                mixed,
                &mut out,
                &mut stats,
                Ghost(c * k),
                Ghost(lookup_skips(self.segs@, si + 1, mixed@)),
            );
        }
        proof {
            assert(self.segs@.subrange(0, n as int) =~= self.segs@);
        }
        (out, stats)
    }

    /// The candidates of each key.
    pub fn probe_candidates_batch(&self, mixed: &[[u8; 32]]) -> (r: Result<
        Vec<Vec<Fk>>,
        StoreError,
    >)
        requires
            self.inv(),
        ensures
            r is Ok,
            r->Ok_0@.len() == mixed@.len(),
            forall|i: int|
                0 <= i < mixed@.len() ==> (#[trigger] r->Ok_0@[i])@ == candidates_from(
                    self.segs@,
                    0,
                    mixed@[i]@,
                ),
            self.filters_ok() ==> forall|i: int|
                0 <= i < mixed@.len() ==> (#[trigger] r->Ok_0@[i])@ == hits(
                    self.pairs(),
                    mixed@[i]@,
                ),
    {
        let (lists, stats) = self.probe_candidates_batch_counted(mixed);
        proof {
            if self.filters_ok() {
                assert forall|i: int| 0 <= i < mixed@.len() implies (#[trigger] lists@[i])@ == hits(
                    self.pairs(),
                    mixed@[i]@,
                ) by {
                    law_candidates_complete(*self, mixed@[i]@);
                }
            }
        }
        Ok(lists)
    }

    /// The candidates of a key: the open segment first, then the sealed ones.
    pub fn probe_candidates(&self, mixed: &[u8; 32]) -> (r: Result<Vec<Fk>, StoreError>)
        requires
            self.inv(),
        ensures
            r is Ok,
            r->Ok_0@ == candidates_from(self.segs@, 0, mixed@),
            self.filters_ok() ==> r->Ok_0@ == hits(self.pairs(), mixed@),
    {
        let keys: [[u8; 32]; 1] = [*mixed];
        let mut out = self.probe_candidates_batch(keys.as_slice())?;
        match out.pop() {
            Some(list) => Ok(list),
            None => Ok(Vec::new()),
        }
    }
}

proof fn lemma_open_skips(s: Segment, keys: Seq<[u8; 32]>)
    requires
        !s.sealed,
    ensures
        segment_skips(s, keys) == 0,
    decreases keys.len(),
{
    if keys.len() > 0 {
        lemma_open_skips(s, keys.drop_last());
    }
}

/// What is stored of one segment: its layout, its entries and its filter.
pub struct SegmentFile {
    pub bits: u32,
    pub entry_bytes: u8,
    pub entries: Vec<RelEntry>,
    pub fuse: Option<Vec<u64>>,
}

/// The segment is marked as sealed.
pub open spec fn desc_sealed(d: SegDesc) -> bool {
    d.flags & 1 != 0
}

/// The entries with a number; one without is an empty place.
pub open spec fn used_entries(entries: Seq<RelEntry>) -> Seq<RelEntry>
    decreases entries.len(),
{
    if entries.len() == 0 {
        Seq::empty()
    } else if entries.last().rel == 0 {
        used_entries(entries.drop_last())
    } else {
        used_entries(entries.drop_last()).push(entries.last())
    }
}

proof fn lemma_all_used(entries: Seq<RelEntry>)
    requires
        forall|i: int| 0 <= i < entries.len() ==> (#[trigger] entries[i]).rel >= 1,
    ensures
        used_entries(entries) == entries,
    decreases entries.len(),
{
    if entries.len() > 0 {
        let d = entries.drop_last();
        assert forall|i: int| 0 <= i < d.len() implies (#[trigger] d[i]).rel >= 1 by {
            assert(d[i] == entries[i]);
        }
        lemma_all_used(d);
        assert(entries.last() == entries[entries.len() - 1]);
        assert(d.push(entries.last()) =~= entries);
    } else {
        assert(entries =~= Seq::empty());
    }
}

/// What is wrong with one segment.
pub open spec fn segment_error(bits: u32, d: SegDesc, f: SegmentFile) -> Option<StoreError> {
    if f.bits != bits || f.entry_bytes != 4 {
        Some(StoreError::Corrupt("tx.head segment layout mismatch"))
    } else if desc_sealed(d) && f.fuse is None {
        Some(StoreError::Corrupt("tx.head sealed segment missing fuse8"))
    } else {
        None
    }
}

/// What is wrong with the first segment that has an error, from `i` on.
pub open spec fn first_error(
    bits: u32,
    descs: Seq<SegDesc>,
    files: Seq<SegmentFile>,
    i: int,
) -> Option<StoreError>
    decreases descs.len() - i,
{
    if i < 0 || i >= descs.len() {
        None
    } else {
        match segment_error(bits, descs[i], files[i]) {
            Some(e) => Some(e),
            None => first_error(bits, descs, files, i + 1),
        }
    }
}

/// Only the last segment is open.
pub open spec fn only_tail_open(descs: Seq<SegDesc>) -> bool {
    forall|i: int| 0 <= i < descs.len() - 1 ==> desc_sealed(#[trigger] descs[i])
}

/// Why the segments cannot be opened.
pub open spec fn open_error(bits: u32, descs: Seq<SegDesc>, files: Seq<SegmentFile>) -> Option<
    StoreError,
> {
    if !(1 <= bits <= 32) {
        Some(StoreError::Corrupt("head bits out of range"))
    } else if files.len() != descs.len() {
        Some(StoreError::Corrupt("tx.head segment file missing"))
    } else if first_error(bits, descs, files, 0) is Some {
        first_error(bits, descs, files, 0)
    } else if !only_tail_open(descs) {
        Some(StoreError::Corrupt("tx.head non-tail segment not sealed"))
    } else if !descs_chained(descs) {
        Some(StoreError::Corrupt("tx.head segment fk gap/overlap"))
    } else {
        None
    }
}

/// Largest file number of the segments.
pub open spec fn max_id(descs: Seq<SegDesc>) -> u32
    decreases descs.len(),
{
    if descs.len() == 0 {
        0
    } else if descs.last().file_id > max_id(descs.drop_last()) {
        descs.last().file_id
    } else {
        max_id(descs.drop_last())
    }
}

/// The segment is the one that is stored.
pub open spec fn segment_opened(s: Segment, d: SegDesc, f: SegmentFile) -> bool {
    &&& s.first_fk == d.first_fk
    &&& s.count == d.count
    &&& s.file_id == d.file_id
    &&& s.sealed == desc_sealed(d)
    &&& s.entries@ == used_entries(f.entries@)
    &&& s.sealed ==> s.fuse is Some && rising(s.fuse->0@) && forall|x: u64| #[trigger]
        s.fuse->0@.contains(x) <==> f.fuse->0@.contains(x)
    &&& !s.sealed ==> s.fuse is None
    &&& s.open_keys@.len() == 0
}

impl HeadLayout {
    /// A layout of `2^bits` slots.
    pub fn with_entry_bytes(bits: u32, entry_bytes: u8) -> (r: Result<HeadLayout, StoreError>)
        ensures
            match r {
                Ok(l) => 1 <= bits <= 32 && l == (HeadLayout { bits, entry_bytes }),
                Err(e) => !(1 <= bits <= 32) && e == StoreError::Corrupt("head bits out of range"),
            },
    {
        if bits < 1 || bits > 32 {
            return Err(StoreError::Corrupt("head bits out of range"));
        }
        Ok(HeadLayout { bits, entry_bytes })
    }
}

/// Checks one segment.
fn check_segment(bits: u32, d: SegDesc, f: &SegmentFile) -> (r: Result<(), StoreError>)
    ensures
        match r {
            Ok(_) => segment_error(bits, d, *f) is None,
            Err(e) => segment_error(bits, d, *f) == Some(e),
        },
{
    if f.bits != bits || f.entry_bytes != 4 {
        return Err(StoreError::Corrupt("tx.head segment layout mismatch"));
    }
    let sealed = d.flags & 1 != 0;
    if sealed && f.fuse.is_none() {
        return Err(StoreError::Corrupt("tx.head sealed segment missing fuse8"));
    }
    Ok(())
}

/// The entries with a number.
fn copy_entries(entries: &Vec<RelEntry>) -> (r: Vec<RelEntry>)
    ensures
        r@ == used_entries(entries@),
        forall|j: int| 0 <= j < r@.len() ==> (#[trigger] r@[j]).rel >= 1,
{
    let mut v: Vec<RelEntry> = Vec::new();
    let mut i: usize = 0;
    while i < entries.len()
        invariant
            i <= entries@.len(),
            v@ == used_entries(entries@.subrange(0, i as int)),
            forall|j: int| 0 <= j < v@.len() ==> (#[trigger] v@[j]).rel >= 1,
        decreases entries@.len() - i,
    {
        proof {
            let p = entries@.subrange(0, i + 1);
            assert(p.drop_last() =~= entries@.subrange(0, i as int));
            assert(p.last() == entries@[i as int]);
        }
        if entries[i].rel != 0 {
            v.push(entries[i]);
        }
        i += 1;
    }
    proof {
        assert(entries@.subrange(0, i as int) =~= entries@);
    }
    v
}

/// Checks the order of the segments.
fn check_order(descs: &[SegDesc]) -> (r: Result<(), StoreError>)
    ensures
        match r {
            Ok(_) => only_tail_open(descs@) && descs_chained(descs@),
            Err(e) => if !only_tail_open(descs@) {
                e == StoreError::Corrupt("tx.head non-tail segment not sealed")
            } else {
                !descs_chained(descs@) && e == StoreError::Corrupt("tx.head segment fk gap/overlap")
            },
        },
{
    let n: usize = descs.len();
    let mut i: usize = 0;
    while n - i > 1
        invariant
            n == descs@.len(),
            i <= n,
            n > 0 ==> i < n,
            forall|j: int| 0 <= j < i ==> desc_sealed(#[trigger] descs@[j]),
        decreases n - i,
    {
        if descs[i].flags & 1 == 0 {
            assert(!desc_sealed(descs@[i as int]));
            return Err(StoreError::Corrupt("tx.head non-tail segment not sealed"));
        }
        i += 1;
    }
    i = 0;
    while n - i > 1
        invariant
            n == descs@.len(),
            i <= n,
            n > 0 ==> i < n,
            only_tail_open(descs@),
            forall|a: int, b: int|
                0 <= a && b == a + 1 && b <= i && b < n ==> (#[trigger] descs@[b]).first_fk == (
                #[trigger] descs@[a]).first_fk + descs@[a].count,
        decreases n - i,
    {
        if descs[i].count > 0xffff_ffff_ffff_ffff - descs[i].first_fk || descs[i + 1].first_fk
            != descs[i].first_fk + descs[i].count {
            assert(descs@[i + 1].first_fk != descs@[i as int].first_fk + descs@[i as int].count);
            return Err(StoreError::Corrupt("tx.head segment fk gap/overlap"));
        }
        i += 1;
    }
    Ok(())
}

impl SegmentedTxHead {
    /// Opens the stored segments.
    ///
    /// The filter keys of an open segment are not stored: they come by
    /// `replace_open_keys`.
    pub fn open(bits: u32, descs: &[SegDesc], files: &[SegmentFile]) -> (r: Result<
        Self,
        StoreError,
    >)
        ensures
            match r {
                Ok(h) => {
                    &&& open_error(bits, descs@, files@) is None
                    &&& h.inv()
                    &&& h.chained()
                    &&& h.layout == (HeadLayout { bits, entry_bytes: 4 })
                    &&& h.segs@.len() == descs@.len()
                    &&& forall|i: int|
                        0 <= i < descs@.len() ==> segment_opened(
                            #[trigger] h.segs@[i],
                            descs@[i],
                            files@[i],
                        )
                    &&& h.next_file_id == (if max_id(descs@) == u32::MAX {
                        u32::MAX
                    } else {
                        (max_id(descs@) + 1) as u32
                    })
                },
                Err(e) => open_error(bits, descs@, files@) == Some(e),
            },
    {
        let layout = HeadLayout::with_entry_bytes(bits, 4)?;
        if files.len() != descs.len() {
            return Err(StoreError::Corrupt("tx.head segment file missing"));
        }
        let mut segs: Vec<Segment> = Vec::new();
        let mut top: u32 = 0;
        let mut i: usize = 0;
        proof {
            assert(descs@.subrange(0, 0) =~= Seq::empty());
        }
        while i < descs.len()
            invariant
                i <= descs@.len(),
                1 <= bits <= 32,
                files@.len() == descs@.len(),
                first_error(bits, descs@, files@, 0) == first_error(
                    bits,
                    descs@,
                    files@,
                    i as int,
                ),
                segs@.len() == i,
                forall|j: int|
                    0 <= j < i ==> segment_opened(#[trigger] segs@[j], descs@[j], files@[j])
                        && segs@[j].inv(),
                top == max_id(descs@.subrange(0, i as int)),
            decreases descs@.len() - i,
        {
            let d: SegDesc = descs[i];
            let f = &files[i];
            check_segment(bits, d, f)?;
            let sealed = d.flags & 1 != 0;
            let fuse: Option<Vec<u64>> = if sealed {
                match &f.fuse {
                    Some(keys) => Some(sort_dedup(keys)),
                    None => None,
                }
            } else {
                None
            };
            let seg = Segment {
                first_fk: d.first_fk,
                count: d.count,
                file_id: d.file_id,
                sealed,
                entries: copy_entries(&f.entries),
                fuse,
                open_keys: Vec::new(),
            };
            segs.push(seg);
            proof {
                let p = descs@.subrange(0, i + 1);
                assert(p.drop_last() =~= descs@.subrange(0, i as int));
                assert(p.last() == d);
            }
            if d.file_id > top {
                top = d.file_id;
            }
            i += 1;
        }
        check_order(descs)?;
        let next_file_id: u32 = if top == 0xffff_ffff {
            top
        } else {
            top + 1
        };
        proof {
            assert(descs@.subrange(0, i as int) =~= descs@);
            assert forall|j: int| 0 <= j < segs@.len() - 1 implies (#[trigger] segs@[j]).sealed by {
                assert(desc_sealed(descs@[j]));
            }
            let ds = descs_of(segs@);
            assert forall|a: int, b: int| 0 <= a && b == a + 1 && b < ds.len() implies (
            #[trigger] ds[b]).first_fk == (#[trigger] ds[a]).first_fk + ds[a].count by {
                assert(segment_opened(segs@[a], descs@[a], files@[a]));
                assert(segment_opened(segs@[b], descs@[b], files@[b]));
                assert(descs@[b].first_fk == descs@[a].first_fk + descs@[a].count);
            }
        }
        Ok(SegmentedTxHead { layout, segs, next_file_id })
    }
}

/// The stored form of a segment.
pub open spec fn stored_as(s: Segment, bits: u32, f: SegmentFile) -> bool {
    &&& f.bits == bits
    &&& f.entry_bytes == 4
    &&& f.entries@ == s.entries@
    &&& s.sealed ==> f.fuse is Some && f.fuse->0@ == s.fuse->0@
}

/// A head whose segments follow each other opens again, with the same creates.
pub proof fn law_reopen(h: SegmentedTxHead, files: Seq<SegmentFile>, r: SegmentedTxHead)
    requires
        h.inv(),
        h.chained(),
        files.len() == h.segs@.len(),
        forall|i: int|
            0 <= i < files.len() ==> stored_as(h.segs@[i], h.layout.bits, #[trigger] files[i]),
        r.segs@.len() == h.segs@.len(),
        forall|i: int|
            0 <= i < files.len() ==> segment_opened(
                #[trigger] r.segs@[i],
                descs_of(h.segs@)[i],
                files[i],
            ),
    ensures
        open_error(h.layout.bits, descs_of(h.segs@), files) is None,
        r.pairs() == h.pairs(),
        descs_of(r.segs@) == descs_of(h.segs@),
{
    let ds = descs_of(h.segs@);
    assert(1u32 & 1 != 0 && 0u32 & 1 == 0) by (bit_vector);
    lemma_no_error(h, files, 0);
    assert forall|i: int| 0 <= i < ds.len() - 1 implies desc_sealed(#[trigger] ds[i]) by {
        assert(h.segs@[i].sealed);
    }
    assert forall|i: int| 0 <= i < ds.len() implies #[trigger] descs_of(r.segs@)[i] == ds[i] && r.segs@[i].entries@ == h.segs@[i].entries@ by {
        assert(segment_opened(r.segs@[i], ds[i], files[i]));
        assert(stored_as(h.segs@[i], h.layout.bits, files[i]));
        assert(h.segs@[i].inv());
        lemma_all_used(h.segs@[i].entries@);
    }
    assert(descs_of(r.segs@) =~= ds);
    lemma_same_pairs(h.segs@, r.segs@);
}

proof fn lemma_no_error(h: SegmentedTxHead, files: Seq<SegmentFile>, i: int)
    requires
        h.inv(),
        0 <= i <= files.len(),
        files.len() == h.segs@.len(),
        1u32 & 1 != 0 && 0u32 & 1 == 0,
        forall|i: int|
            0 <= i < files.len() ==> stored_as(h.segs@[i], h.layout.bits, #[trigger] files[i]),
    ensures
        first_error(h.layout.bits, descs_of(h.segs@), files, i) is None,
    decreases files.len() - i,
{
    if i < files.len() {
        lemma_no_error(h, files, i + 1);
        assert(stored_as(h.segs@[i], h.layout.bits, files[i]));
        let d = descs_of(h.segs@)[i];
        assert(d == desc_of(h.segs@[i]));
    }
}

proof fn lemma_same_pairs(a: Seq<Segment>, b: Seq<Segment>)
    requires
        a.len() == b.len(),
        descs_of(a) == descs_of(b),
        forall|i: int| 0 <= i < a.len() ==> (#[trigger] a[i]).entries@ == b[i].entries@,
    ensures
        all_pairs(a) == all_pairs(b),
    decreases a.len(),
{
    if a.len() > 0 {
        let n = a.len() - 1;
        assert(descs_of(a)[n] == descs_of(b)[n]);
        assert(a[n].entries@ == b[n].entries@);
        assert(descs_of(a.drop_last()) =~= descs_of(a).drop_last());
        assert(descs_of(b.drop_last()) =~= descs_of(b).drop_last());
        assert forall|i: int| 0 <= i < n implies (#[trigger] a.drop_last()[i]).entries@ == b.drop_last()[i].entries@ by {
            assert(a[i].entries@ == b[i].entries@);
        }
        lemma_same_pairs(a.drop_last(), b.drop_last());
        assert(descs_of(a)[n] == desc_of(a[n]));
        assert(descs_of(b)[n] == desc_of(b[n]));
        assert(seg_pairs(a[n]) =~= seg_pairs(b[n]));
    }
}

} // verus!
