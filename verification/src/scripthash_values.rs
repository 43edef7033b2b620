//! Head values and the body blocks behind them.
//!
//! A value is sound for a key if the blocks it names belong to that key and
//! decode to the key's list of creates. Packing, appending and freeing keep
//! every block of every other key.

use vstd::prelude::*;
use crate::bytes::{lemma_overlay_at, push_zeros};
use crate::error::StoreError;
use crate::primitives::Fk;
use crate::scripthash_body::{extent_read, goes_on, kept, kept_but, last_of, last_opt, lemma_slab_class, page_at, span_read, value_fks, value_last, walk, Block, ShBody, SH_BODY_MAX, SH_PAGE_SPAN_MAX};
use crate::scripthash_layout::{class_bytes, entry_fks, fks_to_entries, slab_bytes, ShEntry, ShHeadValue, SH_MAX_SLAB_CLASS, SH_PAGE_SLAB_CLASS};
use crate::scripthash_pack8::{law_pack8_roundtrip, pack8, packed_form, unpack8};
use crate::scripthash_pages::{append_err, append_fits, extent_image, flagged, is_extent_cut, law_extent_image, law_page_append, law_page_image, lemma_with_next, page_appended, page_extent, page_fks, page_image, page_next, page_read, sh_extent_chunk_ranges, sh_page_extent, sh_page_pack, sh_page_pack_extent_last, sh_page_set_next, sh_page_try_append, zeros, SH_PAGE_SIZE};
use crate::scripthash_slabs::{encode_slab_payload, fk_stream, fks_ok, is_class_for_len, is_slack_class_for, law_slab_roundtrip, lemma_unstream_ok, slab_class_for_n_fks_with_slack, slab_class_for_packed_len, slab_fks, slab_payload, SH_MEGAKEY_MIN_FKS};

verus! {

/// Create keys that every value form can hold: valid and below 2^63.
pub open spec fn fks_small(fks: Seq<Fk>) -> bool {
    fks_ok(fks) && forall|i: int| 0 <= i < fks.len() ==> (#[trigger] fks[i]).0
        < 0x8000_0000_0000_0000
}

/// Keys of a chain of pages.
pub open spec fn chain_fks(bytes: Seq<u8>, pages: Seq<int>) -> Seq<Fk>
    decreases pages.len(),
{
    if pages.len() == 0 {
        Seq::empty()
    } else {
        chain_fks(bytes, pages.drop_last()) + page_fks(page_at(bytes, pages.last()))->Ok_0
    }
}

/// Page `i` of the chain can be read and is linked to the next one.
pub open spec fn link_ok(bytes: Seq<u8>, pages: Seq<int>, i: int) -> bool {
    let p = page_at(bytes, pages[i]);
    &&& 4096 <= pages[i]
    &&& pages[i] + 4096 <= bytes.len()
    &&& page_read(p) is Ok
    &&& page_fks(p)->Ok_0.len() > 0
    &&& page_next(p) is Ok
    &&& page_next(p)->Ok_0 == (if i + 1 < pages.len() {
        pages[i + 1]
    } else {
        0int
    })
}

/// A chain of pages that can be read from end to end.
pub open spec fn chain_sound(bytes: Seq<u8>, pages: Seq<int>) -> bool {
    &&& pages.len() >= 1
    &&& forall|i: int| 0 <= i < pages.len() ==> #[trigger] link_ok(bytes, pages, i)
    &&& forall|i: int, j: int|
        0 <= i < j < pages.len() ==> (#[trigger] pages[i]) != (#[trigger] pages[j])
    &&& fks_ok(chain_fks(bytes, pages))
}

/// A sound chain whose last page names its contiguous part.
pub open spec fn extent_sound(bytes: Seq<u8>, last: int, pages: Seq<int>) -> bool {
    &&& chain_sound(bytes, pages)
    &&& pages.last() == last
    &&& page_extent(page_at(bytes, last)) is Some
    &&& ({
        let (base, n) = page_extent(page_at(bytes, last))->0;
        &&& base == pages[0]
        &&& 1 <= n <= pages.len()
        &&& forall|i: int| 0 <= i < n ==> #[trigger] pages[i] == base + 4096 * i
    })
}

/// The block at `o` has that class and belongs to `k`.
pub open spec fn owned(b: &ShBody, o: int, class: nat, k: Seq<u8>) -> bool {
    &&& b.blocks@.dom().contains(o)
    &&& b.blocks@[o] == (Block { class, owner: Some(k) })
}

/// The value stands for `fks`, which lie in the blocks at `pages` of key `k`.
#[verifier::opaque]
pub open spec fn holds_value(
    b: &ShBody,
    v: ShHeadValue,
    k: Seq<u8>,
    pages: Seq<int>,
    fks: Seq<Fk>,
) -> bool {
    &&& fks_small(fks)
    &&& match v {
        ShHeadValue::Empty => fks.len() == 0 && pages.len() == 0,
        ShHeadValue::Inline { entries, used } => used == 1 && pages.len() == 0 && fks.len() == 1
            && entries == [ShEntry { create_tx_fk: fks[0] }, ShEntry { create_tx_fk: Fk(0) }],
        ShHeadValue::Slab { class, used, off } => {
            &&& pages == seq![off as int]
            &&& class <= 6
            &&& owned(b, off as int, class as nat, k)
            &&& slab_fks(b.bytes@.subrange(off as int, off + class_bytes(class as nat))) == Ok::<
                Seq<Fk>,
                StoreError,
            >(fks)
            &&& fks.len() == used
            &&& fks.len() >= 1
        },
        ShHeadValue::Extent { last_page } => {
            &&& extent_sound(b.bytes@, last_page as int, pages)
            &&& chain_fks(b.bytes@, pages) == fks
            &&& forall|i: int| 0 <= i < pages.len() ==> owned(b, #[trigger] pages[i], 7, k)
        },
        ShHeadValue::Paged { .. } => false,
    }
}

pub proof fn lemma_chain_split(bytes: Seq<u8>, pages: Seq<int>, i: int)
    requires
        0 <= i <= pages.len(),
    ensures
        chain_fks(bytes, pages) == chain_fks(bytes, pages.subrange(0, i)) + chain_fks(
            bytes,
            pages.subrange(i, pages.len() as int),
        ),
    decreases pages.len(),
{
    if i == pages.len() {
        assert(pages.subrange(0, i) =~= pages);
        assert(chain_fks(bytes, pages) + chain_fks(bytes, pages.subrange(i, i)) =~= chain_fks(
            bytes,
            pages,
        ));
    } else {
        let d = pages.drop_last();
        lemma_chain_split(bytes, d, i);
        assert(d.subrange(0, i) =~= pages.subrange(0, i));
        let t = pages.subrange(i, pages.len() as int);
        assert(t.drop_last() =~= d.subrange(i, d.len() as int));
        assert(t.last() == pages.last());
        let x = chain_fks(bytes, pages.subrange(0, i));
        let y = chain_fks(bytes, t.drop_last());
        let z = page_fks(page_at(bytes, pages.last()))->Ok_0;
        assert((x + y) + z =~= x + (y + z));
    }
}

pub proof fn lemma_chain_one(bytes: Seq<u8>, p: int)
    ensures
        chain_fks(bytes, seq![p]) == page_fks(page_at(bytes, p))->Ok_0,
{
    assert(seq![p].drop_last() =~= Seq::<int>::empty());
    let s = page_fks(page_at(bytes, p))->Ok_0;
    assert(chain_fks(bytes, Seq::<int>::empty()) + s =~= s);
}

/// The keys from page `i` on: those of page `i`, then the rest.
proof fn lemma_chain_first(bytes: Seq<u8>, pages: Seq<int>, i: int)
    requires
        0 <= i < pages.len(),
    ensures
        chain_fks(bytes, pages.subrange(i, pages.len() as int)) == page_fks(
            page_at(bytes, pages[i]),
        )->Ok_0 + chain_fks(bytes, pages.subrange(i + 1, pages.len() as int)),
        chain_fks(bytes, pages.subrange(0, i + 1)) == chain_fks(bytes, pages.subrange(0, i))
            + page_fks(page_at(bytes, pages[i]))->Ok_0,
{
    let n = pages.len() as int;
    let t = pages.subrange(i, n);
    lemma_chain_split(bytes, t, 1);
    assert(t.subrange(0, 1) =~= seq![pages[i]]);
    assert(t.subrange(1, t.len() as int) =~= pages.subrange(i + 1, n));
    lemma_chain_one(bytes, pages[i]);
    assert(pages.subrange(0, i + 1).drop_last() =~= pages.subrange(0, i));
}

/// Strictly increasing keys below 2^63 are fewer than 2^63.
pub proof fn lemma_fks_len(fks: Seq<Fk>, i: int)
    requires
        fks_ok(fks),
        0 <= i < fks.len(),
    ensures
        fks[i].0 > i,
    decreases i,
{
    if i > 0 {
        lemma_fks_len(fks, i - 1);
        assert(fks[i - 1].0 < fks[i].0);
    }
}

/// A chain has at least one key per page.
proof fn lemma_chain_count(bytes: Seq<u8>, pages: Seq<int>, i: int)
    requires
        chain_sound(bytes, pages),
        0 <= i <= pages.len(),
    ensures
        chain_fks(bytes, pages.subrange(0, i)).len() >= i,
    decreases i,
{
    if i > 0 {
        lemma_chain_count(bytes, pages, i - 1);
        lemma_chain_first(bytes, pages, i - 1);
        assert(link_ok(bytes, pages, i - 1));
    }
}

proof fn lemma_chain_short(bytes: Seq<u8>, pages: Seq<int>)
    requires
        chain_sound(bytes, pages),
    ensures
        pages.len() <= chain_fks(bytes, pages).len() < 0x8000_0000_0000_0000,
{
    lemma_chain_count(bytes, pages, pages.len() as int);
    assert(pages.subrange(0, pages.len() as int) =~= pages);
    let fks = chain_fks(bytes, pages);
    lemma_fks_len(fks, fks.len() - 1);
    assert(!flagged(fks[fks.len() - 1].0));
}

/// The keys before page `i` end below those of page `i`.
proof fn lemma_chain_goes_on(bytes: Seq<u8>, pages: Seq<int>, i: int)
    requires
        chain_sound(bytes, pages),
        0 <= i < pages.len(),
    ensures
        ({
            let before = chain_fks(bytes, pages.subrange(0, i));
            let seg = page_fks(page_at(bytes, pages[i]))->Ok_0;
            &&& goes_on(seg, last_of(before, -1))
            &&& seg.len() > 0
            &&& last_of(seg, last_of(before, -1)) == last_of(
                chain_fks(bytes, pages.subrange(0, i + 1)),
                -1,
            )
        }),
{
    let n = pages.len() as int;
    let before = chain_fks(bytes, pages.subrange(0, i));
    let seg = page_fks(page_at(bytes, pages[i]))->Ok_0;
    let all = chain_fks(bytes, pages);
    assert(link_ok(bytes, pages, i));
    lemma_chain_split(bytes, pages, i);
    lemma_chain_first(bytes, pages, i);
    let rest = chain_fks(bytes, pages.subrange(i + 1, n));
    assert(all =~= before + seg + rest);
    assert(all[before.len() as int] == seg[0]);
    if before.len() > 0 {
        assert(all[before.len() - 1] == before.last());
        assert(all[before.len() - 1].0 < all[before.len() as int].0);
    }
}

/// Walking a sound chain gives its keys.
proof fn lemma_walk_sound(bytes: Seq<u8>, pages: Seq<int>, i: int, fuel: nat)
    requires
        chain_sound(bytes, pages),
        0 <= i < pages.len(),
        fuel >= pages.len() - i,
    ensures
        walk(
            bytes,
            pages[i],
            last_of(chain_fks(bytes, pages.subrange(0, i)), -1),
            fuel,
        ) == Ok::<Seq<Fk>, StoreError>(
            chain_fks(bytes, pages.subrange(i, pages.len() as int)),
        ),
    decreases pages.len() - i,
{
    let n = pages.len() as int;
    lemma_chain_first(bytes, pages, i);
    lemma_chain_goes_on(bytes, pages, i);
    assert(link_ok(bytes, pages, i));
    let seg = page_fks(page_at(bytes, pages[i]))->Ok_0;
    if i + 1 < n {
        assert(link_ok(bytes, pages, i + 1));
        lemma_walk_sound(bytes, pages, i + 1, (fuel - 1) as nat);
    } else {
        assert(pages.subrange(i + 1, n) =~= Seq::<int>::empty());
        assert(seg + chain_fks(bytes, Seq::<int>::empty()) =~= seg);
    }
}

/// Reading the contiguous part of a sound chain gives its keys.
proof fn lemma_span_sound(bytes: Seq<u8>, pages: Seq<int>, base: int, i: int, n: int)
    requires
        chain_sound(bytes, pages),
        0 <= i < n <= pages.len(),
        forall|j: int| 0 <= j < n ==> #[trigger] pages[j] == base + 4096 * j,
    ensures
        span_read(
            bytes,
            base,
            i,
            n,
            last_of(chain_fks(bytes, pages.subrange(0, i)), -1),
        ) == Ok::<(Seq<Fk>, u64), StoreError>(
            (
                chain_fks(bytes, pages.subrange(i, n)),
                (if n < pages.len() {
                    pages[n]
                } else {
                    0int
                }) as u64,
            ),
        ),
    decreases n - i,
{
    let head = pages.subrange(0, n);
    lemma_chain_first(bytes, head, i);
    assert(head.subrange(i, n) =~= pages.subrange(i, n));
    assert(head.subrange(i + 1, n) =~= pages.subrange(i + 1, n));
    lemma_chain_goes_on(bytes, pages, i);
    assert(link_ok(bytes, pages, i));
    assert(pages[i] == base + 4096 * i);
    let seg = page_fks(page_at(bytes, pages[i]))->Ok_0;
    if i + 1 < n {
        assert(pages[i + 1] == base + 4096 * (i + 1));
        lemma_span_sound(bytes, pages, base, i + 1, n);
    } else {
        assert(pages.subrange(i + 1, n) =~= Seq::<int>::empty());
        assert(seg + chain_fks(bytes, Seq::<int>::empty()) =~= seg);
        if n < pages.len() {
            assert(link_ok(bytes, pages, n));
        }
    }
}

/// The contiguous part of an extent is too long for one read.
pub open spec fn span_too_long(bytes: Seq<u8>, v: ShHeadValue) -> bool {
    match v {
        ShHeadValue::Extent { last_page } => {
            let ext = page_extent(page_at(bytes, last_page as int));
            ext is Some && 4096 * (ext->0).1 > SH_PAGE_SPAN_MAX
        },
        _ => false,
    }
}

/// Walking a sound chain from its first page gives the creates of all its pages.
pub proof fn law_chain_walk(bytes: Seq<u8>, pages: Seq<int>)
    requires
        chain_sound(bytes, pages),
        pages.len() <= u64::MAX,
    ensures
        crate::scripthash_body::chain_read(bytes, pages[0]) == Ok::<Seq<Fk>, StoreError>(
            chain_fks(bytes, pages),
        ),
{
    lemma_walk_sound(bytes, pages, 0, u64::MAX as nat);
    assert(link_ok(bytes, pages, 0));
    assert(pages.subrange(0, 0) =~= Seq::empty());
    assert(pages.subrange(0, pages.len() as int) =~= pages);
    assert(chain_fks(bytes, pages.subrange(0, 0)) =~= Seq::empty());
}

/// Reading an extent gives the keys of its chain.
pub proof fn lemma_extent_read(bytes: Seq<u8>, last: int, pages: Seq<int>, cap: int)
    requires
        extent_sound(bytes, last, pages),
    ensures
        ({
            let n = (page_extent(page_at(bytes, last))->0).1;
            extent_read(bytes, last, cap) == if 4096 * n > cap {
                Err::<Seq<Fk>, StoreError>(StoreError::Corrupt("scripthash extent span overflow"))
            } else {
                Ok::<Seq<Fk>, StoreError>(chain_fks(bytes, pages))
            }
        }),
{
    let (base, n) = page_extent(page_at(bytes, last))->0;
    let m = pages.len() as int;
    assert(link_ok(bytes, pages, m - 1));
    assert(link_ok(bytes, pages, n - 1));
    assert(pages[n - 1] == base + 4096 * (n - 1));
    if 4096 * n <= cap {
        assert(pages.subrange(0, 0) =~= Seq::<int>::empty());
        lemma_span_sound(bytes, pages, base as int, 0, n as int);
        lemma_chain_split(bytes, pages, n as int);
        if n < m {
            assert(pages[n - 1] != pages[m - 1]);
            assert(link_ok(bytes, pages, n as int));
            lemma_chain_short(bytes, pages);
            lemma_walk_sound(bytes, pages, n as int, u64::MAX as nat);
        } else {
            assert(pages.subrange(0, m) =~= pages);
        }
    }
}

/// A sound value reads as its keys, unless its contiguous part is too long.
pub proof fn lemma_holds_read(
    b: &ShBody,
    v: ShHeadValue,
    k: Seq<u8>,
    pages: Seq<int>,
    fks: Seq<Fk>,
)
    requires
        b.heap_ok(),
        holds_value(b, v, k, pages, fks),
    ensures
        value_fks(b.bytes@, v) == (if span_too_long(b.bytes@, v) {
            Err::<Seq<Fk>, StoreError>(StoreError::Corrupt("scripthash extent span overflow"))
        } else {
            Ok::<Seq<Fk>, StoreError>(fks)
        }),
{
    reveal(holds_value);
    match v {
        ShHeadValue::Inline { entries, used } => {
            assert(entry_fks(v.inline_seq()) =~= fks);
        },
        ShHeadValue::Empty => {
            assert(fks =~= Seq::<Fk>::empty());
        },
        ShHeadValue::Slab { class, used, off } => {
            lemma_slab_class(class as nat);
        },
        ShHeadValue::Extent { last_page } => {
            lemma_extent_read(b.bytes@, last_page as int, pages, SH_PAGE_SPAN_MAX as int);
        },
        ShHeadValue::Paged { .. } => {},
    }
}

/// Chains that lie in equal pages are equal.
proof fn lemma_chain_frame(a: Seq<u8>, b: Seq<u8>, pages: Seq<int>)
    requires
        forall|i: int|
            0 <= i < pages.len() ==> page_at(a, #[trigger] pages[i]) == page_at(b, pages[i]),
    ensures
        chain_fks(a, pages) == chain_fks(b, pages),
    decreases pages.len(),
{
    if pages.len() > 0 {
        let d = pages.drop_last();
        assert forall|i: int| 0 <= i < d.len() implies page_at(a, #[trigger] d[i]) == page_at(
            b,
            d[i],
        ) by {
            assert(d[i] == pages[i]);
        }
        lemma_chain_frame(a, b, d);
        assert(page_at(a, pages[pages.len() - 1]) == page_at(b, pages[pages.len() - 1]));
    }
}

/// A value stays sound while its blocks are kept.
pub proof fn lemma_holds_frame(
    a: &ShBody,
    b: &ShBody,
    v: ShHeadValue,
    k: Seq<u8>,
    pages: Seq<int>,
    fks: Seq<Fk>,
)
    requires
        holds_value(a, v, k, pages, fks),
        forall|i: int| 0 <= i < pages.len() ==> kept(a, b, #[trigger] pages[i]),
        b.heap_ok(),
    ensures
        holds_value(b, v, k, pages, fks),
{
    reveal(holds_value);
    match v {
        ShHeadValue::Slab { class, used, off } => {
            assert(kept(a, b, pages[0]));
        },
        ShHeadValue::Extent { last_page } => {
            lemma_slab_class(7);
            assert forall|i: int| 0 <= i < pages.len() implies page_at(a.bytes@, #[trigger] pages[i])
                == page_at(b.bytes@, pages[i]) by {
                assert(kept(a, b, pages[i]));
                assert(owned(a, pages[i], 7, k));
            }
            lemma_chain_frame(a.bytes@, b.bytes@, pages);
            assert forall|i: int| 0 <= i < pages.len() implies #[trigger] link_ok(
                b.bytes@,
                pages,
                i,
            ) by {
                assert(link_ok(a.bytes@, pages, i));
                assert(kept(a, b, pages[i]));
                assert(page_at(a.bytes@, pages[i]) == page_at(b.bytes@, pages[i]));
            }
            assert forall|i: int| 0 <= i < pages.len() implies owned(b, #[trigger] pages[i], 7, k) by {
                assert(kept(a, b, pages[i]));
                assert(owned(a, pages[i], 7, k));
            }
            assert(page_at(a.bytes@, pages[pages.len() - 1]) == page_at(
                b.bytes@,
                pages[pages.len() - 1],
            ));
        },
        _ => {},
    }
}

/// Class of a slab for `n` keys that take `len` bytes: with `slack` one with a
/// spare slot where there is one, else the smallest that holds the bytes.
pub open spec fn is_fitting(n: u32, len: int, slack: bool, r: Option<u8>) -> bool {
    if slack {
        exists|start: Option<u8>|
            #[trigger] is_slack_class_for(n, start) && match (start, r) {
                (None, r) => r is None,
                (Some(s), None) => s <= 6 && len > class_bytes(6),
                (Some(s), Some(c)) => s <= c <= 6 && class_bytes(c as nat) >= len && forall|d: nat|
                    s <= d < c ==> class_bytes(d) < len,
            }
    } else {
        is_class_for_len(len, r)
    }
}

/// Class of a slab for `n` keys that take `len` bytes.
fn slab_class_fitting(n: u32, packed_len: usize, slack: bool) -> (r: Option<u8>)
    ensures
        is_fitting(n, packed_len as int, slack, r),
        r matches Some(c) ==> c <= 6 && class_bytes(c as nat) >= packed_len,
{
    if slack {
        let start = slab_class_for_n_fks_with_slack(n);
        assert(is_slack_class_for(n, start));
        match start {
            None => None,
            Some(s) => {
                let mut c: u8 = s;
                while c <= SH_MAX_SLAB_CLASS
                    invariant
                        s <= c <= 7,
                        s <= 6,
                        slack,
                        is_slack_class_for(n, Some(s)),
                        forall|d: nat| s <= d < c ==> class_bytes(d) < packed_len,
                    decreases 7 - c,
                {
                    if slab_bytes(c) >= packed_len as u64 {
                        return Some(c);
                    }
                    c += 1;
                }
                assert(class_bytes(6) < packed_len);
                None
            },
        }
    } else {
        slab_class_for_packed_len(packed_len)
    }
}

/// What packing `live` gives: nothing, one inline key, a slab, or pages.
pub open spec fn is_packing(v: ShHeadValue, live: Seq<Fk>, slack: bool, pages_from: int) -> bool {
    if live.len() == 0 {
        v is Empty
    } else if live.len() == 1 {
        v is Inline
    } else if live.len() >= pages_from {
        v is Extent
    } else {
        match v {
            ShHeadValue::Slab { class, .. } => is_fitting(
                live.len() as u32,
                slab_payload(live).len() as int,
                slack,
                Some(class),
            ),
            ShHeadValue::Extent { .. } => is_fitting(
                live.len() as u32,
                slab_payload(live).len() as int,
                slack,
                None,
            ),
            _ => false,
        }
    }
}

/// The space that `n` keys may take is at hand.
pub open spec fn can_hold(b: &ShBody, n: int) -> bool {
    b.has_space(4096 * (n + 3))
}

/// At most that much of the space was used.
pub open spec fn used_at_most(a: &ShBody, b: &ShBody, room: int) -> bool {
    a.bump <= b.bump <= a.bump + room && a.bytes@.len() <= b.bytes@.len() <= a.bytes@.len() + room
}

impl ShBody {
    /// Writes keys into a slab that belongs to `k`.
    fn write_slab(&mut self, class: u8, off: u64, payload: Vec<u8>, Ghost(fks): Ghost<Seq<Fk>>)
        requires
            old(self).heap_ok(),
            class <= 6,
            old(self).blocks@.dom().contains(off as int),
            old(self).blocks@[off as int].class == class,
            old(self).blocks@[off as int].owner is Some,
            payload@ == slab_payload(fks),
            payload@.len() <= class_bytes(class as nat),
            fks_ok(fks),
            fks.len() <= u16::MAX,
        ensures
            final(self).heap_ok(),
            final(self).blocks@ == old(self).blocks@,
            final(self).bump == old(self).bump,
            final(self).bytes@.len() == old(self).bytes@.len(),
            final(self).live_count == old(self).live_count,
            kept_but(old(self), final(self), off as int),
            slab_fks(
                final(self).bytes@.subrange(off as int, off + class_bytes(class as nat)),
            ) == Ok::<Seq<Fk>, StoreError>(fks),
    {
        proof {
            lemma_slab_class(class as nat);
        }
        let mut buf: Vec<u8> = payload;
        let n: usize = slab_bytes(class) as usize;
        let pad: usize = n - buf.len();
        push_zeros(&mut buf, pad);
        self.write_block(off, buf.as_slice(), Ghost(off as int));
        proof {
            let b0 = old(self).bytes@;
            lemma_overlay_at(b0, off as int, buf@);
            law_slab_roundtrip(fks, zeros(pad as nat));
        }
    }

    /// Writes page `pi` of a new extent.
    fn write_extent_page(
        &mut self,
        live: &Vec<Fk>,
        cuts: &Vec<(usize, usize)>,
        pi: usize,
        base: u64,
        Ghost(k): Ghost<Seq<u8>>,
    )
        requires
            old(self).heap_ok(),
            is_extent_cut(live@, cuts@),
            pi < cuts@.len() <= u32::MAX,
            base + 4096 * cuts@.len() <= SH_BODY_MAX,
            owned(old(self), base + 4096 * pi, 7, k),
        ensures
            final(self).heap_ok(),
            final(self).blocks@ == old(self).blocks@,
            final(self).bump == old(self).bump,
            final(self).bytes@.len() == old(self).bytes@.len(),
            final(self).live_count == old(self).live_count,
            kept_but(old(self), final(self), base + 4096 * pi),
            page_at(final(self).bytes@, base + 4096 * pi) == extent_page(
                live@,
                cuts@,
                pi as int,
                base,
            ),
    {
        proof {
            lemma_slab_class(7);
        }
        let n: usize = cuts.len();
        let (start, end) = cuts[pi];
        let off: u64 = base + pi as u64 * 4096;
        let seg = copy_fks(live, start, end);
        let ents = fks_to_entries(seg.as_slice());
        let mut page: [u8; 4096] = [0u8; 4096];
        proof {
            assert(cuts@[pi as int] == (start, end));
            if pi + 1 == n {
                law_extent_image(0, base, n as u32, seg@);
            } else {
                law_page_image((off + 4096) as u64, seg@);
            }
        }
        let done: Result<(), StoreError>;
        if pi + 1 == n {
            done = sh_page_pack_extent_last(&mut page, ents.as_slice(), base, n as u32, 0);
        } else {
            done = sh_page_pack(&mut page, ents.as_slice(), off + 4096);
        }
        proof {
            assert(done is Ok);
            assert(page@ == extent_page(live@, cuts@, pi as int, base));
        }
        self.write_block(off, page.as_slice(), Ghost(off as int));
        proof {
            lemma_overlay_at(old(self).bytes@, off as int, page@);
        }
    }

    /// Writes a chain of contiguous pages; gives the offset of its last page.
    pub(crate) fn write_new_page_chain(&mut self, live: &Vec<Fk>, Ghost(k): Ghost<Seq<u8>>) -> (r: (
        u64,
        Ghost<Seq<int>>,
    ))
        requires
            old(self).heap_ok(),
            fks_small(live@),
            live@.len() >= 1,
            can_hold(old(self), live@.len() as int),
        ensures
            final(self).heap_ok(),
            final(self).live_count == old(self).live_count,
            kept_but(old(self), final(self), -1),
            used_at_most(old(self), final(self), 4096 * (live@.len() as int + 1)),
            fk_stream(live@).len() <= 4080 ==> used_at_most(old(self), final(self), 12_288),
            holds_value(final(self), (ShHeadValue::Extent { last_page: r.0 }), k, r.1@, live@),
            r.0 < SH_BODY_MAX,
            r.0 + 4096 == final(self).bump,
            forall|i: int|
                0 <= i < r.1@.len() ==> !old(self).blocks@.dom().contains(#[trigger] r.1@[i]),
    {
        proof {
            reveal(holds_value);
        }
        let ghost s0 = *self;
        let cuts = sh_extent_chunk_ranges(live.as_slice());
        let n: usize = cuts.len();
        let base: u64 = self.alloc_extent(n, Ghost(k));
        let ghost s1 = *self;
        let ghost pages = Seq::new(n as nat, |i: int| base + 4096 * i);
        let mut pi: usize = 0;
        proof {
            assert forall|i: int| 0 <= i < n implies owned(&s1, #[trigger] pages[i], 7, k)
                && !s0.blocks@.dom().contains(pages[i]) by {
                assert(s1.blocks@.dom().contains(base + 4096 * i));
                assert(!s0.blocks@.dom().contains(base + 4096 * i));
            }
        }
        while pi < n
            invariant
                pi <= n,
                n == cuts@.len() == pages.len(),
                n <= u32::MAX,
                is_extent_cut(live@, cuts@),
                base + 4096 * n <= SH_BODY_MAX,
                self.heap_ok(),
                s0.heap_ok(),
                self.blocks@ == s1.blocks@,
                self.bump == s1.bump,
                self.bytes@.len() == s1.bytes@.len(),
                self.live_count == s0.live_count,
                kept_but(&s0, self, -1),
                forall|i: int|
                    0 <= i < n ==> #[trigger] pages[i] == base + 4096 * i && owned(
                        &s1,
                        pages[i],
                        7,
                        k,
                    ) && !s0.blocks@.dom().contains(pages[i]),
                forall|i: int|
                    0 <= i < pi ==> page_at(self.bytes@, #[trigger] pages[i]) == extent_page(
                        live@,
                        cuts@,
                        i,
                        base,
                    ),
            decreases n - pi,
        {
            let ghost before = *self;
            proof {
                assert(pages[pi as int] == base + 4096 * pi);
            }
            self.write_extent_page(live, &cuts, pi, base, Ghost(k));
            proof {
                lemma_slab_class(7);
                assert forall|i: int| 0 <= i < pi + 1 implies page_at(
                    self.bytes@,
                    #[trigger] pages[i],
                ) == extent_page(live@, cuts@, i, base) by {
                    if i < pi {
                        assert(owned(&s1, pages[i], 7, k));
                        assert(before.blocks@.dom().contains(pages[i]));
                        assert(kept(&before, self, pages[i]));
                    }
                }
                lemma_kept_trans(&s0, &before, self, pages[pi as int]);
            }
            pi += 1;
        }
        proof {
            lemma_new_chain(self.bytes@, live@, cuts@, base, pages);
            assert forall|i: int| 0 <= i < pages.len() implies owned(
                self,
                #[trigger] pages[i],
                7,
                k,
            ) by {
                assert(owned(&s1, pages[i], 7, k));
            }
        }
        (base + (n as u64 - 1) * 4096, Ghost(pages))
    }
}

/// Keeping is transitive; the second step may touch a block that was not owned.
pub(crate) proof fn lemma_kept_trans(a: &ShBody, m: &ShBody, b: &ShBody, touched: int)
    requires
        a.heap_ok(),
        kept_but(a, m, -1),
        kept_but(m, b, touched),
        !owned_at(a, touched),
    ensures
        kept_but(a, b, -1),
{
    assert forall|o: int|
        #[trigger] a.blocks@.dom().contains(o) && a.blocks@[o].owner is Some && o != -1 implies kept(
        a,
        b,
        o,
    ) by {
        assert(kept(a, m, o));
        assert(m.blocks@.dom().contains(o));
        assert(kept(m, b, o));
    }
}

/// Bytes of page `i` of a new extent.
pub open spec fn extent_page(
    live: Seq<Fk>,
    cuts: Seq<(usize, usize)>,
    i: int,
    base: u64,
) -> Seq<u8> {
    let seg = live.subrange(cuts[i].0 as int, cuts[i].1 as int);
    if i + 1 == cuts.len() {
        extent_image(0, base, cuts.len() as u32, seg)
    } else {
        page_image((base + 4096 * i + 4096) as u64, seg)
    }
}

pub(crate) fn copy_fks(v: &Vec<Fk>, lo: usize, hi: usize) -> (r: Vec<Fk>)
    requires
        lo <= hi <= v@.len(),
    ensures
        r@ == v@.subrange(lo as int, hi as int),
{
    let mut out: Vec<Fk> = Vec::new();
    let mut i: usize = lo;
    while i < hi
        invariant
            lo <= i <= hi <= v@.len(),
            out@ =~= v@.subrange(lo as int, i as int),
        decreases hi - i,
    {
        out.push(v[i]);
        i += 1;
    }
    out
}

/// One page of a new extent reads as its part of the keys.
proof fn lemma_extent_page(live: Seq<Fk>, cuts: Seq<(usize, usize)>, i: int, base: u64)
    requires
        is_extent_cut(live, cuts),
        0 <= i < cuts.len(),
        base + 4096 * cuts.len() <= SH_BODY_MAX,
        cuts.len() <= u32::MAX,
    ensures
        ({
            let p = extent_page(live, cuts, i, base);
            let seg = live.subrange(cuts[i].0 as int, cuts[i].1 as int);
            &&& page_read(p) is Ok
            &&& page_fks(p) == Ok::<Seq<Fk>, StoreError>(seg)
            &&& seg.len() > 0
            &&& page_next(p) == Ok::<u64, StoreError>(
                (if i + 1 < cuts.len() {
                    base + 4096 * i + 4096
                } else {
                    0
                }) as u64,
            )
            &&& i + 1 == cuts.len() ==> page_extent(p) == Some((base, cuts.len() as u32))
        }),
{
    let seg = live.subrange(cuts[i].0 as int, cuts[i].1 as int);
    if i + 1 == cuts.len() {
        law_extent_image(0, base, cuts.len() as u32, seg);
    } else {
        law_page_image((base + 4096 * i + 4096) as u64, seg);
    }
}

/// The pages of a new extent are in place.
pub open spec fn extent_written(
    bytes: Seq<u8>,
    live: Seq<Fk>,
    cuts: Seq<(usize, usize)>,
    base: u64,
    pages: Seq<int>,
) -> bool {
    &&& pages.len() == cuts.len()
    &&& forall|i: int|
        0 <= i < pages.len() ==> #[trigger] pages[i] == base + 4096 * i && page_at(bytes, pages[i])
            == extent_page(live, cuts, i, base)
}

/// The first `i` pages of a new extent hold the keys before cut `i`.
proof fn lemma_new_chain_prefix(
    bytes: Seq<u8>,
    live: Seq<Fk>,
    cuts: Seq<(usize, usize)>,
    base: u64,
    pages: Seq<int>,
    i: int,
)
    requires
        is_extent_cut(live, cuts),
        base + 4096 * cuts.len() <= SH_BODY_MAX,
        cuts.len() <= u32::MAX,
        extent_written(bytes, live, cuts, base, pages),
        0 < i <= cuts.len(),
    ensures
        chain_fks(bytes, pages.subrange(0, i)) == live.subrange(0, cuts[i - 1].1 as int),
    decreases i,
{
    lemma_chain_first(bytes, pages, i - 1);
    lemma_extent_page(live, cuts, i - 1, base);
    assert(pages[i - 1] == base + 4096 * (i - 1));
    let seg = live.subrange(cuts[i - 1].0 as int, cuts[i - 1].1 as int);
    if i > 1 {
        lemma_new_chain_prefix(bytes, live, cuts, base, pages, i - 1);
        assert(cuts[i - 2].1 == cuts[i - 1].0);
        assert(live.subrange(0, cuts[i - 2].1 as int) + seg =~= live.subrange(
            0,
            cuts[i - 1].1 as int,
        ));
    } else {
        assert(pages.subrange(0, 0) =~= Seq::<int>::empty());
        assert(chain_fks(bytes, pages.subrange(0, 0)) + seg =~= live.subrange(
            0,
            cuts[0].1 as int,
        ));
    }
}

proof fn lemma_new_link(
    bytes: Seq<u8>,
    live: Seq<Fk>,
    cuts: Seq<(usize, usize)>,
    base: u64,
    pages: Seq<int>,
    i: int,
)
    requires
        is_extent_cut(live, cuts),
        4096 <= base,
        base + 4096 * cuts.len() <= SH_BODY_MAX,
        base + 4096 * cuts.len() <= bytes.len(),
        cuts.len() <= u32::MAX,
        extent_written(bytes, live, cuts, base, pages),
        0 <= i < pages.len(),
    ensures
        link_ok(bytes, pages, i),
        i + 1 == pages.len() ==> page_extent(page_at(bytes, pages[i])) == Some(
            (base, cuts.len() as u32),
        ),
        pages[i] == base + 4096 * i,
{
    assert(pages[i] == base + 4096 * i);
    lemma_extent_page(live, cuts, i, base);
    if i + 1 < pages.len() {
        assert(pages[i + 1] == base + 4096 * (i + 1));
    }
}

pub(crate) proof fn lemma_new_chain(
    bytes: Seq<u8>,
    live: Seq<Fk>,
    cuts: Seq<(usize, usize)>,
    base: u64,
    pages: Seq<int>,
)
    requires
        is_extent_cut(live, cuts),
        fks_ok(live),
        4096 <= base,
        base + 4096 * cuts.len() <= SH_BODY_MAX,
        base + 4096 * cuts.len() <= bytes.len(),
        cuts.len() <= u32::MAX,
        extent_written(bytes, live, cuts, base, pages),
    ensures
        extent_sound(bytes, base + 4096 * (cuts.len() - 1), pages),
        chain_fks(bytes, pages) == live,
{
    let n = pages.len() as int;
    assert(chain_fks(bytes, pages) == live) by {
        lemma_new_chain_prefix(bytes, live, cuts, base, pages, n);
        assert(pages.subrange(0, n) =~= pages);
        assert(live.subrange(0, live.len() as int) =~= live);
    }
    assert(forall|i: int| 0 <= i < pages.len() ==> #[trigger] link_ok(bytes, pages, i)) by {
        assert forall|i: int| 0 <= i < pages.len() implies #[trigger] link_ok(bytes, pages, i) by {
            lemma_new_link(bytes, live, cuts, base, pages, i);
        }
    }
    lemma_new_link(bytes, live, cuts, base, pages, n - 1);
    lemma_new_link(bytes, live, cuts, base, pages, 0);
    assert(pages.last() == pages[n - 1]);
    assert(forall|i: int| 0 <= i < n ==> #[trigger] pages[i] == base + 4096 * i);
    assert(chain_sound(bytes, pages));
}

/// The value lies in the given slab.
pub open spec fn in_slab(v: ShHeadValue, class: u8, off: u64) -> bool {
    v matches ShHeadValue::Slab { class: c, off: o, .. } && c == class && o == off
}

impl ShBody {
    /// Packs keys into one value: inline, slab or pages. With `slack` a slab has
    /// a spare slot where there is a larger class. A slab of the key that is
    /// given for reuse is taken again if its class is the one needed.
    ///
    /// From `pages_from` keys on pages are used in any case.
    #[verifier::rlimit(40)]
    pub(crate) fn pack_entries_reuse(
        &mut self,
        live: &Vec<Fk>,
        slack: bool,
        pages_from: usize,
        reuse: Option<(u8, u64)>,
        Ghost(k): Ghost<Seq<u8>>,
    ) -> (r: (ShHeadValue, Ghost<Seq<int>>))
        requires
            old(self).heap_ok(),
            fks_small(live@),
            can_hold(old(self), live@.len() as int),
            reuse matches Some((rc, ro)) ==> rc <= 6 && owned(
                old(self),
                ro as int,
                rc as nat,
                k,
            ),
        ensures
            final(self).heap_ok(),
            final(self).live_count == old(self).live_count,
            used_at_most(old(self), final(self), 4096 * (live@.len() as int + 2)),
            !slack && live@.len() < pages_from && fk_stream(live@).len() <= 4080 ==> used_at_most(
                old(self),
                final(self),
                64 * live@.len() as int,
            ),
            holds_value(final(self), r.0, k, r.1@, live@),
            is_packing(r.0, live@, slack, pages_from as int),
            match reuse {
                None => kept_but(old(self), final(self), -1),
                Some((rc, ro)) => {
                    &&& kept_but(old(self), final(self), ro as int)
                    &&& in_slab(r.0, rc, ro) || (kept(old(self), final(self), ro as int) && forall|
                        i: int,
                    |
                        0 <= i < r.1@.len() ==> #[trigger] r.1@[i] != ro)
                },
            },
            forall|i: int|
                0 <= i < r.1@.len() ==> !owned_at(old(self), #[trigger] r.1@[i]) || (
                reuse matches Some((_, ro)) && r.1@[i] == ro),
    {
        proof {
            reveal(holds_value);
        }
        let n: usize = live.len();
        if n == 0 {
            return (ShHeadValue::Empty, Ghost(Seq::empty()));
        }
        if n == 1 {
            let e = ShEntry::new(live[0]);
            return (ShHeadValue::inline_one(e), Ghost(Seq::empty()));
        }
        proof {
            if let Some((rc, ro)) = reuse {
                assert(owned(old(self), ro as int, rc as nat, k));
            }
        }
        if n >= pages_from {
            let (last, pages) = self.write_new_page_chain(live, Ghost(k));
            proof {
                lemma_fresh_pages(old(self), self, pages@, reuse, k);
            }
            return (ShHeadValue::extent(last), pages);
        }
        let fks = copy_fks(live, 0, n);
        proof {
            assert(fks@ =~= live@);
        }
        let payload = if n <= 0xffff {
            encode_slab_payload(fks.as_slice())
        } else {
            Err(StoreError::Corrupt("scripthash slab used overflow"))
        };
        let payload: Vec<u8> = match payload {
            Ok(p) => p,
            Err(_) => {
                // More keys than a slab can count: only pages hold them.
                proof {
                    crate::scripthash_slabs::lemma_stream_len(live@);
                    lemma_fitting_none(live@, slack);
                }
                let (last, pages) = self.write_new_page_chain(live, Ghost(k));
                proof {
                    lemma_fresh_pages(old(self), self, pages@, reuse, k);
                }
                return (ShHeadValue::extent(last), pages);
            },
        };
        proof {
            crate::scripthash_slabs::lemma_stream_len(live@);
            lemma_payload_len(live@);
            crate::scripthash_layout::lemma_class_cap_values();
        }
        let class: u8 = match slab_class_fitting(n as u32, payload.len(), slack) {
            Some(c) => c,
            None => {
                let (last, pages) = self.write_new_page_chain(live, Ghost(k));
                proof {
                    lemma_fresh_pages(old(self), self, pages@, reuse, k);
                }
                return (ShHeadValue::extent(last), pages);
            },
        };
        proof {
            lemma_slab_class(class as nat);
        }
        let same: bool = match reuse {
            Some((rc, _)) => rc == class,
            None => false,
        };
        if same {
            let off: u64 = match reuse {
                Some((_, ro)) => ro,
                None => 0,
            };
            self.write_slab(class, off, payload, Ghost(live@));
            let ghost at = seq![off as int];
            return (ShHeadValue::slab(class, n as u16, off), Ghost(at));
        }
        let off: u64 = self.alloc_slab(class, Ghost(k));
        let ghost mid = *self;
        self.write_slab(class, off, payload, Ghost(live@));
        proof {
            if !slack && class > 0 {
                assert(class_bytes((class - 1) as nat) < payload@.len());
                lemma_class_doubles((class - 1) as nat);
            }
            assert forall|o: int|
                #[trigger] old(self).blocks@.dom().contains(o) && old(self).blocks@[o].owner is Some
                    && o != -1 implies kept(old(self), self, o) by {
                assert(kept(old(self), &mid, o));
                assert(o != off);
                assert(kept(&mid, self, o));
            }
        }
        let ghost at = seq![off as int];
        (ShHeadValue::slab(class, n as u16, off), Ghost(at))
    }
}

/// A payload is its stream behind the count.
proof fn lemma_payload_len(fks: Seq<Fk>)
    requires
        fks.len() <= u16::MAX,
    ensures
        slab_payload(fks).len() == 2 + fk_stream(fks).len(),
{
    crate::bytes::lemma_le_seq_len(fks.len() as u16 as nat, 2);
}

/// The next class has slabs of twice the size.
proof fn lemma_class_doubles(c: nat)
    requires
        c <= 5,
    ensures
        class_bytes(c + 1) == 2 * class_bytes(c),
{
    crate::scripthash_layout::lemma_class_cap_values();
}

/// Some key owns the block at `o`.
pub open spec fn owned_at(b: &ShBody, o: int) -> bool {
    b.blocks@.dom().contains(o) && b.blocks@[o].owner is Some
}

proof fn lemma_fresh_pages(
    a: &ShBody,
    b: &ShBody,
    pages: Seq<int>,
    reuse: Option<(u8, u64)>,
    k: Seq<u8>,
)
    requires
        a.heap_ok(),
        kept_but(a, b, -1),
        forall|i: int| 0 <= i < pages.len() ==> !a.blocks@.dom().contains(#[trigger] pages[i]),
        reuse matches Some((rc, ro)) ==> owned(a, ro as int, rc as nat, k),
    ensures
        reuse matches Some((rc, ro)) ==> kept_but(a, b, ro as int) && kept(a, b, ro as int)
            && forall|i: int| 0 <= i < pages.len() ==> #[trigger] pages[i] != ro,
        forall|i: int| 0 <= i < pages.len() ==> !owned_at(a, #[trigger] pages[i]),
{
    if let Some((rc, ro)) = reuse {
        assert(a.blocks@.dom().contains(ro as int));
    }
}

/// Keys that need more bytes than the largest slab have no class.
proof fn lemma_fitting_none(live: Seq<Fk>, slack: bool)
    requires
        fks_ok(live),
        0xffff < live.len() <= u32::MAX,
        live.len() <= fk_stream(live).len(),
    ensures
        is_fitting(live.len() as u32, slab_payload(live).len() as int, slack, None),
{
    crate::bytes::lemma_le_seq_len(live.len() as u16 as nat, 2);
    if slack {
        assert(is_slack_class_for(live.len() as u32, None));
    }
}

/// Appending one key keeps the rest of the chain.
pub open spec fn appended_to(
    a: &ShBody,
    b: &ShBody,
    last: u64,
    new_last: u64,
    k: Seq<u8>,
    pages: Seq<int>,
    new_pages: Seq<int>,
    fks: Seq<Fk>,
    fk: Fk,
) -> bool {
    &&& b.heap_ok()
    &&& b.live_count == a.live_count
    &&& used_at_most(a, b, 8192)
    &&& holds_value(b, ShHeadValue::Extent { last_page: new_last }, k, new_pages, fks.push(fk))
    &&& kept_but(a, b, last as int)
    &&& new_last < SH_BODY_MAX
    &&& ((new_last == last && new_pages == pages) || (new_pages == pages.push(new_last as int)
        && !owned_at(a, new_last as int)))
}

/// Keys of a chain whose last page got one key more.
proof fn lemma_chain_grow_page(
    a: Seq<u8>,
    b: Seq<u8>,
    pages: Seq<int>,
    fk: Fk,
)
    requires
        chain_sound(a, pages),
        forall|i: int|
            0 <= i < pages.len() - 1 ==> page_at(a, #[trigger] pages[i]) == page_at(b, pages[i]),
        page_read(page_at(b, pages.last())) is Ok,
        page_fks(page_at(b, pages.last()))->Ok_0 == page_fks(
            page_at(a, pages.last()),
        )->Ok_0.push(fk),
        page_next(page_at(b, pages.last())) == page_next(page_at(a, pages.last())),
        a.len() <= b.len(),
        fks_ok(chain_fks(a, pages).push(fk)),
    ensures
        chain_sound(b, pages),
        chain_fks(b, pages) == chain_fks(a, pages).push(fk),
{
    let d = pages.drop_last();
    assert forall|i: int| 0 <= i < d.len() implies page_at(a, #[trigger] d[i]) == page_at(b, d[i]) by {
        assert(d[i] == pages[i]);
    }
    lemma_chain_frame(a, b, d);
    let x = chain_fks(a, d);
    let seg = page_fks(page_at(a, pages.last()))->Ok_0;
    assert(x + seg.push(fk) =~= (x + seg).push(fk));
    assert forall|i: int| 0 <= i < pages.len() implies #[trigger] link_ok(b, pages, i) by {
        assert(link_ok(a, pages, i));
        if i < pages.len() - 1 {
            assert(page_at(a, pages[i]) == page_at(b, pages[i]));
        }
    }
}

/// Keys of a chain that got a new last page with one key.
proof fn lemma_chain_new_page(a: Seq<u8>, b: Seq<u8>, pages: Seq<int>, new: int, fk: Fk)
    requires
        chain_sound(a, pages),
        forall|i: int|
            0 <= i < pages.len() - 1 ==> page_at(a, #[trigger] pages[i]) == page_at(b, pages[i]),
        page_read(page_at(b, pages.last())) is Ok,
        page_read(page_at(b, pages.last())) == page_read(page_at(a, pages.last())),
        page_next(page_at(b, pages.last())) is Ok,
        page_next(page_at(b, pages.last()))->Ok_0 == new,
        page_read(page_at(b, new)) is Ok,
        page_fks(page_at(b, new))->Ok_0 == seq![fk],
        page_next(page_at(b, new)) == Ok::<u64, StoreError>(0u64),
        4096 <= new,
        new + 4096 <= b.len(),
        forall|i: int| 0 <= i < pages.len() ==> #[trigger] pages[i] != new,
        a.len() <= b.len(),
        fks_ok(chain_fks(a, pages).push(fk)),
    ensures
        chain_sound(b, pages.push(new)),
        chain_fks(b, pages.push(new)) == chain_fks(a, pages).push(fk),
{
    let m = pages.len() as int;
    let q = pages.push(new);
    let d = pages.drop_last();
    assert forall|i: int| 0 <= i < d.len() implies page_at(a, #[trigger] d[i]) == page_at(b, d[i]) by {
        assert(d[i] == pages[i]);
    }
    lemma_chain_frame(a, b, d);
    assert(q.drop_last() =~= pages);
    assert(chain_fks(b, pages) == chain_fks(a, pages));
    assert(chain_fks(a, pages) + seq![fk] =~= chain_fks(a, pages).push(fk));
    assert forall|i: int| 0 <= i < q.len() implies #[trigger] link_ok(b, q, i) by {
        if i < m {
            assert(link_ok(a, pages, i));
            assert(q[i] == pages[i]);
            if i < m - 1 {
                assert(page_at(a, pages[i]) == page_at(b, pages[i]));
                assert(q[i + 1] == pages[i + 1]);
            }
        }
    }
    assert forall|i: int, j: int| 0 <= i < j < q.len() implies (#[trigger] q[i]) != (#[trigger] q[j]) by {
        if j < m {
            assert(pages[i] != pages[j]);
        } else {
            assert(q[i] == pages[i]);
        }
    }
}

/// The last page of an extent can be offered a larger key.
proof fn lemma_offer(b: &ShBody, last: int, pages: Seq<int>, fk: Fk)
    requires
        extent_sound(b.bytes@, last, pages),
        fks_small(chain_fks(b.bytes@, pages).push(fk)),
    ensures
        append_err(page_at(b.bytes@, last), fk) is None,
        fks_ok(seq![fk]),
        fk_stream(seq![fk]).len() <= 9,
{
    let bytes = b.bytes@;
    let m = pages.len() as int;
    assert(link_ok(bytes, pages, m - 1));
    let p = page_at(bytes, last);
    let seg = page_fks(p)->Ok_0;
    let all = chain_fks(bytes, pages);
    let full = all.push(fk);
    assert(all.last() == seg.last()) by {
        assert(all == chain_fks(bytes, pages.drop_last()) + seg);
    }
    assert(full[all.len() - 1] == all.last());
    assert(full[all.len() as int] == fk);
    assert(full[all.len() - 1].0 < full[all.len() as int].0);
    crate::scripthash_slabs::lemma_skip_unstream(
        crate::scripthash_pages::page_stream(p),
        crate::bytes::u16_at(p, 8) as nat,
    );
    crate::compact::lemma_uleb_len_u64(fk.0);
}

/// Number of contiguous pages after a page was added at `new`.
pub open spec fn glued_n(base: u64, n: u32, last: u64, new: u64) -> u32 {
    if last == base + 4096 * (n - 1) && new == base + 4096 * n {
        (n + 1) as u32
    } else {
        n
    }
}

impl ShBody {
    /// Reads a page of the body.
    fn page_copy(&self, off: u64) -> (r: [u8; 4096])
        requires
            off + 4096 <= self.bytes@.len(),
        ensures
            r@ == page_at(self.bytes@, off as int),
    {
        let mut page: [u8; 4096] = [0u8; 4096];
        match self.read_at(off, SH_PAGE_SIZE) {
            Ok(b) => {
                crate::bytes::put_in_array(&mut page, 0, b.as_slice());
                proof {
                    assert(page@ =~= b@);
                }
            },
            Err(_) => {},
        }
        page
    }

    /// Adds a key to the last page of a chain that has room for it.
    fn append_in_page(
        &mut self,
        last: u64,
        page: &[u8; 4096],
        fk: Fk,
        Ghost(k): Ghost<Seq<u8>>,
        Ghost(pages): Ghost<Seq<int>>,
        Ghost(fks): Ghost<Seq<Fk>>,
    )
        requires
            old(self).heap_ok(),
            holds_value(old(self), (ShHeadValue::Extent { last_page: last }), k, pages, fks),
            fks_small(fks.push(fk)),
            append_err(page_at(old(self).bytes@, last as int), fk) is None,
            append_fits(page_at(old(self).bytes@, last as int), fk),
            page@ == page_appended(page_at(old(self).bytes@, last as int), fk),
        ensures
            appended_to(old(self), final(self), last, last, k, pages, pages, fks, fk),
            page_at(final(self).bytes@, last as int) == page@,
    {
        proof {
            reveal(holds_value);
        }
        let ghost p0 = page_at(self.bytes@, last as int);
        let ghost m = pages.len() as int;
        proof {
            lemma_slab_class(7);
            assert(link_ok(self.bytes@, pages, m - 1));
            assert(owned(self, pages[m - 1], 7, k));
            law_page_append(p0, fk);
        }
        self.write_block(last, page.as_slice(), Ghost(last as int));
        proof {
            lemma_overlay_at(old(self).bytes@, last as int, page@);
            assert forall|i: int| 0 <= i < m - 1 implies page_at(
                old(self).bytes@,
                #[trigger] pages[i],
            ) == page_at(self.bytes@, pages[i]) by {
                assert(owned(old(self), pages[i], 7, k));
                assert(pages[i] != pages[m - 1]);
                assert(kept(old(self), self, pages[i]));
            }
            lemma_chain_grow_page(old(self).bytes@, self.bytes@, pages, fk);
            assert forall|i: int| 0 <= i < m implies owned(self, #[trigger] pages[i], 7, k) by {
                assert(owned(old(self), pages[i], 7, k));
            }
        }
    }

    /// Adds a key in a new page behind the last page of a chain.
    #[verifier::rlimit(30)]
    fn append_new_page(
        &mut self,
        last: u64,
        fk: Fk,
        Ghost(k): Ghost<Seq<u8>>,
        Ghost(pages): Ghost<Seq<int>>,
        Ghost(fks): Ghost<Seq<Fk>>,
    ) -> (r: u64)
        requires
            old(self).heap_ok(),
            old(self).has_space(8192),
            holds_value(old(self), (ShHeadValue::Extent { last_page: last }), k, pages, fks),
            fks_small(fks.push(fk)),
            append_err(page_at(old(self).bytes@, last as int), fk) is None,
        ensures
            appended_to(
                old(self),
                final(self),
                last,
                r,
                k,
                pages,
                pages.push(r as int),
                fks,
                fk,
            ),
            ({
                let (base, n) = page_extent(page_at(old(self).bytes@, last as int))->0;
                page_extent(page_at(final(self).bytes@, r as int)) == Some(
                    (base, glued_n(base, n, last, r)),
                )
            }),
    {
        proof {
            reveal(holds_value);
        }
        let ghost s0 = *self;
        let ghost m = pages.len() as int;
        let ghost p0 = page_at(self.bytes@, last as int);
        proof {
            lemma_slab_class(7);
            lemma_offer(self, last as int, pages, fk);
            assert(link_ok(self.bytes@, pages, m - 1));
            assert(owned(self, pages[m - 1], 7, k));
        }
        let new_off: u64 = self.alloc_slab(SH_PAGE_SLAB_CLASS, Ghost(k));
        let ghost s1 = *self;
        proof {
            assert(kept(&s0, &s1, pages[m - 1]));
            assert forall|i: int| 0 <= i < m implies #[trigger] pages[i] != new_off by {
                assert(owned(&s0, pages[i], 7, k));
            }
        }
        let mut page = self.page_copy(last);
        let (base, n) = match sh_page_extent(&page) {
            Some(x) => x,
            None => (0, 0),
        };
        let linked = sh_page_set_next(&mut page, new_off);
        proof {
            lemma_with_next(p0, new_off);
        }
        self.write_block(last, page.as_slice(), Ghost(last as int));
        let ghost s2 = *self;
        proof {
            lemma_overlay_at(s1.bytes@, last as int, page@);
        }
        let ghost p1 = page@;
        let glued: bool = last == base + 4096 * (n as u64 - 1) && new_off == base + 4096 * n as u64;
        let new_n: u32 = if glued {
            n + 1
        } else {
            n
        };
        let one: [ShEntry; 1] = [ShEntry::new(fk)];
        let mut fresh: [u8; 4096] = [0u8; 4096];
        proof {
            assert(entry_fks(one@) =~= seq![fk]);
            law_extent_image(0, base, new_n, seq![fk]);
        }
        let packed = sh_page_pack_extent_last(&mut fresh, one.as_slice(), base, new_n, 0);
        proof {
            assert(s2.blocks@.dom().contains(new_off as int));
        }
        self.write_block(new_off, fresh.as_slice(), Ghost(new_off as int));
        proof {
            lemma_overlay_at(s2.bytes@, new_off as int, fresh@);
            let q = pages.push(new_off as int);
            assert(owned(&s1, last as int, 7, k));
            assert(kept(&s2, self, last as int));
            assert(page_at(self.bytes@, last as int) == p1);
            assert forall|i: int| 0 <= i < m - 1 implies page_at(
                s0.bytes@,
                #[trigger] pages[i],
            ) == page_at(self.bytes@, pages[i]) by {
                assert(owned(&s0, pages[i], 7, k));
                assert(pages[i] != pages[m - 1]);
                assert(kept(&s0, &s1, pages[i]));
                assert(kept(&s1, &s2, pages[i]));
                assert(kept(&s2, self, pages[i]));
            }
            lemma_chain_new_page(s0.bytes@, self.bytes@, pages, new_off as int, fk);
            assert forall|i: int| 0 <= i < q.len() implies owned(self, #[trigger] q[i], 7, k) by {
                if i < m {
                    assert(q[i] == pages[i]);
                    assert(owned(&s0, pages[i], 7, k));
                    assert(kept(&s0, &s1, pages[i]));
                }
            }
            assert forall|o: int|
                #[trigger] s0.blocks@.dom().contains(o) && s0.blocks@[o].owner is Some && o != last
                    implies kept(&s0, self, o) by {
                assert(kept(&s0, &s1, o));
                assert(kept(&s1, &s2, o));
                assert(kept(&s2, self, o));
            }
            assert(forall|i: int| 0 <= i < new_n ==> #[trigger] q[i] == base + 4096 * i) by {
                assert forall|i: int| 0 <= i < new_n implies #[trigger] q[i] == base + 4096 * i by {
                    if i < n {
                        assert(q[i] == pages[i]);
                        assert(pages[i] == base + 4096 * i);
                    } else {
                        assert(pages[n - 1] == base + 4096 * (n - 1));
                        if n < m {
                            assert(pages[n - 1] != pages[m - 1]);
                        }
                        assert(n == m);
                    }
                }
            }
            assert(q[0] == pages[0]);
            assert(extent_sound(self.bytes@, new_off as int, q));
        }
        new_off
    }

    /// Appends one key, larger than all of them, to a chain.
    pub(crate) fn append_fk(
        &mut self,
        last: u64,
        fk: Fk,
        Ghost(k): Ghost<Seq<u8>>,
        Ghost(pages): Ghost<Seq<int>>,
        Ghost(fks): Ghost<Seq<Fk>>,
    ) -> (r: (u64, Ghost<Seq<int>>))
        requires
            old(self).heap_ok(),
            old(self).has_space(8192),
            holds_value(old(self), (ShHeadValue::Extent { last_page: last }), k, pages, fks),
            fks_small(fks.push(fk)),
        ensures
            appended_to(old(self), final(self), last, r.0, k, pages, r.1@, fks, fk),
            // A new page is taken exactly if the key does not fit into the last one.
            r.0 == last <==> append_fits(page_at(old(self).bytes@, last as int), fk),
            ({
                let (base, n) = page_extent(page_at(old(self).bytes@, last as int))->0;
                page_extent(page_at(final(self).bytes@, r.0 as int)) == Some(
                    (
                        base,
                        if r.0 == last {
                            n
                        } else {
                            glued_n(base, n, last, r.0)
                        },
                    ),
                )
            }),
    {
        proof {
            reveal(holds_value);
        }
        let ghost m = pages.len() as int;
        let ghost p0 = page_at(self.bytes@, last as int);
        proof {
            lemma_slab_class(7);
            lemma_offer(self, last as int, pages, fk);
            assert(link_ok(self.bytes@, pages, m - 1));
            assert(owned(self, pages[m - 1], 7, k));
        }
        let mut page = self.page_copy(last);
        let fits = sh_page_try_append(&mut page, fk);
        match fits {
            Ok(true) => {
                self.append_in_page(last, &page, fk, Ghost(k), Ghost(pages), Ghost(fks));
                proof {
                    law_page_append(p0, fk);
                    lemma_overlay_at(old(self).bytes@, last as int, page@);
                }
                (last, Ghost(pages))
            },
            _ => {
                let new_off: u64 = self.append_new_page(
                    last,
                    fk,
                    Ghost(k),
                    Ghost(pages),
                    Ghost(fks),
                );
                proof {
                    assert(owned_at(old(self), pages[m - 1]));
                }
                let ghost q = pages.push(new_off as int);
                (new_off, Ghost(q))
            },
        }
    }
}

/// Every owned block outside `pages` is kept.
pub open spec fn kept_except(a: &ShBody, b: &ShBody, pages: Seq<int>) -> bool {
    forall|o: int|
        #[trigger] a.blocks@.dom().contains(o) && a.blocks@[o].owner is Some && !pages.contains(o)
            ==> kept(a, b, o)
}

/// Space for `n` more keys of one key.
pub open spec fn can_put(b: &ShBody, n: int) -> bool {
    b.has_space(8192 * (n + 2052))
}

/// A value that is not a page chain holds few keys.
pub proof fn lemma_small_value(
    b: &ShBody,
    v: ShHeadValue,
    k: Seq<u8>,
    pages: Seq<int>,
    fks: Seq<Fk>,
)
    requires
        b.heap_ok(),
        holds_value(b, v, k, pages, fks),
        !(v is Extent),
    ensures
        fks.len() <= 2048,
{
    reveal(holds_value);
    if let ShHeadValue::Slab { class, used, off } = v {
        lemma_slab_class(class as nat);
        let s = b.bytes@.subrange(off as int, off + class_bytes(class as nat));
        lemma_unstream_ok(
            s.subrange(2, s.len() as int),
            crate::bytes::u16_at(s, 0) as nat,
        );
    }
}

impl ShBody {
    /// Frees every block of a value.
    #[verifier::loop_isolation(false)]
    pub(crate) fn free_value(
        &mut self,
        v: &ShHeadValue,
        Ghost(k): Ghost<Seq<u8>>,
        Ghost(pages): Ghost<Seq<int>>,
        Ghost(fks): Ghost<Seq<Fk>>,
    )
        requires
            old(self).heap_ok(),
            holds_value(old(self), *v, k, pages, fks),
        ensures
            final(self).heap_ok(),
            final(self).live_count == old(self).live_count,
            used_at_most(old(self), final(self), 0),
            kept_except(old(self), final(self), pages),
            forall|j: int|
                0 <= j < pages.len() ==> !owned_at(final(self), #[trigger] pages[j]),
    {
        proof {
            reveal(holds_value);
        }
        match v {
            ShHeadValue::Slab { class, off, .. } => {
                self.free_slab(*class, *off);
                proof {
                    assert(pages[0] == *off as int);
                    assert forall|o: int|
                        #[trigger] old(self).blocks@.dom().contains(o)
                            && old(self).blocks@[o].owner is Some && !pages.contains(o) implies kept(
                        old(self),
                        self,
                        o,
                    ) by {
                        assert(pages.contains(pages[0]));
                    }
                }
            },
            ShHeadValue::Extent { last_page } => {
                let ghost s0 = *self;
                let ghost m = pages.len() as int;
                proof {
                    lemma_slab_class(7);
                    assert(link_ok(self.bytes@, pages, m - 1));
                }
                let page = self.page_copy(*last_page);
                let mut off: u64 = match sh_page_extent(&page) {
                    Some((base, _)) => base,
                    None => 0,
                };
                let ghost mut i: int = 0;
                proof {
                    assert(link_ok(self.bytes@, pages, 0));
                }
                while off != 0
                    invariant
                        0 <= i <= m,
                        off == (if i < m {
                            pages[i]
                        } else {
                            0int
                        }),
                        self.heap_ok(),
                        self.live_count == s0.live_count,
                        self.bump == s0.bump,
                        self.bytes@.len() == s0.bytes@.len(),
                        forall|j: int| i <= j < m ==> kept(&s0, self, #[trigger] pages[j]),
                        forall|j: int| 0 <= j < i ==> !owned_at(self, #[trigger] pages[j]),
                        kept_except(&s0, self, pages),
                    decreases m - i,
                {
                    let ghost before = *self;
                    proof {
                        assert(link_ok(s0.bytes@, pages, i));
                        assert(owned(&s0, pages[i], 7, k));
                        assert(kept(&s0, self, pages[i]));
                    }
                    let cur = self.page_copy(off);
                    let next: u64 = match crate::scripthash_pages::sh_page_next(&cur) {
                        Ok(n) => n,
                        Err(_) => 0,
                    };
                    self.free_slab(SH_PAGE_SLAB_CLASS, off);
                    proof {
                        assert forall|j: int| i + 1 <= j < m implies kept(
                            &s0,
                            self,
                            #[trigger] pages[j],
                        ) by {
                            assert(kept(&s0, &before, pages[j]));
                            assert(owned(&s0, pages[j], 7, k));
                            assert(pages[i] != pages[j]);
                            assert(kept(&before, self, pages[j]));
                        }
                        assert forall|o: int|
                            #[trigger] s0.blocks@.dom().contains(o) && s0.blocks@[o].owner is Some
                                && !pages.contains(o) implies kept(&s0, self, o) by {
                            assert(kept(&s0, &before, o));
                            assert(pages.contains(pages[i]));
                            assert(kept(&before, self, o));
                        }
                        if i + 1 < m {
                            assert(link_ok(s0.bytes@, pages, i + 1));
                        }
                        i = i + 1;
                    }
                    off = next;
                }
            },
            _ => {},
        }
    }

    /// Appends keys, each larger than all before it, to a chain.
    #[verifier::loop_isolation(false)]
    fn append_fks_to_pages(
        &mut self,
        last_page: u64,
        tail: &Vec<Fk>,
        Ghost(k): Ghost<Seq<u8>>,
        Ghost(pages): Ghost<Seq<int>>,
        Ghost(fks): Ghost<Seq<Fk>>,
    ) -> (r: (u64, Ghost<Seq<int>>))
        requires
            old(self).heap_ok(),
            old(self).has_space(8192 * tail@.len() as int),
            holds_value(old(self), (ShHeadValue::Extent { last_page }), k, pages, fks),
            fks_small(fks + tail@),
        ensures
            final(self).heap_ok(),
            final(self).live_count == old(self).live_count,
            used_at_most(old(self), final(self), 8192 * tail@.len() as int),
            holds_value(
                final(self),
                (ShHeadValue::Extent { last_page: r.0 }),
                k,
                r.1@,
                fks + tail@,
            ),
            kept_except(old(self), final(self), pages),
            forall|i: int|
                0 <= i < r.1@.len() ==> !owned_at(old(self), #[trigger] r.1@[i]) || pages.contains(
                    r.1@[i],
                ),
    {
        proof {
            reveal(holds_value);
        }
        let ghost s0 = *self;
        let mut last: u64 = last_page;
        let ghost mut cur: Seq<int> = pages;
        let mut i: usize = 0;
        proof {
            assert(fks + tail@.subrange(0, 0) =~= fks);
            assert forall|j: int| 0 <= j < cur.len() implies pages.contains(#[trigger] cur[j]) by {}
        }
        while i < tail.len()
            invariant
                i <= tail@.len(),
                self.heap_ok(),
                self.live_count == s0.live_count,
                used_at_most(&s0, self, 8192 * i as int),
                holds_value(
                    self,
                    (ShHeadValue::Extent { last_page: last }),
                    k,
                    cur,
                    fks + tail@.subrange(0, i as int),
                ),
                kept_except(&s0, self, pages),
                forall|j: int|
                    0 <= j < cur.len() ==> !owned_at(&s0, #[trigger] cur[j]) || pages.contains(
                        cur[j],
                    ),
            decreases tail@.len() - i,
        {
            let ghost before = *self;
            let ghost have = fks + tail@.subrange(0, i as int);
            proof {
                assert(have.push(tail@[i as int]) =~= fks + tail@.subrange(0, i + 1));
                assert forall|x: int| 0 <= x < have.len() + 1 implies have.push(
                    tail@[i as int],
                )[x] == (fks + tail@)[x] by {}
                lemma_small_prefix(fks + tail@, have.push(tail@[i as int]));
            }
            let (new_last, new_pages) = self.append_fk(
                last,
                tail[i],
                Ghost(k),
                Ghost(cur),
                Ghost(have),
            );
            proof {
                assert forall|o: int|
                    #[trigger] s0.blocks@.dom().contains(o) && s0.blocks@[o].owner is Some
                        && !pages.contains(o) implies kept(&s0, self, o) by {
                    assert(kept(&s0, &before, o));
                    assert(before.blocks@.dom().contains(o));
                    if o == last {
                        assert(cur[cur.len() - 1] == last);
                        assert(owned_at(&s0, cur[cur.len() - 1]));
                    }
                    assert(kept(&before, self, o));
                }
                assert forall|j: int| 0 <= j < new_pages@.len() implies !owned_at(
                    &s0,
                    #[trigger] new_pages@[j],
                ) || pages.contains(new_pages@[j]) by {
                    if j < cur.len() {
                        assert(new_pages@[j] == cur[j]);
                    } else {
                        if owned_at(&s0, new_pages@[j]) && !pages.contains(new_pages@[j]) {
                            assert(kept(&s0, &before, new_pages@[j]));
                            assert(owned_at(&before, new_last as int));
                        }
                    }
                }
                cur = new_pages@;
            }
            last = new_last;
            i += 1;
        }
        proof {
            assert(tail@.subrange(0, tail@.len() as int) =~= tail@);
        }
        (last, Ghost(cur))
    }
}

/// A prefix of a valid list is valid.
pub proof fn lemma_small_prefix(all: Seq<Fk>, part: Seq<Fk>)
    requires
        fks_small(all),
        part.len() <= all.len(),
        forall|i: int| 0 <= i < part.len() ==> part[i] == all[i],
    ensures
        fks_small(part),
{
    assert forall|i: int| 0 <= i < part.len() implies !flagged((#[trigger] part[i]).0) && part[i].0
        < 0x8000_0000_0000_0000 by {
        assert(part[i] == all[i]);
    }
    assert forall|i: int, j: int| 0 <= i < j < part.len() implies (#[trigger] part[i]).0 < (
    #[trigger] part[j]).0 by {
        assert(part[i] == all[i]);
        assert(part[j] == all[j]);
    }
    if part.len() > 0 {
        assert(part[0] == all[0]);
    }
}

/// Sum that stops at the largest number.
pub open spec fn sat_add(a: u64, b: int) -> u64 {
    if a + b > u64::MAX {
        u64::MAX
    } else {
        (a + b) as u64
    }
}

/// Difference that stops at zero.
pub open spec fn sat_sub(a: u64, b: int) -> u64 {
    if a < b {
        0
    } else {
        (a - b) as u64
    }
}

/// `a + b`, at most the largest number.
pub fn sat_add_u64(a: u64, b: u64) -> (r: u64)
    ensures
        r == sat_add(a, b as int),
{
    match a.checked_add(b) {
        Some(x) => x,
        None => u64::MAX,
    }
}

/// A rewritten value: it stands for `fks`, and nobody else's block changed.
pub open spec fn rewritten(
    a: &ShBody,
    b: &ShBody,
    pages: Seq<int>,
    v: ShHeadValue,
    k: Seq<u8>,
    new_pages: Seq<int>,
    fks: Seq<Fk>,
) -> bool {
    &&& b.heap_ok()
    &&& holds_value(b, v, k, new_pages, fks)
    &&& kept_except(a, b, pages)
    &&& forall|i: int|
        0 <= i < new_pages.len() ==> !owned_at(a, #[trigger] new_pages[i]) || pages.contains(
            new_pages[i],
        )
}

fn concat_fks(a: Vec<Fk>, b: &Vec<Fk>) -> (r: Vec<Fk>)
    ensures
        r@ == a@ + b@,
{
    let mut out: Vec<Fk> = a;
    let ghost start = out@;
    let mut i: usize = 0;
    while i < b.len()
        invariant
            i <= b@.len(),
            out@ =~= start + b@.subrange(0, i as int),
        decreases b@.len() - i,
    {
        out.push(b[i]);
        i += 1;
    }
    proof {
        assert(b@.subrange(0, b@.len() as int) =~= b@);
    }
    out
}

impl ShBody {
    /// Appends keys, all larger than those of the value, without reading earlier
    /// pages of a chain.
    #[verifier::rlimit(40)]
    pub(crate) fn append_sorted_creates(
        &mut self,
        old_val: &ShHeadValue,
        new_fks: &Vec<Fk>,
        Ghost(k): Ghost<Seq<u8>>,
        Ghost(pages): Ghost<Seq<int>>,
        Ghost(fks): Ghost<Seq<Fk>>,
    ) -> (r: (ShHeadValue, Ghost<Seq<int>>))
        requires
            old(self).heap_ok(),
            holds_value(old(self), *old_val, k, pages, fks),
            fks_small(fks + new_fks@),
            can_put(old(self), new_fks@.len() as int),
        ensures
            rewritten(old(self), final(self), pages, r.0, k, r.1@, fks + new_fks@),
            final(self).live_count == sat_add(old(self).live_count, new_fks@.len() as int),
            used_at_most(old(self), final(self), 8192 * (new_fks@.len() as int + 2051)),
            new_fks@.len() == 0 ==> r.0 == *old_val,
            new_fks@.len() > 0 ==> if *old_val is Extent {
                r.0 is Extent
            } else {
                is_packing(r.0, fks + new_fks@, true, 257)
            },
    {
        proof {
            reveal(holds_value);
        }
        if new_fks.len() == 0 {
            proof {
                assert(fks + new_fks@ =~= fks);
                assert forall|i: int| 0 <= i < pages.len() implies pages.contains(
                    #[trigger] pages[i],
                ) by {}
            }
            return (*old_val, Ghost(pages));
        }
        let n: u64 = new_fks.len() as u64;
        match old_val {
            ShHeadValue::Extent { last_page } => {
                let (last, new_pages) = self.append_fks_to_pages(
                    *last_page,
                    new_fks,
                    Ghost(k),
                    Ghost(pages),
                    Ghost(fks),
                );
                let ghost before = *self;
                self.live_count = sat_add_u64(self.live_count, n);
                proof {
                    lemma_counter_only(&before, self);
                    lemma_same_body(
                        &before,
                        self,
                        ShHeadValue::Extent { last_page: last },
                        k,
                        new_pages@,
                        fks + new_fks@,
                    );
                }
                (ShHeadValue::extent(last), new_pages)
            },
            _ => {
                proof {
                    lemma_small_value(self, *old_val, k, pages, fks);
                    lemma_holds_read(self, *old_val, k, pages, fks);
                }
                let have: Vec<Fk> = match self.collect_entries_from(old_val) {
                    Ok(v) => v,
                    Err(_) => Vec::new(),
                };
                let live = concat_fks(have, new_fks);
                let reuse: Option<(u8, u64)> = match old_val {
                    ShHeadValue::Slab { class, off, .. } => Some((*class, *off)),
                    _ => None,
                };
                let ghost s0 = *self;
                let (val, new_pages) = self.pack_entries_reuse(
                    &live,
                    true,
                    SH_MEGAKEY_MIN_FKS as usize,
                    reuse,
                    Ghost(k),
                );
                let ghost s1 = *self;
                if let ShHeadValue::Slab { class, off, .. } = old_val {
                    let stays: bool = match &val {
                        ShHeadValue::Slab { class: nc, off: no, .. } => *nc == *class && *no
                            == *off,
                        _ => false,
                    };
                    if !stays {
                        self.free_slab(*class, *off);
                    }
                    proof {
                        assert(pages[0] == *off as int);
                        assert(pages.contains(pages[0]));
                        if !stays {
                            assert forall|i: int| 0 <= i < new_pages@.len() implies kept(
                                &s1,
                                self,
                                #[trigger] new_pages@[i],
                            ) by {
                                lemma_value_owned(&s1, val, k, new_pages@, live@, i);
                            }
                            lemma_holds_frame(&s1, self, val, k, new_pages@, live@);
                        }
                        assert forall|o: int|
                            #[trigger] s0.blocks@.dom().contains(o) && s0.blocks@[o].owner is Some
                                && !pages.contains(o) implies kept(&s0, self, o) by {
                            assert(kept(&s0, &s1, o));
                            assert(s1.blocks@.dom().contains(o));
                            if !stays {
                                assert(kept(&s1, self, o));
                            }
                        }
                    }
                } else {
                    proof {
                        assert(kept_except(&s0, self, pages));
                    }
                }
                let ghost before = *self;
                self.live_count = sat_add_u64(self.live_count, n);
                proof {
                    lemma_counter_only(&before, self);
                    lemma_same_body(&before, self, val, k, new_pages@, live@);
                }
                (val, new_pages)
            },
        }
    }

    /// Replaces the keys of a value by `live`.
    #[verifier::rlimit(40)]
    pub(crate) fn rewrite_entries_for_key(
        &mut self,
        old_val: &ShHeadValue,
        live: &Vec<Fk>,
        old_n: usize,
        Ghost(k): Ghost<Seq<u8>>,
        Ghost(pages): Ghost<Seq<int>>,
        Ghost(fks): Ghost<Seq<Fk>>,
    ) -> (r: (ShHeadValue, Ghost<Seq<int>>))
        requires
            old(self).heap_ok(),
            holds_value(old(self), *old_val, k, pages, fks),
            old_n == fks.len(),
            fks_small(live@),
            can_hold(old(self), live@.len() as int),
        ensures
            rewritten(old(self), final(self), pages, r.0, k, r.1@, live@),
            final(self).live_count == (if live@.len() >= fks.len() {
                sat_add(old(self).live_count, live@.len() - fks.len())
            } else {
                sat_sub(old(self).live_count, fks.len() - live@.len())
            }),
            used_at_most(old(self), final(self), 4096 * (live@.len() as int + 2)),
            is_packing(r.0, live@, false, 257),
    {
        proof {
            reveal(holds_value);
        }
        let ghost s0 = *self;
        self.free_value(old_val, Ghost(k), Ghost(pages), Ghost(fks));
        let ghost s1 = *self;
        let (val, new_pages) = self.pack_entries_reuse(
            live,
            false,
            SH_MEGAKEY_MIN_FKS as usize,
            None,
            Ghost(k),
        );
        let ghost s2 = *self;
        proof {
            assert forall|o: int|
                #[trigger] s0.blocks@.dom().contains(o) && s0.blocks@[o].owner is Some
                    && !pages.contains(o) implies kept(&s0, self, o) by {
                assert(kept(&s0, &s1, o));
                assert(s1.blocks@.dom().contains(o));
                assert(kept(&s1, &s2, o));
            }
            assert forall|i: int| 0 <= i < new_pages@.len() implies !owned_at(
                &s0,
                #[trigger] new_pages@[i],
            ) || pages.contains(new_pages@[i]) by {
                if owned_at(&s0, new_pages@[i]) && !pages.contains(new_pages@[i]) {
                    assert(kept(&s0, &s1, new_pages@[i]));
                    assert(owned_at(&s1, new_pages@[i]));
                }
            }
        }
        if live.len() >= old_n {
            self.live_count = sat_add_u64(self.live_count, (live.len() - old_n) as u64);
        } else {
            let d: u64 = (old_n - live.len()) as u64;
            self.live_count = if self.live_count < d {
                0
            } else {
                self.live_count - d
            };
        }
        proof {
            lemma_counter_only(&s2, self);
            lemma_same_body(&s2, self, val, k, new_pages@, live@);
        }
        (val, new_pages)
    }
}

/// The two bodies differ at most in their counter.
proof fn lemma_counter_only(a: &ShBody, b: &ShBody)
    requires
        b.bytes@ == a.bytes@,
        b.blocks@ == a.blocks@,
        b.lists@ == a.lists@,
        b.free_head@ == a.free_head@,
        b.bump == a.bump,
        a.heap_ok(),
    ensures
        b.heap_ok(),
        forall|o: int| #[trigger] a.blocks@.dom().contains(o) ==> kept(a, b, o),
{
}

proof fn lemma_same_body(
    a: &ShBody,
    b: &ShBody,
    v: ShHeadValue,
    k: Seq<u8>,
    pages: Seq<int>,
    fks: Seq<Fk>,
)
    requires
        a.heap_ok(),
        b.heap_ok(),
        forall|o: int| #[trigger] a.blocks@.dom().contains(o) ==> kept(a, b, o),
        holds_value(a, v, k, pages, fks),
    ensures
        holds_value(b, v, k, pages, fks),
{
    reveal(holds_value);
    assert forall|i: int| 0 <= i < pages.len() implies kept(a, b, #[trigger] pages[i]) by {
        lemma_value_owned(a, v, k, pages, fks, i);
    }
    lemma_holds_frame(a, b, v, k, pages, fks);
}

/// The blocks of a value belong to its key.
pub proof fn lemma_value_owned(
    b: &ShBody,
    v: ShHeadValue,
    k: Seq<u8>,
    pages: Seq<int>,
    fks: Seq<Fk>,
    i: int,
)
    requires
        holds_value(b, v, k, pages, fks),
        0 <= i < pages.len(),
    ensures
        b.blocks@.dom().contains(pages[i]),
        b.blocks@[pages[i]].owner == Some(k),
{
    reveal(holds_value);
    match v {
        ShHeadValue::Extent { .. } => {
            assert(owned(b, pages[i], 7, k));
        },
        _ => {},
    }
}

/// The largest key of a sound value is its last one.
pub proof fn lemma_holds_last(
    b: &ShBody,
    v: ShHeadValue,
    k: Seq<u8>,
    pages: Seq<int>,
    fks: Seq<Fk>,
)
    requires
        b.heap_ok(),
        holds_value(b, v, k, pages, fks),
    ensures
        value_last(b.bytes@, v) == Ok::<Option<Fk>, StoreError>(last_opt(fks)),
{
    reveal(holds_value);
    match v {
        ShHeadValue::Slab { class, used, off } => {
            lemma_slab_class(class as nat);
        },
        ShHeadValue::Extent { last_page } => {
            let m = pages.len() as int;
            assert(link_ok(b.bytes@, pages, m - 1));
            let seg = page_fks(page_at(b.bytes@, pages[m - 1]))->Ok_0;
            assert(fks == chain_fks(b.bytes@, pages.drop_last()) + seg);
        },
        _ => {},
    }
}

/// A sound value has a packed form that reads back as it is.
pub proof fn lemma_packable(b: &ShBody, v: ShHeadValue, k: Seq<u8>, pages: Seq<int>, fks: Seq<Fk>)
    requires
        b.heap_ok(),
        holds_value(b, v, k, pages, fks),
    ensures
        pack8(v) is Ok,
        unpack8(pack8(v)->Ok_0) == Ok::<ShHeadValue, StoreError>(v),
        pack8(v)->Ok_0 == 0 <==> v is Empty,
        v is Empty <==> fks.len() == 0,
{
    reveal(holds_value);
    match v {
        ShHeadValue::Inline { entries, used } => {
            assert(entries@[0].create_tx_fk == fks[0]);
            law_pack8_roundtrip(v);
            assert(packed_form(v) == v);
        },
        ShHeadValue::Slab { class, used, off } => {
            lemma_slab_class(class as nat);
            law_pack8_roundtrip(v);
        },
        ShHeadValue::Extent { last_page } => {
            let m = pages.len() as int;
            assert(link_ok(b.bytes@, pages, m - 1));
            assert(owned(b, pages[m - 1], 7, k));
            lemma_slab_class(7);
            law_pack8_roundtrip(v);
            lemma_chain_short(b.bytes@, pages);
        },
        _ => {
            law_pack8_roundtrip(v);
        },
    }
}

/// Nothing stands for no keys.
pub proof fn lemma_holds_empty(b: &ShBody, k: Seq<u8>)
    ensures
        holds_value(b, ShHeadValue::Empty, k, Seq::empty(), Seq::empty()),
{
    reveal(holds_value);
}

/// The keys of a sound value are valid, and an inline value holds one of them.
pub proof fn lemma_holds_small(
    b: &ShBody,
    v: ShHeadValue,
    k: Seq<u8>,
    pages: Seq<int>,
    fks: Seq<Fk>,
)
    requires
        holds_value(b, v, k, pages, fks),
    ensures
        fks_small(fks),
        v matches ShHeadValue::Inline { used, .. } ==> used == 1,
        !(v is Paged),
{
    reveal(holds_value);
}

} // verus!
