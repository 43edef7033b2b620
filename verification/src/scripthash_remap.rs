//! Moving of packed keys from one body to another: offsets shift by a constant.

use vstd::prelude::*;
use crate::bytes::{copy_range, get_u64, le64, lemma_le_nat_of_seq, lemma_p256_values, overlay, push_zeros, put_bytes, u64_to_array};
use crate::error::StoreError;
use crate::scripthash_body::{page_at, value_fks, SH_PAGE_SPAN_MAX};
use crate::scripthash_layout::{class_bytes, ShHeadValue};
use crate::scripthash_pages::{flagged, lemma_with_next, page_extent, page_fks, page_next, page_read, page_stream, with_next, zeros};
use crate::scripthash_values::{chain_fks, chain_sound, extent_sound, lemma_extent_read, link_ok, sat_add, sat_add_u64};

verus! {

/// The value with its offsets shifted. Inline values have none.
pub open spec fn shifted(v: ShHeadValue, delta: u64) -> ShHeadValue {
    match v {
        ShHeadValue::Slab { class, used, off } => ShHeadValue::Slab {
            class,
            used,
            off: sat_add(off, delta as int),
        },
        ShHeadValue::Paged { first_page, last_page } => ShHeadValue::Paged {
            first_page: sat_add(first_page, delta as int),
            last_page: sat_add(last_page, delta as int),
        },
        ShHeadValue::Extent { last_page } => ShHeadValue::Extent {
            last_page: sat_add(last_page, delta as int),
        },
        _ => v,
    }
}

/// Shifts the offsets of a head value.
pub fn remap_sh_head_value(val: &ShHeadValue, delta: u64) -> (r: ShHeadValue)
    ensures
        r == shifted(*val, delta),
{
    match val {
        ShHeadValue::Empty => ShHeadValue::Empty,
        ShHeadValue::Inline { entries, used } => ShHeadValue::Inline {
            entries: *entries,
            used: *used,
        },
        ShHeadValue::Slab { class, used, off } => ShHeadValue::Slab {
            class: *class,
            used: *used,
            off: sat_add_u64(*off, delta),
        },
        ShHeadValue::Paged { first_page, last_page } => ShHeadValue::Paged {
            first_page: sat_add_u64(*first_page, delta),
            last_page: sat_add_u64(*last_page, delta),
        },
        ShHeadValue::Extent { last_page } => ShHeadValue::Extent {
            last_page: sat_add_u64(*last_page, delta),
        },
    }
}

/// The image, at least `len` bytes long.
pub open spec fn padded(b: Seq<u8>, len: int) -> Seq<u8> {
    if len > b.len() {
        b + zeros((len - b.len()) as nat)
    } else {
        b
    }
}

/// Copies `src[src_lo..src_hi]` to `dst` at `dst_lo`; `dst` grows as needed.
pub fn copy_sh_body_range(
    src: &Vec<u8>,
    src_lo: u64,
    src_hi: u64,
    dst: &mut Vec<u8>,
    dst_lo: u64,
) -> (r: Result<(), StoreError>)
    requires
        src_lo <= src_hi ==> dst_lo + (src_hi - src_lo) <= usize::MAX,
    ensures
        match r {
            Ok(_) => {
                &&& src_lo <= src_hi <= src@.len()
                &&& final(dst)@ == overlay(
                    padded(old(dst)@, dst_lo + (src_hi - src_lo)),
                    dst_lo as int,
                    src@.subrange(src_lo as int, src_hi as int),
                )
            },
            Err(e) => {
                &&& final(dst)@ == old(dst)@
                &&& if src_hi < src_lo {
                    e == StoreError::Corrupt("scripthash copy range inverted")
                } else {
                    src_hi > src@.len() && e == StoreError::Corrupt("pread past logical end")
                }
            },
        },
{
    if src_hi < src_lo {
        return Err(StoreError::Corrupt("scripthash copy range inverted"));
    }
    if src_hi > src.len() as u64 {
        return Err(StoreError::Corrupt("pread past logical end"));
    }
    let part = copy_range(src.as_slice(), src_lo as usize, src_hi as usize);
    let end: usize = dst_lo as usize + part.len();
    let have: usize = dst.len();
    if end > have {
        push_zeros(dst, end - have);
    }
    proof {
        assert(dst@ =~= padded(old(dst)@, dst_lo + (src_hi - src_lo)));
    }
    put_bytes(dst, dst_lo as usize, part.as_slice());
    Ok(())
}

/// The last page of a chain with its extent shifted.
pub open spec fn shifted_last(p: Seq<u8>, delta: u64) -> Seq<u8> {
    match page_extent(p) {
        Some((base, _)) => overlay(p, 16, le64(sat_add(base, delta as int))),
        None => p,
    }
}

/// The image after the links of a chain were shifted, from the page at `off` on, and what
/// stopped that. The pages before the one that stops it are shifted.
#[verifier::opaque]
pub open spec fn relinked_chain(b: Seq<u8>, off: int, delta: u64, fuel: nat) -> (
    Seq<u8>,
    Result<(), StoreError>,
)
    decreases fuel,
{
    if off == 0 {
        (b, Ok(()))
    } else if fuel == 0 {
        (b, Err(StoreError::Corrupt("scripthash page chain cycle")))
    } else if off + 4096 > b.len() {
        (b, Err(StoreError::Corrupt("pread past logical end")))
    } else {
        let p = page_at(b, off);
        match page_next(p) {
            Err(e) => (b, Err(e)),
            Ok(next) => if next == 0 {
                (overlay(b, off, shifted_last(p, delta)), Ok(()))
            } else if flagged(sat_add(next, delta as int)) {
                (
                    b,
                    Err(
                        StoreError::Corrupt(
                            "scripthash: payload must have bit63 clear (fk/offset < 2^63)",
                        ),
                    ),
                )
            } else {
                let to = sat_add(next, delta as int);
                relinked_chain(overlay(b, off, with_next(p, to)), to as int, delta, (fuel - 1) as nat)
            },
        }
    }
}

/// Shifts the links of a chain that was copied: `first_dest` is where its first page
/// is now, and the pages still hold the offsets from before.
pub fn remap_copied_page_chain(body: &mut Vec<u8>, first_dest: u64, delta: u64) -> (r: Result<
    (),
    StoreError,
>)
    ensures
        (final(body)@, r) == relinked_chain(
            old(body)@,
            first_dest as int,
            delta,
            (old(body)@.len() / 4096 + 1) as nat,
        ),
{
    proof {
        reveal_with_fuel(relinked_chain, 2);
    }
    let len: usize = body.len();
    let mut fuel: usize = len / 4096 + 1;
    let mut off: u64 = first_dest;
    let ghost want = relinked_chain(body@, off as int, delta, fuel as nat);
    while off != 0
        invariant
            body@.len() == len,
            want == relinked_chain(body@, off as int, delta, fuel as nat),
            want == relinked_chain(
                old(body)@,
                first_dest as int,
                delta,
                (old(body)@.len() / 4096 + 1) as nat,
            ),
        decreases fuel,
    {
        proof {
            reveal_with_fuel(relinked_chain, 2);
        }
        if fuel == 0 {
            return Err(StoreError::Corrupt("scripthash page chain cycle"));
        }
        if off > len as u64 || len - (off as usize) < 4096 {
            return Err(StoreError::Corrupt("pread past logical end"));
        }
        let at: usize = off as usize;
        let ghost b0 = body@;
        let ghost p = page_at(b0, at as int);
        let next: u64 = get_u64(body.as_slice(), at);
        proof {
            assert(p.subrange(0, 8) =~= b0.subrange(at as int, at + 8));
        }
        if next >= 0x8000_0000_0000_0000 {
            return Err(StoreError::Corrupt("scripthash page next_off has flag bit set"));
        }
        if next == 0 {
            if body[at + 10] == 2 {
                let base: u64 = get_u64(body.as_slice(), at + 16);
                let a: [u8; 8] = u64_to_array(sat_add_u64(base, delta));
                put_bytes(body, at + 16, a.as_slice());
                proof {
                    assert(p.subrange(16, 24) =~= b0.subrange(at + 16, at + 24));
                    assert(body@ =~= overlay(b0, at as int, shifted_last(p, delta)));
                }
            } else {
                proof {
                    assert(body@ =~= overlay(b0, at as int, p));
                }
            }
            return Ok(());
        }
        let to: u64 = sat_add_u64(next, delta);
        if to >= 0x8000_0000_0000_0000 {
            return Err(
                StoreError::Corrupt(
                    "scripthash: payload must have bit63 clear (fk/offset < 2^63)",
                ),
            );
        }
        let a: [u8; 8] = u64_to_array(to);
        put_bytes(body, at, a.as_slice());
        proof {
            assert(body@ =~= overlay(b0, at as int, with_next(p, to)));
        }
        off = to;
        fuel -= 1;
    }
    Ok(())
}

/// The extent of a last page moves with the page; its keys stay.
proof fn lemma_shifted_last(p: Seq<u8>, delta: u64)
    requires
        p.len() == 4096,
        page_extent(p) is Some,
        (page_extent(p)->0).0 + delta <= u64::MAX,
    ensures
        shifted_last(p, delta).len() == 4096,
        page_next(shifted_last(p, delta)) == page_next(p),
        page_read(shifted_last(p, delta)) == page_read(p),
        page_extent(shifted_last(p, delta)) == Some(
            (((page_extent(p)->0).0 + delta) as u64, (page_extent(p)->0).1),
        ),
{
    let q = shifted_last(p, delta);
    let base = (page_extent(p)->0).0;
    lemma_p256_values();
    lemma_le_nat_of_seq((base + delta) as nat, 8);
    assert(q.subrange(16, 24) =~= le64((base + delta) as u64));
    assert(q.subrange(0, 8) =~= p.subrange(0, 8));
    assert(q.subrange(8, 10) =~= p.subrange(8, 10));
    assert(q.subrange(24, 28) =~= p.subrange(24, 28));
    assert(q[10] == p[10]);
    assert(page_stream(q) =~= page_stream(p));
}

/// The pages of a chain, shifted.
pub open spec fn shifted_pages(pages: Seq<int>, delta: int) -> Seq<int> {
    Seq::new(pages.len(), |i: int| pages[i] + delta)
}

/// No two pages overlap.
pub open spec fn pages_apart(pages: Seq<int>) -> bool {
    forall|i: int, j: int|
        0 <= i < j < pages.len() ==> (#[trigger] pages[i]) + 4096 <= (#[trigger] pages[j])
            || pages[j] + 4096 <= pages[i]
}

/// The pages of the chain are in the image as they were, shifted by `delta`.
pub open spec fn pages_copied(src: Seq<u8>, b: Seq<u8>, pages: Seq<int>, from: int, delta: int) -> bool {
    forall|i: int|
        from <= i < pages.len() ==> 4096 <= #[trigger] pages[i] && pages[i] + delta + 4096 <= b.len()
            && page_at(b, pages[i] + delta) == page_at(src, pages[i])
}

/// A page of a chain once its link, or its extent, was shifted.
pub open spec fn moved_page(src: Seq<u8>, pages: Seq<int>, i: int, delta: u64) -> Seq<u8> {
    if i + 1 < pages.len() {
        with_next(page_at(src, pages[i]), (pages[i + 1] + delta) as u64)
    } else {
        shifted_last(page_at(src, pages[i]), delta)
    }
}

/// What shifting the links from page `i` on does to the pages of the chain.
proof fn lemma_relinked(
    src: Seq<u8>,
    b: Seq<u8>,
    d: Seq<u8>,
    pages: Seq<int>,
    i: int,
    delta: u64,
    fuel: nat,
)
    requires
        chain_sound(src, pages),
        pages_apart(pages),
        0 <= i < pages.len(),
        pages_copied(src, b, pages, i, delta as int),
        forall|j: int|
            0 <= j < pages.len() ==> (#[trigger] pages[j]) + delta < 0x8000_0000_0000_0000,
        relinked_chain(b, pages[i] + delta, delta, fuel) == (d, Ok::<(), StoreError>(())),
    ensures
        d.len() == b.len(),
        forall|j: int|
            i <= j < pages.len() ==> page_at(d, #[trigger] pages[j] + delta) == moved_page(
                src,
                pages,
                j,
                delta,
            ),
        forall|q: int|
            0 <= q && q + 4096 <= b.len() && (forall|j: int|
                i <= j < pages.len() ==> q + 4096 <= #[trigger] pages[j] + delta || pages[j] + delta
                    + 4096 <= q) ==> #[trigger] page_at(d, q) == page_at(b, q),
    decreases pages.len() - i,
{
    reveal_with_fuel(relinked_chain, 2);
    let off = pages[i] + delta;
    let p = page_at(src, pages[i]);
    assert(link_ok(src, pages, i));
    assert(page_at(b, off) == p);
    assert(p.len() == 4096);
    if i + 1 < pages.len() {
        let to = (pages[i + 1] + delta) as u64;
        assert(link_ok(src, pages, i + 1));
        let np = with_next(p, to);
        let c = overlay(b, off, np);
        assert(np.len() == 4096);
        assert(page_next(p) == Ok::<u64, StoreError>(pages[i + 1] as u64));
        assert(pages[i + 1] + delta < 0x8000_0000_0000_0000);
        assert(relinked_chain(c, to as int, delta, (fuel - 1) as nat) == (
            d,
            Ok::<(), StoreError>(()),
        ));
        assert(pages_copied(src, c, pages, i + 1, delta as int)) by {
            assert forall|j: int| i + 1 <= j < pages.len() implies 4096 <= #[trigger] pages[j]
                && pages[j] + delta + 4096 <= c.len() && page_at(c, pages[j] + delta) == page_at(
                src,
                pages[j],
            ) by {
                assert(page_at(b, pages[j] + delta) == page_at(src, pages[j]));
                assert(pages[i] + 4096 <= pages[j] || pages[j] + 4096 <= pages[i]);
                assert(page_at(c, pages[j] + delta) =~= page_at(b, pages[j] + delta));
            }
        }
        lemma_relinked(src, c, d, pages, i + 1, delta, (fuel - 1) as nat);
        assert forall|j: int| i <= j < pages.len() implies page_at(d, #[trigger] pages[j] + delta)
            == moved_page(src, pages, j, delta) by {
            if j == i {
                assert forall|m: int| i + 1 <= m < pages.len() implies off + 4096
                    <= #[trigger] pages[m] + delta || pages[m] + delta + 4096 <= off by {
                    assert(pages[i] + 4096 <= pages[m] || pages[m] + 4096 <= pages[i]);
                }
                assert(page_at(d, off) == page_at(c, off));
                assert(page_at(c, off) =~= np);
            }
        }
        assert forall|q: int|
            0 <= q && q + 4096 <= b.len() && (forall|j: int|
                i <= j < pages.len() ==> q + 4096 <= #[trigger] pages[j] + delta || pages[j] + delta
                    + 4096 <= q) implies #[trigger] page_at(d, q) == page_at(b, q) by {
            assert(q + 4096 <= pages[i] + delta || pages[i] + delta + 4096 <= q);
            assert(page_at(d, q) == page_at(c, q));
            assert(page_at(c, q) =~= page_at(b, q));
        }
    } else {
        let np = shifted_last(p, delta);
        let c = overlay(b, off, np);
        assert(page_next(p) == Ok::<u64, StoreError>(0u64));
        assert(d == c);
        assert(np.len() == 4096);
        assert(page_at(c, off) =~= np);
        assert forall|q: int|
            0 <= q && q + 4096 <= b.len() && (forall|j: int|
                i <= j < pages.len() ==> q + 4096 <= #[trigger] pages[j] + delta || pages[j] + delta
                    + 4096 <= q) implies #[trigger] page_at(d, q) == page_at(b, q) by {
            assert(q + 4096 <= pages[i] + delta || pages[i] + delta + 4096 <= q);
            assert(page_at(c, q) =~= page_at(b, q));
        }
    }
}

proof fn lemma_moved_fks(src: Seq<u8>, d: Seq<u8>, pages: Seq<int>, delta: u64, n: int)
    requires
        0 <= n <= pages.len(),
        forall|j: int|
            0 <= j < pages.len() ==> page_fks(page_at(d, #[trigger] pages[j] + delta)) == page_fks(
                page_at(src, pages[j]),
            ),
    ensures
        chain_fks(d, shifted_pages(pages, delta as int).subrange(0, n)) == chain_fks(
            src,
            pages.subrange(0, n),
        ),
    decreases n,
{
    let a = pages.subrange(0, n);
    let b = shifted_pages(pages, delta as int).subrange(0, n);
    if n > 0 {
        lemma_moved_fks(src, d, pages, delta, n - 1);
        assert(a.drop_last() =~= pages.subrange(0, n - 1));
        assert(b.drop_last() =~= shifted_pages(pages, delta as int).subrange(0, n - 1));
        assert(a.last() == pages[n - 1]);
        assert(b.last() == pages[n - 1] + delta);
    }
}

/// A chain that was copied and whose links were shifted holds the same creates, and its
/// shifted head value reads them.
pub proof fn law_moved_chain_reads_the_same(
    src: Seq<u8>,
    copied: Seq<u8>,
    moved: Seq<u8>,
    last_page: u64,
    pages: Seq<int>,
    delta: u64,
)
    requires
        extent_sound(src, last_page as int, pages),
        pages_apart(pages),
        pages_copied(src, copied, pages, 0, delta as int),
        forall|j: int|
            0 <= j < pages.len() ==> (#[trigger] pages[j]) + delta < 0x8000_0000_0000_0000,
        relinked_chain(
            copied,
            pages[0] + delta,
            delta,
            (copied.len() / 4096 + 1) as nat,
        ) == (moved, Ok::<(), StoreError>(())),
    ensures
        shifted(ShHeadValue::Extent { last_page }, delta) == (ShHeadValue::Extent {
            last_page: (last_page + delta) as u64,
        }),
        extent_sound(moved, last_page + delta, shifted_pages(pages, delta as int)),
        chain_fks(moved, shifted_pages(pages, delta as int)) == chain_fks(src, pages),
        value_fks(moved, shifted(ShHeadValue::Extent { last_page }, delta)) == value_fks(
            src,
            ShHeadValue::Extent { last_page },
        ),
{
    let m = pages.len() as int;
    let to = shifted_pages(pages, delta as int);
    let fuel = (copied.len() / 4096 + 1) as nat;
    lemma_relinked(src, copied, moved, pages, 0, delta, fuel);
    let lp = page_at(src, last_page as int);
    assert(pages[m - 1] == last_page);
    assert(pages[0] + delta < 0x8000_0000_0000_0000);
    assert(link_ok(src, pages, m - 1));
    lemma_shifted_last(lp, delta);
    assert forall|j: int| 0 <= j < m implies page_read(page_at(moved, #[trigger] pages[j] + delta))
        == page_read(page_at(src, pages[j])) && page_next(page_at(moved, pages[j] + delta))
        == Ok::<u64, StoreError>(
        (if j + 1 < m {
            pages[j + 1] + delta
        } else {
            0int
        }) as u64,
    ) by {
        assert(link_ok(src, pages, j));
        assert(page_at(moved, pages[j] + delta) == moved_page(src, pages, j, delta));
        if j + 1 < m {
            assert(link_ok(src, pages, j + 1));
            assert(pages[j + 1] + delta < 0x8000_0000_0000_0000);
            lemma_with_next(page_at(src, pages[j]), (pages[j + 1] + delta) as u64);
        }
    }
    assert forall|i: int| 0 <= i < m implies #[trigger] link_ok(moved, to, i) by {
        assert(link_ok(src, pages, i));
        assert(to[i] == pages[i] + delta);
        assert(pages[i] + delta + 4096 <= copied.len());
        assert(page_read(page_at(moved, pages[i] + delta)) == page_read(page_at(src, pages[i])));
        if i + 1 < m {
            assert(to[i + 1] == pages[i + 1] + delta);
            assert(link_ok(src, pages, i + 1));
            assert(pages[i + 1] + delta < 0x8000_0000_0000_0000);
        }
    }
    assert forall|j: int| 0 <= j < m implies page_fks(page_at(moved, #[trigger] pages[j] + delta))
        == page_fks(page_at(src, pages[j])) by {
        assert(page_read(page_at(moved, pages[j] + delta)) == page_read(page_at(src, pages[j])));
    }
    lemma_moved_fks(src, moved, pages, delta, m);
    assert(pages.subrange(0, m) =~= pages);
    assert(to.subrange(0, m) =~= to);
    assert forall|i: int, j: int| 0 <= i < j < to.len() implies (#[trigger] to[i]) != (
    #[trigger] to[j]) by {
        assert(pages[i] != pages[j]);
    }
    assert(page_at(moved, last_page + delta) == shifted_last(lp, delta)) by {
        assert(page_at(moved, pages[m - 1] + delta) == moved_page(src, pages, m - 1, delta));
    }
    let (base, n) = page_extent(lp)->0;
    assert forall|i: int| 0 <= i < n implies #[trigger] to[i] == (base + delta) + 4096 * i by {
        assert(pages[i] == base + 4096 * i);
    }
    assert(to.last() == last_page + delta);
    assert(extent_sound(moved, last_page + delta, to));
    lemma_extent_read(src, last_page as int, pages, SH_PAGE_SPAN_MAX as int);
    lemma_extent_read(moved, last_page + delta, to, SH_PAGE_SPAN_MAX as int);
}

/// A slab that was copied reads the same through its shifted head value.
pub proof fn law_moved_slab_reads_the_same(
    src: Seq<u8>,
    dst: Seq<u8>,
    class: u8,
    used: u16,
    off: u64,
    delta: u64,
)
    requires
        class <= 6,
        off + class_bytes(class as nat) <= src.len(),
        off + delta + class_bytes(class as nat) <= dst.len(),
        off + delta <= u64::MAX,
        dst.subrange(off + delta, off + delta + class_bytes(class as nat)) == src.subrange(
            off as int,
            off + class_bytes(class as nat),
        ),
    ensures
        value_fks(dst, shifted(ShHeadValue::Slab { class, used, off }, delta)) == value_fks(
            src,
            ShHeadValue::Slab { class, used, off },
        ),
{
}

/// A copied range holds the bytes of the range, shifted.
pub proof fn law_copied_range(src: Seq<u8>, dst: Seq<u8>, lo: int, hi: int, dst_lo: int, a: int, n: int)
    requires
        0 <= lo <= a,
        0 <= n,
        a + n <= hi <= src.len(),
        0 <= dst_lo,
    ensures
        overlay(padded(dst, dst_lo + (hi - lo)), dst_lo, src.subrange(lo, hi)).subrange(
            a + (dst_lo - lo),
            a + (dst_lo - lo) + n,
        ) == src.subrange(a, a + n),
{
    let d = overlay(padded(dst, dst_lo + (hi - lo)), dst_lo, src.subrange(lo, hi));
    assert(d.subrange(a + (dst_lo - lo), a + (dst_lo - lo) + n) =~= src.subrange(a, a + n));
}

} // verus!
