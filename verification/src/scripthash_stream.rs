//! One key of a cold load: its creates come in order, and at most one page of them
//! is held back.
//!
//! A page is written once the next create shows that it is not the last one, so its
//! link to the page behind it is known. Pages of a key lie one behind the other.

use vstd::prelude::*;
use crate::bytes::lemma_overlay_at;
use crate::compact::{uleb, uleb128_len};
use crate::error::StoreError;
use crate::primitives::Fk;
use crate::scripthash_body::{kept, kept_but, lemma_slab_class, page_align, page_at, ShBody, SH_BODY_MAX};
use crate::scripthash_head::key16;
use crate::scripthash_layout::{fks_to_entries, ShHeadValue};
use crate::scripthash_pages::{extent_image, flagged, is_extent_cut, law_extent_image, law_page_image, page_image, sh_extent_chunk_ranges, sh_page_pack, sh_page_pack_extent_last, SH_PAGE_STREAM_MAX};
use crate::scripthash_slabs::{fk_stream, fks_ok};
use crate::scripthash_values::{copy_fks, extent_page, extent_written, fks_small, holds_value, is_packing, lemma_kept_trans, lemma_new_chain, owned, used_at_most};

verus! {

/// A key that is being loaded.
pub struct BulkOpenKey {
    pub key: [u8; 32],
    /// Creates that are not written yet.
    pub buf: Vec<Fk>,
    /// Bytes that they take in a page.
    pub stream_used: usize,
    /// Creates so far.
    pub n_total: usize,
    /// First page, once one is written.
    pub first_page: Option<u64>,
    pub last_fk: Option<u64>,
    /// Creates that are written.
    pub done: Ghost<Seq<Fk>>,
    /// How they are cut into pages.
    pub cuts: Ghost<Seq<(usize, usize)>>,
}

/// The creates of the key so far.
pub open spec fn open_fks(o: BulkOpenKey) -> Seq<Fk> {
    o.done@ + o.buf@
}

/// Bytes that finishing the key takes at most.
pub open spec fn open_room(o: BulkOpenKey) -> int {
    64 * o.buf@.len() + if o.first_page is Some {
        8192int
    } else {
        0
    }
}

/// The cuts are consecutive, and each part fits into a page.
pub open spec fn full_cuts(done: Seq<Fk>, cuts: Seq<(usize, usize)>) -> bool {
    &&& 0 < cuts.len() <= done.len()
    &&& cuts[0].0 == 0
    &&& cuts.last().1 == done.len()
    &&& forall|i: int|
        0 <= i < cuts.len() ==> (#[trigger] cuts[i]).0 < cuts[i].1 <= done.len() && fk_stream(
            done.subrange(cuts[i].0 as int, cuts[i].1 as int),
        ).len() <= 4080
    &&& forall|i: int, j: int|
        0 <= i && j == i + 1 && j < cuts.len() ==> (#[trigger] cuts[i]).1 == (#[trigger] cuts[j]).0
}

/// Page `i` of the key is in place.
pub open spec fn page_in_place(b: &ShBody, o: BulkOpenKey, base: u64, i: int) -> bool {
    &&& owned(b, base + 4096 * i, 7, key16(o.key@))
    &&& page_at(b.bytes@, base + 4096 * i) == page_image(
        (base + 4096 * i + 4096) as u64,
        o.done@.subrange(o.cuts@[i].0 as int, o.cuts@[i].1 as int),
    )
}

/// The pages of the key are in place.
#[verifier::opaque]
pub open spec fn pages_in_place(b: &ShBody, o: BulkOpenKey, base: u64) -> bool {
    forall|i: int| 0 <= i < o.cuts@.len() ==> #[trigger] page_in_place(b, o, base, i)
}

/// What is written of the key lies in the body, and the rest fits into a page.
pub open spec fn stream_ok(b: &ShBody, o: BulkOpenKey) -> bool {
    let all = open_fks(o);
    &&& fks_small(all)
    &&& all.len() == o.n_total
    &&& o.last_fk == (if all.len() == 0 {
        None
    } else {
        Some(all.last().0)
    })
    &&& o.stream_used == fk_stream(o.buf@).len()
    &&& o.stream_used <= 4080
    &&& match o.first_page {
        None => o.done@.len() == 0 && o.cuts@.len() == 0,
        Some(base) => {
            &&& 4096 <= base
            &&& base as int % 4096 == 0
            &&& base + 4096 * o.cuts@.len() == b.bump
            &&& o.buf@.len() > 0
            &&& full_cuts(o.done@, o.cuts@)
            &&& pages_in_place(b, o, base)
        },
    }
}

impl ShBody {
    /// Writes a page that is not the last of its chain.
    fn write_linked_page(&mut self, fks: &Vec<Fk>, off: u64, Ghost(k): Ghost<Seq<u8>>)
        requires
            old(self).heap_ok(),
            owned(old(self), off as int, 7, k),
            fks_ok(fks@),
            fk_stream(fks@).len() <= 4080,
        ensures
            final(self).heap_ok(),
            final(self).blocks@ == old(self).blocks@,
            final(self).bump == old(self).bump,
            final(self).bytes@.len() == old(self).bytes@.len(),
            final(self).live_count == old(self).live_count,
            kept_but(old(self), final(self), off as int),
            page_at(final(self).bytes@, off as int) == page_image((off + 4096) as u64, fks@),
    {
        proof {
            lemma_slab_class(7);
            law_page_image((off + 4096) as u64, fks@);
        }
        let ents = fks_to_entries(fks.as_slice());
        let mut page: [u8; 4096] = [0u8; 4096];
        let done = sh_page_pack(&mut page, ents.as_slice(), off + 4096);
        proof {
            assert(done is Ok);
        }
        self.write_block(off, page.as_slice(), Ghost(off as int));
        proof {
            lemma_overlay_at(old(self).bytes@, off as int, page@);
        }
    }

    /// Writes a page that is not the last of its chain at the end of the body.
    fn append_linked_page(&mut self, fks: &Vec<Fk>, Ghost(k): Ghost<Seq<u8>>) -> (off: u64)
        requires
            old(self).heap_ok(),
            old(self).has_space(8192),
            fks_ok(fks@),
            fk_stream(fks@).len() <= 4080,
        ensures
            final(self).heap_ok(),
            final(self).live_count == old(self).live_count,
            kept_but(old(self), final(self), -1),
            off == page_align(old(self).bump as int),
            4096 <= off,
            off as int % 4096 == 0,
            final(self).bump == off + 4096,
            old(self).bump <= final(self).bump <= old(self).bump + 8192,
            old(self).bytes@.len() <= final(self).bytes@.len() <= old(self).bytes@.len() + 8192,
            owned(final(self), off as int, 7, k),
            page_at(final(self).bytes@, off as int) == page_image((off + 4096) as u64, fks@),
    {
        let ghost b0 = *self;
        proof {
            lemma_align_mod(b0.bump as int);
        }
        let off: u64 = self.alloc_extent(1, Ghost(k));
        let ghost b1 = *self;
        proof {
            assert(b1.blocks@.dom().contains(off + 4096 * 0));
            assert(!b0.blocks@.dom().contains(off + 4096 * 0));
            assert(owned(&b1, off as int, 7, k));
        }
        self.write_linked_page(fks, off, Ghost(k));
        proof {
            lemma_kept_trans(&b0, &b1, self, off as int);
        }
        off
    }

    /// Writes the last page of a chain of `n` pages from `base` on.
    fn write_last_page(
        &mut self,
        fks: &Vec<Fk>,
        off: u64,
        base: u64,
        n: u32,
        Ghost(k): Ghost<Seq<u8>>,
    )
        requires
            old(self).heap_ok(),
            owned(old(self), off as int, 7, k),
            fks_ok(fks@),
            fk_stream(fks@).len() <= 4064,
        ensures
            final(self).heap_ok(),
            final(self).blocks@ == old(self).blocks@,
            final(self).bump == old(self).bump,
            final(self).bytes@.len() == old(self).bytes@.len(),
            final(self).live_count == old(self).live_count,
            kept_but(old(self), final(self), off as int),
            page_at(final(self).bytes@, off as int) == extent_image(0, base, n, fks@),
    {
        proof {
            lemma_slab_class(7);
            law_extent_image(0, base, n, fks@);
        }
        let ents = fks_to_entries(fks.as_slice());
        let mut page: [u8; 4096] = [0u8; 4096];
        let done = sh_page_pack_extent_last(&mut page, ents.as_slice(), base, n, 0);
        proof {
            assert(done is Ok);
        }
        self.write_block(off, page.as_slice(), Ghost(off as int));
        proof {
            lemma_overlay_at(old(self).bytes@, off as int, page@);
        }
    }
}

/// A run of valid creates is valid.
proof fn lemma_part_ok(all: Seq<Fk>, lo: int, hi: int)
    requires
        fks_ok(all),
        0 <= lo <= hi <= all.len(),
    ensures
        fks_ok(all.subrange(lo, hi)),
{
    let p = all.subrange(lo, hi);
    if p.len() > 0 && lo > 0 {
        assert(all[0].0 < all[lo].0);
    }
    assert forall|i: int| 0 <= i < p.len() implies !flagged((#[trigger] p[i]).0) by {
        assert(p[i] == all[lo + i]);
    }
    assert forall|i: int, j: int| 0 <= i < j < p.len() implies (#[trigger] p[i]).0 < (
    #[trigger] p[j]).0 by {
        assert(p[i] == all[lo + i] && p[j] == all[lo + j]);
    }
}

/// A page of the key stays in place where its block is kept.
proof fn lemma_page_kept(a: &ShBody, b: &ShBody, o: BulkOpenKey, base: u64, i: int)
    requires
        page_in_place(a, o, base, i),
        kept(a, b, base + 4096 * i),
    ensures
        page_in_place(b, o, base, i),
{
    lemma_slab_class(7);
    assert(crate::scripthash_layout::class_bytes(7) == 4096) by {
        crate::scripthash_layout::lemma_class_cap_values();
    }
}

/// The key after a page was written: the new page and the pages before it are in
/// place.
proof fn lemma_full_page(b0: &ShBody, b: &ShBody, o0: BulkOpenKey, o: BulkOpenKey, off: u64)
    requires
        stream_ok(b0, o0),
        o0.buf@.len() > 0,
        kept_but(b0, b, -1),
        owned(b, off as int, 7, key16(o.key@)),
        page_at(b.bytes@, off as int) == page_image((off + 4096) as u64, o0.buf@),
        o.key == o0.key,
        o.done@ == open_fks(o0),
        o.cuts@ == o0.cuts@.push((o0.done@.len() as usize, o.done@.len() as usize)),
        o.done@.len() <= usize::MAX,
        o.first_page == (match o0.first_page {
            Some(base) => Some(base),
            None => Some(off),
        }),
        o0.first_page matches Some(base) ==> off == base + 4096 * o0.cuts@.len(),
    ensures
        full_cuts(o.done@, o.cuts@),
        o.first_page->0 + 4096 * (o.cuts@.len() - 1) == off,
        pages_in_place(b, o, o.first_page->0),
{
    reveal(pages_in_place);
    let base = o.first_page->0;
    let m = o0.cuts@.len() as int;
    let c = o.cuts@;
    let lo = o0.done@.len() as usize;
    let hi = o.done@.len() as usize;
    assert(base + 4096 * m == off);
    assert(c[m] == (lo, hi));
    assert(o.done@.subrange(lo as int, hi as int) =~= o0.buf@);
    lemma_cuts_push(o0.done@, o0.cuts@, o0.buf@);
    assert(full_cuts(o.done@, c));
    assert forall|i: int| 0 <= i < c.len() implies #[trigger] page_in_place(b, o, base, i) by {
        if i < m {
            assert(page_in_place(b0, o0, base, i));
            assert(o0.cuts@[i].1 <= o0.done@.len());
            lemma_page_moved(b0, b, o0, o, base, i);
        }
    }
}

/// A page stays in place when another is written behind it.
proof fn lemma_page_moved(
    b0: &ShBody,
    b: &ShBody,
    o0: BulkOpenKey,
    o: BulkOpenKey,
    base: u64,
    i: int,
)
    requires
        page_in_place(b0, o0, base, i),
        kept_but(b0, b, -1),
        base >= 4096,
        o.key == o0.key,
        o.done@ == open_fks(o0),
        0 <= i < o0.cuts@.len(),
        o0.cuts@[i].0 <= o0.cuts@[i].1 <= o0.done@.len(),
        o.cuts@.len() > o0.cuts@.len(),
        o.cuts@[i] == o0.cuts@[i],
    ensures
        page_in_place(b, o, base, i),
{
    assert(b0.blocks@.dom().contains(base + 4096 * i));
    assert(kept(b0, b, base + 4096 * i));
    lemma_page_kept(b0, b, o0, base, i);
    let c = o0.cuts@[i];
    assert(o.done@.subrange(c.0 as int, c.1 as int) =~= o0.done@.subrange(c.0 as int, c.1 as int));
}

/// Cuts with one more page.
proof fn lemma_cuts_push(done: Seq<Fk>, cuts: Seq<(usize, usize)>, buf: Seq<Fk>)
    requires
        full_cuts(done, cuts) || (done.len() == 0 && cuts.len() == 0),
        buf.len() > 0,
        fk_stream(buf).len() <= 4080,
        done.len() + buf.len() <= usize::MAX,
    ensures
        full_cuts(
            done + buf,
            cuts.push((done.len() as usize, (done + buf).len() as usize)),
        ),
{
    let all = done + buf;
    let m = cuts.len() as int;
    let lo = done.len() as usize;
    let hi = all.len() as usize;
    let c = cuts.push((lo, hi));
    assert(c[m] == (lo, hi));
    assert(all.subrange(lo as int, hi as int) =~= buf);
    assert forall|i: int| 0 <= i < c.len() implies (#[trigger] c[i]).0 < c[i].1 <= all.len()
        && fk_stream(all.subrange(c[i].0 as int, c[i].1 as int)).len() <= 4080 by {
        if i < m {
            assert(c[i] == cuts[i]);
            assert(cuts[i].0 < cuts[i].1 <= done.len());
            assert(all.subrange(c[i].0 as int, c[i].1 as int) =~= done.subrange(
                c[i].0 as int,
                c[i].1 as int,
            ));
        }
    }
    assert forall|i: int, j: int| 0 <= i && j == i + 1 && j < c.len() implies (#[trigger] c[i]).1
        == (#[trigger] c[j]).0 by {
        assert(c[i] == cuts[i]);
        if j < m {
            assert(c[j] == cuts[j]);
        } else {
            assert(cuts.last() == c[i]);
        }
    }
    if m > 0 {
        assert(c[0] == cuts[0]);
    }
}

impl BulkOpenKey {
    /// A key without creates.
    pub fn start(key: [u8; 32]) -> (r: Self)
        ensures
            r.key == key,
            r.buf@.len() == 0,
            r.first_page is None,
            open_fks(r) == Seq::<Fk>::empty(),
            forall|b: &ShBody| #[trigger] stream_ok(b, r),
    {
        let ghost none = Seq::<Fk>::empty();
        let ghost no_cuts = Seq::<(usize, usize)>::empty();
        let r = BulkOpenKey {
            key,
            buf: Vec::new(),
            stream_used: 0,
            n_total: 0,
            first_page: None,
            last_fk: None,
            done: Ghost(none),
            cuts: Ghost(no_cuts),
        };
        proof {
            assert(open_fks(r) =~= Seq::empty());
            assert(fk_stream(r.buf@) =~= Seq::empty());
        }
        r
    }

    /// Writes what is held back as a page that is not the last one.
    #[verifier::spinoff_prover]
    fn write_full_page(&mut self, body: &mut ShBody)
        requires
            stream_ok(old(body), *old(self)),
            old(body).heap_ok(),
            old(body).has_space(8192),
            old(self).buf@.len() > 0,
        ensures
            final(body).heap_ok(),
            final(body).live_count == old(body).live_count,
            kept_but(old(body), final(body), -1),
            old(body).bump <= final(body).bump <= old(body).bump + 8192,
            final(body).bytes@.len() <= old(body).bytes@.len() + 8192,
            final(body).bytes@.len() >= old(body).bytes@.len(),
            final(self).key == old(self).key,
            final(self).buf@.len() == 0,
            final(self).stream_used == 0,
            final(self).n_total == old(self).n_total,
            final(self).last_fk == old(self).last_fk,
            final(self).first_page is Some,
            final(self).done@ == open_fks(*old(self)),
            final(self).first_page is Some && ({
                let o = *final(self);
                let base = o.first_page->0;
                &&& 4096 <= base
                &&& base as int % 4096 == 0
                &&& base + 4096 * o.cuts@.len() == final(body).bump
                &&& full_cuts(o.done@, o.cuts@)
                &&& pages_in_place(final(body), o, base)
            }),
    {
        let ghost o0 = *self;
        let ghost b0 = *body;
        let ghost k = key16(self.key@);
        let ghost all = open_fks(*self);
        proof {
            lemma_held_back(&b0, o0);
        }
        let off: u64 = body.append_linked_page(&self.buf, Ghost(k));
        let ghost lo = o0.done@.len() as usize;
        let ghost hi = all.len() as usize;
        self.done = Ghost(all);
        self.cuts = Ghost(o0.cuts@.push((lo, hi)));
        if self.first_page.is_none() {
            self.first_page = Some(off);
        }
        self.buf = Vec::new();
        self.stream_used = 0;
        proof {
            lemma_full_page(&b0, body, o0, *self, off);
        }
    }
}

/// What is held back fits a page, and a body with pages of the key ends at a page.
proof fn lemma_held_back(b: &ShBody, o: BulkOpenKey)
    requires
        stream_ok(b, o),
    ensures
        fks_ok(o.buf@),
        o.first_page is Some ==> page_align(b.bump as int) == b.bump,
{
    let all = open_fks(o);
    lemma_part_ok(all, o.done@.len() as int, all.len() as int);
    assert(all.subrange(o.done@.len() as int, all.len() as int) =~= o.buf@);
    if let Some(base) = o.first_page {
        lemma_aligned(base as int, o.cuts@.len() as int);
    }
}

proof fn lemma_aligned(base: int, m: int)
    requires
        base % 4096 == 0,
        base >= 0,
        m >= 0,
    ensures
        page_align(base + 4096 * m) == base + 4096 * m,
{
    let x = base + 4096 * m;
    assert(x % 4096 == 0);
    assert((x + 4095) / 4096 * 4096 == x);
}

proof fn lemma_align_mod(x: int)
    requires
        x >= 0,
    ensures
        page_align(x) % 4096 == 0,
        x <= page_align(x) < x + 4096,
{
}

/// What pushing a create can be refused with.
pub open spec fn push_error(o: BulkOpenKey, b: &ShBody, fk: Fk, e: StoreError) -> bool {
    ||| fk.0 >= 0x8000_0000_0000_0000 && e == StoreError::Corrupt(
        "scripthash: create_fk must be below 2^63",
    )
    ||| o.last_fk is Some && fk.0 < o.last_fk->0 && e == StoreError::Corrupt(
        "scripthash bulk stream: create_fk not strictly increasing",
    )
    ||| (!b.has_space(8192) || o.n_total == usize::MAX) && e == StoreError::Io(
        "scripthash body cannot grow",
    )
}

impl BulkOpenKey {
    /// Takes the next create of the key. One that repeats the last is skipped.
    #[verifier::rlimit(40)]
    #[verifier::spinoff_prover]
    pub fn push(&mut self, body: &mut ShBody, fk: Fk) -> (r: Result<(), StoreError>)
        requires
            stream_ok(old(body), *old(self)),
            old(body).heap_ok(),
            fk.0 != 0,
        ensures
            final(body).heap_ok(),
            final(body).live_count == old(body).live_count,
            kept_but(old(body), final(body), -1),
            old(body).bump <= final(body).bump <= old(body).bump + 8192,
            old(body).bytes@.len() <= final(body).bytes@.len() <= old(body).bytes@.len() + 8192,
            final(body).bump + open_room(*final(self)) <= old(body).bump + open_room(*old(self))
                + 64,
            final(body).bytes@.len() + open_room(*final(self)) <= old(body).bytes@.len()
                + open_room(*old(self)) + 64,
            final(self).key == old(self).key,
            stream_ok(final(body), *final(self)),
            match r {
                Ok(_) => open_fks(*final(self)) == (if old(self).last_fk == Some(fk.0) {
                    open_fks(*old(self))
                } else {
                    open_fks(*old(self)).push(fk)
                }) && (old(self).last_fk is Some ==> old(self).last_fk->0 <= fk.0) && fk.0
                    < 0x8000_0000_0000_0000,
                Err(e) => {
                    &&& push_error(*old(self), old(body), fk, e)
                    &&& *final(self) == *old(self)
                    &&& *final(body) == *old(body)
                },
            },
            old(body).has_space(8192) && old(self).n_total < usize::MAX && fk.0
                < 0x8000_0000_0000_0000 && (old(self).last_fk is Some ==> old(self).last_fk->0
                <= fk.0) ==> r is Ok,
    {
        let ghost o0 = *self;
        let ghost b0 = *body;
        let ghost all0 = open_fks(*self);
        if fk.0 >= 0x8000_0000_0000_0000 {
            return Err(StoreError::Corrupt("scripthash: create_fk must be below 2^63"));
        }
        let mut add: usize = uleb128_len(fk.0);
        if let Some(prev) = self.last_fk {
            if fk.0 == prev {
                proof {
                    assert(kept_but(&b0, body, -1)) by {
                        lemma_kept_self(&b0);
                    }
                }
                return Ok(());
            }
            if fk.0 < prev {
                return Err(
                    StoreError::Corrupt(
                        "scripthash bulk stream: create_fk not strictly increasing",
                    ),
                );
            }
            if self.n_total == usize::MAX {
                return Err(StoreError::Io("scripthash body cannot grow"));
            }
            proof {
                assert(all0.len() > 0);
                assert(o0.buf@.len() > 0);
                assert(all0.last() == o0.buf@.last());
            }
            add = uleb128_len(fk.0 - prev);
            if self.stream_used + add > SH_PAGE_STREAM_MAX {
                if !body.has_space_for(8192) {
                    return Err(StoreError::Io("scripthash body cannot grow"));
                }
                proof {
                    lemma_held_back(&b0, o0);
                    crate::scripthash_slabs::lemma_stream_len(o0.buf@);
                }
                self.write_full_page(body);
                add = uleb128_len(fk.0);
            } else {
                proof {
                    lemma_kept_self(&b0);
                }
            }
        } else {
            proof {
                assert(all0.len() == 0);
                assert(o0.buf@.len() == 0);
                lemma_kept_self(&b0);
            }
        }
        let ghost o1 = *self;
        let ghost b1 = *body;
        self.stream_used = self.stream_used + add;
        self.buf.push(fk);
        self.last_fk = Some(fk.0);
        self.n_total = self.n_total + 1;
        proof {
            let all = open_fks(*self);
            assert(all =~= all0.push(fk));
            lemma_small_push(all0, fk);
            let buf = self.buf@;
            assert(buf.drop_last() =~= o1.buf@);
            if o1.buf@.len() == 0 {
                assert(fk_stream(buf) == uleb(fk.0 as nat));
            } else {
                assert(buf[buf.len() - 2] == o1.buf@.last());
            }
            if let Some(base) = self.first_page {
                lemma_same_pages(&b1, o1, *self, base);
            }
        }
        Ok(())
    }
}

/// The written pages do not depend on what is held back.
proof fn lemma_same_pages(b: &ShBody, o: BulkOpenKey, p: BulkOpenKey, base: u64)
    requires
        pages_in_place(b, o, base),
        p.key == o.key,
        p.done@ == o.done@,
        p.cuts@ == o.cuts@,
    ensures
        pages_in_place(b, p, base),
{
    reveal(pages_in_place);
    assert forall|i: int| 0 <= i < p.cuts@.len() implies #[trigger] page_in_place(b, p, base, i) by {
        assert(page_in_place(b, o, base, i));
    }
}

proof fn lemma_kept_self(b: &ShBody)
    ensures
        kept_but(b, b, -1),
{
}

/// Creates stay valid with a larger one at the end.
proof fn lemma_small_push(all: Seq<Fk>, fk: Fk)
    requires
        fks_small(all),
        0 < fk.0 < 0x8000_0000_0000_0000,
        all.len() > 0 ==> all.last().0 < fk.0,
    ensures
        fks_small(all.push(fk)),
{
    let p = all.push(fk);
    assert forall|i: int| 0 <= i < p.len() implies !flagged((#[trigger] p[i]).0) && p[i].0
        < 0x8000_0000_0000_0000 by {
        if i < all.len() {
            assert(p[i] == all[i]);
        }
    }
    assert forall|i: int, j: int| 0 <= i < j < p.len() implies (#[trigger] p[i]).0 < (
    #[trigger] p[j]).0 by {
        assert(p[i] == all[i]);
        if j < all.len() {
            assert(p[j] == all[j]);
        } else if i < all.len() - 1 {
            assert(all[i].0 < all[all.len() - 1].0);
        }
    }
}

/// Cuts of the written pages and of the pages for the rest.
pub open spec fn total_cuts(
    cuts: Seq<(usize, usize)>,
    rest: Seq<(usize, usize)>,
    at: int,
) -> Seq<(usize, usize)> {
    cuts + rest.map_values(
        |c: (usize, usize)| ((c.0 + at) as usize, (c.1 + at) as usize),
    )
}

proof fn lemma_total_cuts(
    done: Seq<Fk>,
    cuts: Seq<(usize, usize)>,
    buf: Seq<Fk>,
    rest: Seq<(usize, usize)>,
)
    requires
        full_cuts(done, cuts),
        is_extent_cut(buf, rest),
        fks_ok(done + buf),
        done.len() + buf.len() <= usize::MAX,
    ensures
        is_extent_cut(done + buf, total_cuts(cuts, rest, done.len() as int)),
        forall|i: int|
            0 <= i < rest.len() ==> (#[trigger] (done + buf).subrange(
                rest[i].0 + done.len(),
                rest[i].1 + done.len(),
            )) == buf.subrange(rest[i].0 as int, rest[i].1 as int),
{
    let all = done + buf;
    let m = cuts.len() as int;
    let d = done.len() as int;
    let t = total_cuts(cuts, rest, d);
    assert forall|i: int| 0 <= i < rest.len() implies (#[trigger] all.subrange(
        rest[i].0 + d,
        rest[i].1 + d,
    )) == buf.subrange(rest[i].0 as int, rest[i].1 as int) by {
        assert(rest[i].0 < rest[i].1 <= buf.len());
        assert(all.subrange(rest[i].0 + d, rest[i].1 + d) =~= buf.subrange(
            rest[i].0 as int,
            rest[i].1 as int,
        ));
    }
    assert forall|i: int| m <= i < t.len() implies (#[trigger] t[i]).0 == rest[i - m].0 + d
        && t[i].1 == rest[i - m].1 + d by {
        assert(rest[i - m].0 < rest[i - m].1 <= buf.len());
    }
    assert forall|i: int| 0 <= i < t.len() implies (#[trigger] t[i]).0 < t[i].1 <= all.len()
        && fk_stream(all.subrange(t[i].0 as int, t[i].1 as int)).len() <= (if i + 1 == t.len() {
        4064int
    } else {
        4080int
    }) && fks_ok(all.subrange(t[i].0 as int, t[i].1 as int)) by {
        if i < m {
            assert(t[i] == cuts[i]);
            assert(all.subrange(t[i].0 as int, t[i].1 as int) =~= done.subrange(
                t[i].0 as int,
                t[i].1 as int,
            ));
        } else {
            assert(rest[i - m].0 < rest[i - m].1 <= buf.len());
            assert(all.subrange(rest[i - m].0 + d, rest[i - m].1 + d) == buf.subrange(
                rest[i - m].0 as int,
                rest[i - m].1 as int,
            ));
        }
        lemma_part_ok(all, t[i].0 as int, t[i].1 as int);
    }
    assert forall|i: int, j: int| 0 <= i && j == i + 1 && j < t.len() implies (#[trigger] t[i]).1
        == (#[trigger] t[j]).0 by {
        if j < m {
            assert(t[i] == cuts[i] && t[j] == cuts[j]);
        } else if i >= m {
            assert(rest[i - m].1 == rest[j - m].0);
        } else {
            assert(t[i] == cuts.last());
        }
    }
    assert(t[0] == cuts[0]);
    assert(t.last() == t[t.len() - 1]);
    assert(rest.last() == rest[rest.len() - 1]);
}

/// Chain of the key once its last pages are written.
proof fn lemma_finished(
    b0: &ShBody,
    b: &ShBody,
    o: BulkOpenKey,
    rest: Seq<(usize, usize)>,
    pages: Seq<int>,
)
    requires
        stream_ok(b0, o),
        b0.heap_ok(),
        b.heap_ok(),
        o.first_page is Some,
        is_extent_cut(o.buf@, rest),
        kept_but(b0, b, -1),
        b.bump == o.first_page->0 + 4096 * (o.cuts@.len() + rest.len()),
        pages == Seq::new(
            (o.cuts@.len() + rest.len()) as nat,
            |i: int| o.first_page->0 + 4096 * i,
        ),
        forall|i: int|
            0 <= i < rest.len() ==> owned(
                b,
                #[trigger] pages[o.cuts@.len() + i],
                7,
                key16(o.key@),
            ) && page_at(b.bytes@, pages[o.cuts@.len() + i]) == extent_page(
                open_fks(o),
                total_cuts(o.cuts@, rest, o.done@.len() as int),
                o.cuts@.len() + i,
                o.first_page->0,
            ),
    ensures
        holds_value(
            b,
            (ShHeadValue::Extent { last_page: (b.bump - 4096) as u64 }),
            key16(o.key@),
            pages,
            open_fks(o),
        ),
{
    reveal(holds_value);
    reveal(pages_in_place);
    let base = o.first_page->0;
    let all = open_fks(o);
    let m = o.cuts@.len() as int;
    let t = total_cuts(o.cuts@, rest, o.done@.len() as int);
    lemma_total_cuts(o.done@, o.cuts@, o.buf@, rest);
    assert forall|i: int| 0 <= i < pages.len() implies #[trigger] pages[i] == base + 4096 * i
        && page_at(b.bytes@, pages[i]) == extent_page(all, t, i, base) && owned(
        b,
        pages[i],
        7,
        key16(o.key@),
    ) by {
        if i < m {
            assert(page_in_place(b0, o, base, i));
            assert(b0.blocks@.dom().contains(base + 4096 * i));
            assert(kept(b0, b, base + 4096 * i));
            lemma_page_kept(b0, b, o, base, i);
            assert(t[i] == o.cuts@[i]);
            assert(o.cuts@[i].0 < o.cuts@[i].1 <= o.done@.len());
            assert(all.subrange(t[i].0 as int, t[i].1 as int) =~= o.done@.subrange(
                t[i].0 as int,
                t[i].1 as int,
            ));
        } else {
            assert(pages[m + (i - m)] == pages[i]);
        }
    }
    assert(extent_written(b.bytes@, all, t, base, pages));
    lemma_new_chain(b.bytes@, all, t, base, pages);
}

impl BulkOpenKey {
    /// Writes the rest of the key and gives its head value.
    #[verifier::rlimit(40)]
    pub fn finish(self, body: &mut ShBody) -> (r: Result<
        (ShHeadValue, Ghost<Seq<int>>),
        StoreError,
    >)
        requires
            stream_ok(old(body), self),
            old(body).heap_ok(),
            self.n_total > 0,
        ensures
            final(body).heap_ok(),
            final(body).live_count == old(body).live_count,
            kept_but(old(body), final(body), -1),
            used_at_most(old(body), final(body), open_room(self)),
            used_at_most(old(body), final(body), 269_312),
            match r {
                Ok((v, pages)) => {
                    &&& holds_value(final(body), v, key16(self.key@), pages@, open_fks(self))
                    &&& match self.first_page {
                        Some(_) => v is Extent,
                        None => is_packing(v, open_fks(self), false, usize::MAX as int),
                    }
                },
                Err(e) => {
                    &&& !old(body).has_space(16_724_000)
                    &&& e == StoreError::Io("scripthash body cannot grow")
                    &&& *final(body) == *old(body)
                },
            },
    {
        let ghost k = key16(self.key@);
        let ghost all = open_fks(self);
        proof {
            lemma_part_ok(all, self.done@.len() as int, all.len() as int);
            assert(all.subrange(self.done@.len() as int, all.len() as int) =~= self.buf@);
            crate::scripthash_slabs::lemma_stream_len(self.buf@);
            lemma_kept_self(old(body));
        }
        let n: usize = self.buf.len();
        assert(n <= 4080);
        if !body.has_space_for(4096 * (n as u64 + 3)) {
            return Err(StoreError::Io("scripthash body cannot grow"));
        }
        match self.first_page {
            None => {
                proof {
                    assert(all =~= self.buf@);
                }
                let (v, pages) = body.pack_entries_reuse(
                    &self.buf,
                    false,
                    usize::MAX,
                    None,
                    Ghost(k),
                );
                Ok((v, pages))
            },
            Some(base) => {
                let pages = self.write_rest(body, base);
                let last: u64 = body.bump - 4096;
                Ok((ShHeadValue::extent(last), pages))
            },
        }
    }

    /// Writes the last pages of a key with more than one page.
    #[verifier::rlimit(40)]
    fn write_rest(&self, body: &mut ShBody, base: u64) -> (r: Ghost<Seq<int>>)
        requires
            stream_ok(old(body), *self),
            old(body).heap_ok(),
            self.first_page == Some(base),
            fks_ok(self.buf@),
            old(body).has_space(4096 * (self.buf@.len() as int + 3)),
        ensures
            final(body).heap_ok(),
            final(body).live_count == old(body).live_count,
            kept_but(old(body), final(body), -1),
            used_at_most(old(body), final(body), 8192),
            final(body).bump >= 4096,
            holds_value(
                final(body),
                (ShHeadValue::Extent { last_page: (final(body).bump - 4096) as u64 }),
                key16(self.key@),
                r@,
                open_fks(*self),
            ),
    {
        let ghost k = key16(self.key@);
        let ghost all = open_fks(*self);
        let ghost b0 = *body;
        let ghost m = self.cuts@.len() as int;
        let rest = sh_extent_chunk_ranges(self.buf.as_slice());
        let n: usize = rest.len();
        proof {
            lemma_aligned(base as int, m);
        }
        let at: u64 = body.alloc_extent(n, Ghost(k));
        let ghost b1 = *body;
        let before: u64 = (at - base) / 4096;
        assert(before == m);
        assert(before + n <= 0x8000_0000) by {
            assert(base + 4096 * (m + n) <= SH_BODY_MAX);
        }
        let total: u32 = (before + n as u64) as u32;
        let ghost pages = Seq::new((m + n) as nat, |i: int| base + 4096 * i);
        let ghost t = total_cuts(self.cuts@, rest@, self.done@.len() as int);
        proof {
            lemma_total_cuts(self.done@, self.cuts@, self.buf@, rest@);
            assert forall|i: int| 0 <= i < n implies owned(&b1, #[trigger] pages[m + i], 7, k)
                && !b0.blocks@.dom().contains(pages[m + i]) && pages[m + i] == at + 4096 * i by {
                assert(b1.blocks@.dom().contains(at + 4096 * i));
                assert(!b0.blocks@.dom().contains(at + 4096 * i));
            }
        }
        let mut pi: usize = 0;
        while pi < n
            invariant
                pi <= n,
                n == rest@.len(),
                m == self.cuts@.len(),
                at == base + 4096 * m,
                total == m + n,
                all == open_fks(*self),
                t == total_cuts(self.cuts@, rest@, self.done@.len() as int),
                is_extent_cut(self.buf@, rest@),
                is_extent_cut(all, t),
                forall|i: int|
                    0 <= i < rest@.len() ==> (#[trigger] all.subrange(
                        rest@[i].0 + self.done@.len(),
                        rest@[i].1 + self.done@.len(),
                    )) == self.buf@.subrange(rest@[i].0 as int, rest@[i].1 as int),
                self.done@.len() + self.buf@.len() <= usize::MAX,
                pages.len() == m + n,
                body.heap_ok(),
                b0.heap_ok(),
                body.blocks@ == b1.blocks@,
                body.bump == b1.bump,
                b1.bump == at + 4096 * n,
                body.bytes@.len() == b1.bytes@.len(),
                body.live_count == b0.live_count,
                kept_but(&b0, body, -1),
                forall|i: int|
                    0 <= i < n ==> owned(&b1, #[trigger] pages[m + i], 7, k)
                        && !b0.blocks@.dom().contains(pages[m + i]) && pages[m + i] == at + 4096
                        * i,
                forall|i: int|
                    0 <= i < pi ==> page_at(body.bytes@, #[trigger] pages[m + i]) == extent_page(
                        all,
                        t,
                        m + i,
                        base,
                    ),
            decreases n - pi,
        {
            let ghost before = *body;
            let (start, end) = rest[pi];
            let seg = copy_fks(&self.buf, start, end);
            let off: u64 = at + pi as u64 * 4096;
            proof {
                assert(rest@[pi as int] == (start, end));
                assert(owned(&b1, pages[m + pi], 7, k));
                assert(t[m + pi] == (
                    (start + self.done@.len()) as usize,
                    (end + self.done@.len()) as usize,
                ));
                assert(all.subrange(
                    rest@[pi as int].0 + self.done@.len(),
                    rest@[pi as int].1 + self.done@.len(),
                ) == seg@);
            }
            if pi + 1 == n {
                body.write_last_page(&seg, off, base, total, Ghost(k));
            } else {
                body.write_linked_page(&seg, off, Ghost(k));
            }
            proof {
                lemma_slab_class(7);
                assert(crate::scripthash_layout::class_bytes(7) == 4096) by {
                    crate::scripthash_layout::lemma_class_cap_values();
                }
                assert forall|i: int| 0 <= i < pi + 1 implies page_at(
                    body.bytes@,
                    #[trigger] pages[m + i],
                ) == extent_page(all, t, m + i, base) by {
                    if i < pi {
                        assert(owned(&b1, pages[m + i], 7, k));
                        assert(before.blocks@.dom().contains(pages[m + i]));
                        assert(kept(&before, body, pages[m + i]));
                    }
                }
                lemma_kept_trans(&b0, &before, body, off as int);
            }
            pi += 1;
        }
        proof {
            assert forall|i: int| 0 <= i < n implies owned(body, #[trigger] pages[m + i], 7, k) by {
                assert(owned(&b1, pages[m + i], 7, k));
            }
            lemma_finished(&b0, body, *self, rest@, pages);
        }
        Ghost(pages)
    }
}

} // verus!
