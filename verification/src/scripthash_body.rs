//! Body of the scripthash index: slabs, pages and their free lists.
//!
//! The body is one byte image. Its first page holds the allocator header.
//! Behind it lie blocks: slabs of `32 << class` bytes and pages of 4096 bytes.
//! Blocks are taken from the free list of their class or from the end. A free
//! block starts with the offset of the next free block of its class.

use vstd::prelude::*;
use crate::bytes::{copy_range, get_u64, le64, lemma_le_nat_of_seq, lemma_le_seq_len, lemma_p256_values, overlay, push_zeros, put_bytes, u64_at, u64_to_array};
use crate::error::StoreError;
use crate::primitives::Fk;
use crate::scripthash_layout::{class_bytes, class_cap, entries_to_fks, entry_fks, lemma_class_cap_bound, lemma_class_cap_values, slab_bytes, ShHeadValue, SH_MAX_SLAB_CLASS, SH_PAGE_SLAB_CLASS};
use crate::scripthash_pages::{page_extent, page_fks, page_last, page_next, sh_page_as_array, sh_page_decode_slice, sh_page_extent, sh_page_last_fk, zeros, SH_PAGE_SIZE};
use crate::scripthash_slabs::{decode_slab_payload, slab_fks};

verus! {

/// Largest body: every offset then has a packed form.
pub const SH_BODY_MAX: u64 = 0x0000_0800_0000_0000;

/// Most bytes of one contiguous page run.
pub const SH_PAGE_SPAN_MAX: u64 = 67_108_864;

/// Number of free lists.
pub const SH_FREE_LISTS: usize = 25;

/// A page of the image.
pub open spec fn page_at(bytes: Seq<u8>, off: int) -> Seq<u8> {
    bytes.subrange(off, off + 4096)
}

/// `s` in front of the keys of `r`.
pub open spec fn prepend(s: Seq<Fk>, r: Result<Seq<Fk>, StoreError>) -> Result<
    Seq<Fk>,
    StoreError,
> {
    match r {
        Ok(t) => Ok(s + t),
        Err(e) => Err(e),
    }
}

/// Last key so far: that of `seg`, or `prev` if `seg` is empty.
pub open spec fn last_of(seg: Seq<Fk>, prev: int) -> int {
    if seg.len() > 0 {
        seg.last().0 as int
    } else {
        prev
    }
}

/// `seg` goes on behind `prev`.
pub open spec fn goes_on(seg: Seq<Fk>, prev: int) -> bool {
    seg.len() > 0 ==> seg[0].0 > prev
}

/// Keys of the chain that starts at `off`, following at most `fuel` pages.
pub open spec fn walk(bytes: Seq<u8>, off: int, prev: int, fuel: nat) -> Result<
    Seq<Fk>,
    StoreError,
>
    decreases fuel,
{
    if fuel == 0 {
        Err(StoreError::Corrupt("scripthash page chain does not end"))
    } else if off + 4096 > bytes.len() {
        Err(StoreError::Corrupt("pread past logical end"))
    } else {
        match (page_next(page_at(bytes, off)), page_fks(page_at(bytes, off))) {
            (Err(e), _) => Err(e),
            (Ok(_), Err(e)) => Err(e),
            (Ok(next), Ok(seg)) => if !goes_on(seg, prev) {
                Err(
                    StoreError::Corrupt(
                        "invariant: scripthash page chain create_fks not strictly increasing",
                    ),
                )
            } else if next == 0 {
                Ok(seg)
            } else {
                prepend(seg, walk(bytes, next as int, last_of(seg, prev), (fuel - 1) as nat))
            },
        }
    }
}

/// Keys of the chain that starts at `off` (none if `off` is 0).
pub open spec fn chain_read(bytes: Seq<u8>, off: int) -> Result<Seq<Fk>, StoreError> {
    if off == 0 {
        Ok(Seq::empty())
    } else {
        walk(bytes, off, -1, u64::MAX as nat)
    }
}

/// Keys of pages `i..n` of a contiguous run, with the last next offset.
pub open spec fn span_read(bytes: Seq<u8>, base: int, i: int, n: int, prev: int) -> Result<
    (Seq<Fk>, u64),
    StoreError,
>
    decreases n - i,
{
    if i >= n {
        Ok((Seq::empty(), 0u64))
    } else {
        let p = page_at(bytes, base + 4096 * i);
        match (page_next(p), page_fks(p)) {
            (Err(e), _) => Err(e),
            (Ok(_), Err(e)) => Err(e),
            (Ok(next), Ok(seg)) => if i + 1 < n && next != base + 4096 * (i + 1) {
                Err(StoreError::Corrupt("scripthash extent prefix next links broken"))
            } else if !goes_on(seg, prev) {
                Err(
                    StoreError::Corrupt(
                        "invariant: scripthash page chain create_fks not strictly increasing",
                    ),
                )
            } else if i + 1 == n {
                Ok((seg, next))
            } else {
                match span_read(bytes, base, i + 1, n, last_of(seg, prev)) {
                    Ok((rest, last)) => Ok((seg + rest, last)),
                    Err(e) => Err(e),
                }
            },
        }
    }
}

/// Keys of an extent chain that ends at `last`, of at most `cap` contiguous bytes.
pub open spec fn extent_read(bytes: Seq<u8>, last: int, cap: int) -> Result<
    Seq<Fk>,
    StoreError,
> {
    if last == 0 {
        Err(StoreError::Corrupt("scripthash extent: null last_page"))
    } else if last + 4096 > bytes.len() {
        Err(StoreError::Corrupt("pread past logical end"))
    } else {
        match page_extent(page_at(bytes, last)) {
            None => Err(StoreError::Corrupt("scripthash extent last page not ver=2")),
            Some((base, n)) => if n == 0 || 4096 * n > cap || base + 4096 * n
                > bytes.len() {
                Err(StoreError::Corrupt("scripthash extent span overflow"))
            } else {
                match span_read(bytes, base as int, 0, n as int, -1) {
                    Err(e) => Err(e),
                    Ok((fks, tail)) => if last == base + 4096 * (n - 1) {
                        Ok(fks)
                    } else if tail == 0 {
                        Err(
                            StoreError::Corrupt(
                                "scripthash extent last_page beyond extent with no tail",
                            ),
                        )
                    } else {
                        prepend(
                            fks,
                            walk(bytes, tail as int, last_of(fks, -1), u64::MAX as nat),
                        )
                    },
                }
            },
        }
    }
}

/// Keys of a slab.
pub open spec fn slab_read(bytes: Seq<u8>, class: u8, off: int) -> Result<Seq<Fk>, StoreError> {
    if class > 6 {
        Err(StoreError::Corrupt("scripthash slab class overflow"))
    } else if off + class_bytes(class as nat) > bytes.len() {
        Err(StoreError::Corrupt("pread past logical end"))
    } else {
        slab_fks(bytes.subrange(off, off + class_bytes(class as nat)))
    }
}

/// Keys that a head value stands for.
pub open spec fn value_fks(bytes: Seq<u8>, v: ShHeadValue) -> Result<Seq<Fk>, StoreError> {
    match v {
        ShHeadValue::Empty => Ok(Seq::empty()),
        ShHeadValue::Inline { .. } => Ok(entry_fks(v.inline_seq())),
        ShHeadValue::Slab { class, used, off } => match slab_read(bytes, class, off as int) {
            Err(e) => Err(e),
            Ok(fks) => if fks.len() != used {
                Err(StoreError::Corrupt("invariant: scripthash slab used != decoded fk count"))
            } else {
                Ok(fks)
            },
        },
        ShHeadValue::Paged { first_page, .. } => chain_read(bytes, first_page as int),
        ShHeadValue::Extent { last_page } => extent_read(
            bytes,
            last_page as int,
            SH_PAGE_SPAN_MAX as int,
        ),
    }
}

/// Owner and size of a block.
pub ghost struct Block {
    pub class: nat,
    /// Key that the block belongs to; `None` for a free block.
    pub owner: Option<Seq<u8>>,
}

/// Body image with its allocator.
pub struct ShBody {
    pub bytes: Vec<u8>,
    pub live_count: u64,
    pub bump: u64,
    pub free_head: Vec<u64>,
    pub blocks: Ghost<Map<int, Block>>,
    pub lists: Ghost<Seq<Seq<int>>>,
}

/// Blocks lie in the body.
pub open spec fn blocks_inside(blocks: Map<int, Block>, bump: int) -> bool {
    forall|o: int| #[trigger] blocks.dom().contains(o) ==> {
        &&& 4096 <= o
        &&& blocks[o].class <= 24
        &&& o + class_bytes(blocks[o].class) <= bump
    }
}

/// Blocks do not overlap.
pub open spec fn blocks_apart(blocks: Map<int, Block>) -> bool {
    forall|a: int, b: int|
        #![trigger blocks.dom().contains(a), blocks.dom().contains(b)]
        blocks.dom().contains(a) && blocks.dom().contains(b) && a < b ==> a + class_bytes(
            blocks[a].class,
        ) <= b
}

/// The free list of one class: its blocks are free, distinct and linked.
pub open spec fn list_ok(
    bytes: Seq<u8>,
    blocks: Map<int, Block>,
    list: Seq<int>,
    class: nat,
    head: u64,
) -> bool {
    &&& head == (if list.len() == 0 {
        0int
    } else {
        list[0]
    })
    &&& forall|i: int|
        0 <= i < list.len() ==> blocks.dom().contains(#[trigger] list[i]) && blocks[list[i]].class
            == class && blocks[list[i]].owner is None
    &&& forall|i: int, j: int|
        0 <= i < j < list.len() ==> (#[trigger] list[i]) != (#[trigger] list[j])
    &&& forall|i: int|
        0 <= i < list.len() ==> u64_at(bytes, #[trigger] list[i]) == (if i + 1 < list.len() {
            list[i + 1]
        } else {
            0int
        })
}

impl ShBody {
    /// Allocator invariant.
    pub open spec fn heap_ok(&self) -> bool {
        &&& 4096 <= self.bump <= SH_BODY_MAX
        &&& self.bump <= self.bytes@.len()
        &&& self.free_head@.len() == 25
        &&& self.lists@.len() == 25
        &&& blocks_inside(self.blocks@, self.bump as int)
        &&& blocks_apart(self.blocks@)
        &&& forall|c: int|
            0 <= c < 25 ==> list_ok(
                self.bytes@,
                self.blocks@,
                #[trigger] self.lists@[c],
                c as nat,
                self.free_head@[c],
            )
    }

    /// `n` more bytes fit.
    pub open spec fn has_space(&self, n: int) -> bool {
        self.bump + n <= SH_BODY_MAX && self.bytes@.len() + n <= usize::MAX && self.bump + n
            <= usize::MAX
    }
}

/// The block at `o` and its bytes are the same in both bodies.
pub open spec fn kept(a: &ShBody, b: &ShBody, o: int) -> bool {
    &&& b.blocks@.dom().contains(o)
    &&& b.blocks@[o] == a.blocks@[o]
    &&& b.bytes@.subrange(o, o + class_bytes(a.blocks@[o].class)) == a.bytes@.subrange(
        o,
        o + class_bytes(a.blocks@[o].class),
    )
}

/// Every owned block but that at `except` is kept.
pub open spec fn kept_but(a: &ShBody, b: &ShBody, except: int) -> bool {
    forall|o: int|
        #[trigger] a.blocks@.dom().contains(o) && a.blocks@[o].owner is Some && o != except
            ==> kept(a, b, o)
}

/// Slabs and pages are at most one page long.
pub proof fn lemma_slab_class(c: nat)
    requires
        c <= 7,
    ensures
        32 <= class_bytes(c) <= 4096,
        c <= 6 ==> class_bytes(c) <= 2048,
        c == 7 ==> class_bytes(c) == 4096,
{
    lemma_class_cap_values();
    assert(c == 0 || c == 1 || c == 2 || c == 3 || c == 4 || c == 5 || c == 6 || c == 7);
}

pub(crate) proof fn lemma_class_small(c: nat)
    requires
        c <= 24,
    ensures
        32 <= class_bytes(c) <= 0x4_0000_0000,
{
    lemma_class_cap_bound(c);
}

/// Appends the keys of a page, which must go on behind the last one.
fn extend_page_entries(out: &mut Vec<Fk>, prev_last: &mut Option<u64>, seg: &Vec<Fk>) -> (r: Result<
    (),
    StoreError,
>)
    ensures
        ({
            let prev = opt_int(*old(prev_last));
            if goes_on(seg@, prev) {
                r == Ok::<(), StoreError>(()) && final(out)@ == old(out)@ + seg@ && opt_int(
                    *final(prev_last),
                ) == last_of(seg@, prev)
            } else {
                r == Err::<(), StoreError>(
                    StoreError::Corrupt(
                        "invariant: scripthash page chain create_fks not strictly increasing",
                    ),
                )
            }
        }),
{
    if seg.len() > 0 {
        if let Some(p) = *prev_last {
            if seg[0].0 <= p {
                return Err(
                    StoreError::Corrupt(
                        "invariant: scripthash page chain create_fks not strictly increasing",
                    ),
                );
            }
        }
        *prev_last = Some(seg[seg.len() - 1].0);
    }
    let ghost before = out@;
    let mut i: usize = 0;
    while i < seg.len()
        invariant
            i <= seg@.len(),
            out@ =~= before + seg@.subrange(0, i as int),
        decreases seg@.len() - i,
    {
        out.push(seg[i]);
        i += 1;
    }
    proof {
        assert(seg@.subrange(0, seg@.len() as int) =~= seg@);
    }
    Ok(())
}

/// The key as a number, `-1` if there is none.
pub open spec fn opt_int(o: Option<u64>) -> int {
    match o {
        Some(x) => x as int,
        None => -1,
    }
}

impl ShBody {
    /// Reads `n` bytes.
    pub fn read_at(&self, off: u64, n: usize) -> (r: Result<Vec<u8>, StoreError>)
        ensures
            match r {
                Ok(v) => off + n <= self.bytes@.len() && v@ == self.bytes@.subrange(
                    off as int,
                    off + n,
                ),
                Err(e) => off + n > self.bytes@.len() && e == StoreError::Corrupt(
                    "pread past logical end",
                ),
            },
    {
        let len: usize = self.bytes.len();
        if off > len as u64 || n > len - off as usize {
            return Err(StoreError::Corrupt("pread past logical end"));
        }
        Ok(copy_range(self.bytes.as_slice(), off as usize, off as usize + n))
    }

    /// Next offset and keys of the page at `off`.
    pub(crate) fn read_page(&self, off: u64) -> (r: Result<(u64, Vec<Fk>), StoreError>)
        ensures
            if off + 4096 > self.bytes@.len() {
                r is Err && r->Err_0 == StoreError::Corrupt("pread past logical end")
            } else {
                let p = page_at(self.bytes@, off as int);
                match (r, page_next(p), page_fks(p)) {
                    (Ok((next, v)), Ok(n), Ok(fks)) => next == n && v@ == fks,
                    (Err(e), Err(f), _) => e == f,
                    (Err(e), Ok(_), Err(f)) => e == f,
                    _ => false,
                }
            },
    {
        let buf = match self.read_at(off, SH_PAGE_SIZE) {
            Ok(b) => b,
            Err(e) => return Err(e),
        };
        match sh_page_decode_slice(buf.as_slice()) {
            Ok((next, ents)) => Ok((next, entries_to_fks(ents.as_slice()))),
            Err(e) => Err(e),
        }
    }

    /// Appends the keys of the chain that starts at `start` to `head`.
    #[verifier::loop_isolation(false)]
    fn collect_linked(&self, head: Vec<Fk>, last: Option<u64>, start: u64) -> (r: Result<
        Vec<Fk>,
        StoreError,
    >)
        ensures
            same_fks(
                r,
                prepend(
                    head@,
                    walk(self.bytes@, start as int, opt_int(last), u64::MAX as nat),
                ),
            ),
    {
        let ghost goal = prepend(
            head@,
            walk(self.bytes@, start as int, opt_int(last), u64::MAX as nat),
        );
        let mut out: Vec<Fk> = head;
        let mut prev: Option<u64> = last;
        let mut off: u64 = start;
        let mut fuel: u64 = u64::MAX;
        loop
            invariant
                goal == prepend(
                    out@,
                    walk(self.bytes@, off as int, opt_int(prev), fuel as nat),
                ),
            decreases fuel,
        {
            if fuel == 0 {
                return Err(StoreError::Corrupt("scripthash page chain does not end"));
            }
            let (next, seg) = match self.read_page(off) {
                Ok(p) => p,
                Err(e) => return Err(e),
            };
            let ghost before = out@;
            match extend_page_entries(&mut out, &mut prev, &seg) {
                Ok(_) => {},
                Err(e) => return Err(e),
            }
            if next == 0 {
                return Ok(out);
            }
            off = next;
            fuel = fuel - 1;
            proof {
                let rest = walk(self.bytes@, off as int, opt_int(prev), fuel as nat);
                if rest is Ok {
                    assert(before + (seg@ + rest->Ok_0) =~= out@ + rest->Ok_0);
                }
            }
        }
    }

    /// Keys of the chain that starts at `first`.
    pub fn collect_page_chain(&self, first: u64) -> (r: Result<Vec<Fk>, StoreError>)
        ensures
            same_fks(r, chain_read(self.bytes@, first as int)),
    {
        let none: Vec<Fk> = Vec::new();
        if first == 0 {
            assert(none@ =~= Seq::<Fk>::empty());
            return Ok(none);
        }
        proof {
            let w = walk(self.bytes@, first as int, -1, u64::MAX as nat);
            if w is Ok {
                assert(none@ + w->Ok_0 =~= w->Ok_0);
            }
        }
        self.collect_linked(none, None, first)
    }

    /// Keys of an extent chain: its contiguous pages, then the linked tail.
    #[verifier::loop_isolation(false)]
    pub fn collect_extent_then_tail(&self, last_page: u64) -> (r: Result<Vec<Fk>, StoreError>)
        ensures
            same_fks(
                r,
                extent_read(self.bytes@, last_page as int, SH_PAGE_SPAN_MAX as int),
            ),
    {
        if last_page == 0 {
            return Err(StoreError::Corrupt("scripthash extent: null last_page"));
        }
        let buf = match self.read_at(last_page, SH_PAGE_SIZE) {
            Ok(b) => b,
            Err(e) => return Err(e),
        };
        let page = match sh_page_as_array(buf.as_slice()) {
            Ok(p) => p,
            Err(e) => return Err(e),
        };
        let (base, n) = match sh_page_extent(page) {
            Some(x) => x,
            None => return Err(StoreError::Corrupt("scripthash extent last page not ver=2")),
        };
        let span: u64 = n as u64 * 4096;
        if n == 0 || span > SH_PAGE_SPAN_MAX || base as u128 + span as u128
            > self.bytes.len() as u128 {
            return Err(StoreError::Corrupt("scripthash extent span overflow"));
        }
        let mut out: Vec<Fk> = Vec::new();
        let mut prev: Option<u64> = None;
        let mut tail: u64 = 0;
        let mut i: u64 = 0;
        let ghost goal = span_read(self.bytes@, base as int, 0, n as int, -1);
        proof {
            if goal is Ok {
                assert(out@ + goal->Ok_0.0 =~= goal->Ok_0.0);
            }
        }
        while i < n as u64
            invariant
                i <= n,
                n > 0,
                base + 4096 * n <= self.bytes@.len(),
                self.bytes@.len() <= usize::MAX,
                i == n ==> goal == Ok::<(Seq<Fk>, u64), StoreError>((out@, tail)),
                i == n ==> opt_int(prev) == last_of(out@, -1),
                i < n ==> opt_int(prev) == last_of(out@, -1),
                i < n ==> (match span_read(self.bytes@, base as int, i as int, n as int, opt_int(
                    prev,
                )) {
                    Ok((rest, t)) => goal == Ok::<(Seq<Fk>, u64), StoreError>((out@ + rest, t)),
                    Err(e) => goal == Err::<(Seq<Fk>, u64), StoreError>(e),
                }),
            decreases n - i,
        {
            let (next, seg) = match self.read_page(base + i * 4096) {
                Ok(p) => p,
                Err(e) => return Err(e),
            };
            if i + 1 < n as u64 && next != base + (i + 1) * 4096 {
                return Err(StoreError::Corrupt("scripthash extent prefix next links broken"));
            }
            let ghost before = out@;
            match extend_page_entries(&mut out, &mut prev, &seg) {
                Ok(_) => {},
                Err(e) => return Err(e),
            }
            tail = next;
            proof {
                if i + 1 < n {
                    let sub = span_read(self.bytes@, base as int, i + 1, n as int, opt_int(prev));
                    if sub is Ok {
                        assert(before + (seg@ + sub->Ok_0.0) =~= out@ + sub->Ok_0.0);
                    }
                } else {
                    assert(before + seg@ =~= out@);
                }
            }
            i += 1;
        }
        if last_page == base + (n as u64 - 1) * 4096 {
            return Ok(out);
        }
        if tail == 0 {
            return Err(
                StoreError::Corrupt("scripthash extent last_page beyond extent with no tail"),
            );
        }
        self.collect_linked(out, prev, tail)
    }

    /// Keys of a slab.
    pub fn read_slab(&self, class: u8, off: u64) -> (r: Result<Vec<Fk>, StoreError>)
        ensures
            same_fks(r, slab_read(self.bytes@, class, off as int)),
    {
        if class > SH_MAX_SLAB_CLASS {
            return Err(StoreError::Corrupt("scripthash slab class overflow"));
        }
        proof {
            lemma_slab_class(class as nat);
        }
        let buf = match self.read_at(off, slab_bytes(class) as usize) {
            Ok(b) => b,
            Err(e) => return Err(e),
        };
        decode_slab_payload(buf.as_slice())
    }

    /// Keys that a head value stands for, oldest first.
    pub fn collect_entries_from(&self, val: &ShHeadValue) -> (r: Result<Vec<Fk>, StoreError>)
        requires
            val matches ShHeadValue::Inline { used, .. } ==> used <= 2,
        ensures
            same_fks(r, value_fks(self.bytes@, *val)),
    {
        match val {
            ShHeadValue::Empty => {
                let v: Vec<Fk> = Vec::new();
                assert(v@ =~= Seq::<Fk>::empty());
                Ok(v)
            },
            ShHeadValue::Inline { .. } => Ok(val.inline_fks()),
            ShHeadValue::Slab { class, used, off } => {
                match self.read_slab(*class, *off) {
                    Err(e) => Err(e),
                    Ok(fks) => if fks.len() != *used as usize {
                        Err(
                            StoreError::Corrupt(
                                "invariant: scripthash slab used != decoded fk count",
                            ),
                        )
                    } else {
                        Ok(fks)
                    },
                }
            },
            ShHeadValue::Paged { first_page, .. } => self.collect_page_chain(*first_page),
            ShHeadValue::Extent { last_page } => self.collect_extent_then_tail(*last_page),
        }
    }
}

/// A result holds the keys, or the error, that it should.
pub open spec fn same_fks(r: Result<Vec<Fk>, StoreError>, s: Result<Seq<Fk>, StoreError>) -> bool {
    match (r, s) {
        (Ok(v), Ok(fks)) => v@ == fks,
        (Err(e), Err(f)) => e == f,
        _ => false,
    }
}

/// Two blocks of a sound heap do not share a byte.
proof fn lemma_apart(b: &ShBody, o: int, p: int)
    requires
        b.heap_ok(),
        b.blocks@.dom().contains(o),
        b.blocks@.dom().contains(p),
        o != p,
    ensures
        o + class_bytes(b.blocks@[o].class) <= p || p + class_bytes(b.blocks@[p].class) <= o,
        32 <= class_bytes(b.blocks@[o].class),
        32 <= class_bytes(b.blocks@[p].class),
        4096 <= o,
        o + class_bytes(b.blocks@[o].class) <= b.bump,
{
    lemma_class_small(b.blocks@[o].class);
    lemma_class_small(b.blocks@[p].class);
}

/// Writing inside one block leaves every other block and every free list alone.
proof fn lemma_write_frame(a: &ShBody, b: &ShBody, o: int, at: int, data: Seq<u8>)
    requires
        a.heap_ok(),
        a.blocks@.dom().contains(o),
        a.blocks@[o].owner is Some,
        o <= at,
        at + data.len() <= o + class_bytes(a.blocks@[o].class),
        b.bytes@ == overlay(a.bytes@, at, data),
        b.blocks@ == a.blocks@,
        b.lists@ == a.lists@,
        b.free_head@ == a.free_head@,
        b.bump == a.bump,
    ensures
        b.heap_ok(),
        kept_but(a, b, o),
{
    lemma_class_small(a.blocks@[o].class);
    assert forall|p: int|
        #[trigger] a.blocks@.dom().contains(p) && a.blocks@[p].owner is Some && p != o implies kept(
        a,
        b,
        p,
    ) by {
        lemma_apart(a, p, o);
        let n = class_bytes(a.blocks@[p].class);
        assert(b.bytes@.subrange(p, p + n) =~= a.bytes@.subrange(p, p + n));
    }
    assert forall|c: int| 0 <= c < 25 implies list_ok(
        b.bytes@,
        b.blocks@,
        #[trigger] b.lists@[c],
        c as nat,
        b.free_head@[c],
    ) by {
        let list = a.lists@[c];
        assert(list_ok(a.bytes@, a.blocks@, list, c as nat, a.free_head@[c]));
        assert forall|i: int| 0 <= i < list.len() implies u64_at(b.bytes@, #[trigger] list[i])
            == u64_at(a.bytes@, list[i]) by {
            let p = list[i];
            assert(a.blocks@.dom().contains(p));
            lemma_apart(a, p, o);
            assert(b.bytes@.subrange(p, p + 8) =~= a.bytes@.subrange(p, p + 8));
        }
    }
}

impl ShBody {
    /// Writes into a block of the body.
    pub(crate) fn write_block(&mut self, off: u64, data: &[u8], Ghost(o): Ghost<int>)
        requires
            old(self).heap_ok(),
            old(self).blocks@.dom().contains(o),
            old(self).blocks@[o].owner is Some,
            o <= off,
            off + data@.len() <= o + class_bytes(old(self).blocks@[o].class),
        ensures
            final(self).heap_ok(),
            final(self).bytes@ == overlay(old(self).bytes@, off as int, data@),
            final(self).blocks@ == old(self).blocks@,
            final(self).lists@ == old(self).lists@,
            final(self).free_head@ == old(self).free_head@,
            final(self).bump == old(self).bump,
            final(self).live_count == old(self).live_count,
            kept_but(old(self), final(self), o),
    {
        let len: usize = self.bytes.len();
        proof {
            lemma_class_small(self.blocks@[o].class);
            assert(off <= len);
        }
        put_bytes(&mut self.bytes, off as usize, data);
        proof {
            lemma_write_frame(old(self), self, o, off as int, data@);
        }
    }

    /// Takes a block of `class` at the end of the body.
    fn take_tail(&mut self, class: u8, Ghost(owner): Ghost<Option<Seq<u8>>>) -> (off: u64)
        requires
            old(self).heap_ok(),
            class <= 7,
            owner is Some,
            old(self).bump + class_bytes(class as nat) <= SH_BODY_MAX,
            old(self).bump + class_bytes(class as nat) <= old(self).bytes@.len(),
        ensures
            final(self).heap_ok(),
            off == old(self).bump,
            final(self).bump == old(self).bump + class_bytes(class as nat),
            final(self).bytes@ == old(self).bytes@,
            final(self).live_count == old(self).live_count,
            final(self).free_head@ == old(self).free_head@,
            final(self).blocks@ == old(self).blocks@.insert(
                off as int,
                (Block { class: class as nat, owner }),
            ),
            !old(self).blocks@.dom().contains(off as int),
            kept_but(old(self), final(self), -1),
    {
        proof {
            lemma_slab_class(class as nat);
        }
        let off: u64 = self.bump;
        self.bump = off + slab_bytes(class);
        self.blocks = Ghost(
            self.blocks@.insert(off as int, Block { class: class as nat, owner }),
        );
        proof {
            assert forall|o: int| old(self).blocks@.dom().contains(o) implies o < off by {
                lemma_class_small(old(self).blocks@[o].class);
            }
            assert forall|c: int| 0 <= c < 25 implies list_ok(
                self.bytes@,
                self.blocks@,
                #[trigger] self.lists@[c],
                c as nat,
                self.free_head@[c],
            ) by {
                assert(list_ok(
                    old(self).bytes@,
                    old(self).blocks@,
                    old(self).lists@[c],
                    c as nat,
                    old(self).free_head@[c],
                ));
            }
        }
        off
    }

    /// Puts an owned block on the free list of its class.
    pub fn free_slab(&mut self, class: u8, off: u64)
        requires
            old(self).heap_ok(),
            class <= 24,
            old(self).blocks@.dom().contains(off as int),
            old(self).blocks@[off as int].class == class,
            old(self).blocks@[off as int].owner is Some,
        ensures
            final(self).heap_ok(),
            final(self).bump == old(self).bump,
            final(self).live_count == old(self).live_count,
            final(self).bytes@.len() == old(self).bytes@.len(),
            final(self).blocks@ == old(self).blocks@.insert(
                off as int,
                (Block { class: class as nat, owner: None }),
            ),
            final(self).free_head@ == old(self).free_head@.update(class as int, off),
            kept_but(old(self), final(self), off as int),
    {
        let idx: usize = class as usize;
        let next: u64 = self.free_head[idx];
        let a = u64_to_array(next);
        proof {
            lemma_class_small(class as nat);
            lemma_le_seq_len(next as nat, 8);
        }
        self.write_block(off, a.as_slice(), Ghost(off as int));
        let ghost mid = *self;
        self.free_head.set(idx, off);
        self.blocks = Ghost(
            self.blocks@.insert(off as int, Block { class: class as nat, owner: None }),
        );
        self.lists = Ghost(
            self.lists@.update(class as int, seq![off as int] + self.lists@[class as int]),
        );
        proof {
            lemma_p256_values();
            lemma_le_nat_of_seq(next as nat, 8);
            assert(self.bytes@.subrange(off as int, off + 8) =~= le64(next));
            assert forall|c: int| 0 <= c < 25 implies list_ok(
                self.bytes@,
                self.blocks@,
                #[trigger] self.lists@[c],
                c as nat,
                self.free_head@[c],
            ) by {
                let list = mid.lists@[c];
                assert(list_ok(mid.bytes@, mid.blocks@, list, c as nat, mid.free_head@[c]));
                if c == class {
                    let nl = self.lists@[c];
                    assert(nl == seq![off as int] + list);
                    assert(nl[0] == off as int);
                    assert forall|i: int| 1 <= i < nl.len() implies nl[i] == list[i - 1] by {}
                    assert forall|i: int| 0 <= i < nl.len() implies self.blocks@.dom().contains(
                        #[trigger] nl[i],
                    ) && self.blocks@[nl[i]].class == c as nat && self.blocks@[nl[i]].owner is None by {
                        if i > 0 {
                            assert(nl[i] == list[i - 1]);
                        }
                    }
                    assert forall|i: int, j: int| 0 <= i < j < nl.len() implies (#[trigger] nl[i])
                        != (#[trigger] nl[j]) by {
                        assert(nl[j] == list[j - 1]);
                        if i > 0 {
                            assert(nl[i] == list[i - 1]);
                        }
                    }
                    assert forall|i: int| 0 <= i < nl.len() implies u64_at(
                        self.bytes@,
                        #[trigger] nl[i],
                    ) == (if i + 1 < nl.len() {
                        nl[i + 1]
                    } else {
                        0int
                    }) by {
                        if i > 0 {
                            assert(nl[i] == list[i - 1]);
                            if i + 1 < nl.len() {
                                assert(nl[i + 1] == list[i]);
                            }
                        } else if nl.len() > 1 {
                            assert(nl[1] == list[0]);
                        }
                    }
                } else {
                    assert(self.lists@[c] == list);
                    assert forall|i: int| 0 <= i < list.len() implies (#[trigger] list[i]) != off by {
                        assert(mid.blocks@[list[i]].owner is None);
                    }
                }
            }
            assert(kept_but(old(self), &mid, off as int));
            assert forall|o: int|
                #[trigger] old(self).blocks@.dom().contains(o) && old(self).blocks@[o].owner is Some
                    && o != off implies kept(old(self), self, o) by {
                assert(kept(old(self), &mid, o));
            }
        }
    }
}

/// Largest slab class of at most `n` bytes, and its bytes.
pub open spec fn gap_class(n: int) -> (int, int) {
    if n >= 2048 {
        (6, 2048)
    } else if n >= 1024 {
        (5, 1024)
    } else if n >= 512 {
        (4, 512)
    } else if n >= 256 {
        (3, 256)
    } else if n >= 128 {
        (2, 128)
    } else if n >= 64 {
        (1, 64)
    } else {
        (0, 32)
    }
}

/// The free list heads after the bytes from `from` to `to` were cut into free slabs,
/// largest first.
pub open spec fn gap_heads(heads: Seq<u64>, from: int, to: int) -> Seq<u64>
    decreases to - from,
{
    if to - from < 32 {
        heads
    } else {
        let c = gap_class(to - from);
        gap_heads(heads.update(c.0, from as u64), from + c.1, to)
    }
}

/// Largest slab class of at most `bytes` bytes.
fn largest_reloc_class_le(bytes: u64) -> (r: Option<u8>)
    ensures
        match r {
            Some(c) => c <= 6 && class_bytes(c as nat) <= bytes && (c as int, class_bytes(
                c as nat,
            ) as int) == gap_class(bytes as int),
            None => bytes < 32,
        },
{
    proof {
        lemma_class_cap_values();
    }
    let mut c: u8 = 6;
    while slab_bytes(c) > bytes
        invariant
            c <= 6,
            class_cap(0) == 4,
            c < 6 ==> class_bytes((c + 1) as nat) > bytes,
        decreases c,
    {
        if c == 0 {
            return None;
        }
        c -= 1;
    }
    Some(c)
}

/// `off` rounded up to a page.
pub open spec fn page_align(off: int) -> int {
    (off + 4095) / 4096 * 4096
}

/// What an allocation does to a heap: nothing that is owned changes.
pub open spec fn grown(a: &ShBody, b: &ShBody, room: int) -> bool {
    &&& b.heap_ok()
    &&& kept_but(a, b, -1)
    &&& b.live_count == a.live_count
    &&& a.bump <= b.bump <= a.bump + room
    &&& a.bytes@.len() <= b.bytes@.len() <= a.bytes@.len() + room
}

impl ShBody {
    /// Makes the image at least `len` bytes long.
    pub(crate) fn ensure_len(&mut self, len: u64)
        requires
            old(self).heap_ok(),
            len <= usize::MAX,
        ensures
            final(self).heap_ok(),
            final(self).blocks@ == old(self).blocks@,
            final(self).bump == old(self).bump,
            final(self).live_count == old(self).live_count,
            final(self).free_head@ == old(self).free_head@,
            final(self).lists@ == old(self).lists@,
            final(self).bytes@ == old(self).bytes@ + zeros(
                if len > old(self).bytes@.len() {
                    (len - old(self).bytes@.len()) as nat
                } else {
                    0nat
                },
            ),
            kept_but(old(self), final(self), -1),
    {
        let have: usize = self.bytes.len();
        if len as usize > have {
            push_zeros(&mut self.bytes, len as usize - have);
        }
        proof {
            assert(self.bytes@ =~= old(self).bytes@ + zeros(
                if len > old(self).bytes@.len() {
                    (len - old(self).bytes@.len()) as nat
                } else {
                    0nat
                },
            ));
            let (a, b) = (old(self).bytes@, self.bytes@);
            assert forall|lo: int, hi: int| 0 <= lo <= hi <= a.len() implies #[trigger] b.subrange(
                lo,
                hi,
            ) == a.subrange(lo, hi) by {
                assert(b.subrange(lo, hi) =~= a.subrange(lo, hi));
            }
            assert forall|o: int| #[trigger] self.blocks@.dom().contains(o) implies o + 32
                <= a.len() by {
                lemma_class_small(self.blocks@[o].class);
            }
            assert forall|c: int| 0 <= c < 25 implies list_ok(
                self.bytes@,
                self.blocks@,
                #[trigger] self.lists@[c],
                c as nat,
                self.free_head@[c],
            ) by {
                let list = old(self).lists@[c];
                assert(list_ok(a, old(self).blocks@, list, c as nat, old(self).free_head@[c]));
                assert forall|i: int| 0 <= i < list.len() implies u64_at(b, #[trigger] list[i])
                    == u64_at(a, list[i]) by {
                    assert(self.blocks@.dom().contains(list[i]));
                    assert(b.subrange(list[i], list[i] + 8) == a.subrange(list[i], list[i] + 8));
                }
            }
        }
    }

    /// Turns the bytes up to `to` into free slabs, largest first.
    fn carve_gap_into_freelist(&mut self, to: u64)
        requires
            old(self).heap_ok(),
            old(self).bump <= to <= SH_BODY_MAX,
            to <= old(self).bytes@.len(),
        ensures
            final(self).heap_ok(),
            final(self).bump == to,
            final(self).live_count == old(self).live_count,
            final(self).bytes@.len() == old(self).bytes@.len(),
            final(self).free_head@ == gap_heads(
                old(self).free_head@,
                old(self).bump as int,
                to as int,
            ),
            kept_but(old(self), final(self), -1),
    {
        let ghost start = *self;
        proof {
            lemma_class_cap_values();
        }
        loop
            invariant
                gap_heads(self.free_head@, self.bump as int, to as int) == gap_heads(
                    start.free_head@,
                    start.bump as int,
                    to as int,
                ),
                self.heap_ok(),
                self.bump <= to <= SH_BODY_MAX,
                to <= self.bytes@.len(),
                self.live_count == start.live_count,
                self.bytes@.len() == start.bytes@.len(),
                kept_but(&start, self, -1),
                start == *old(self),
            ensures
                self.heap_ok(),
                self.bump <= to,
                self.free_head@ == gap_heads(start.free_head@, start.bump as int, to as int),
                self.live_count == start.live_count,
                self.bytes@.len() == start.bytes@.len(),
                kept_but(&start, self, -1),
            decreases to - self.bump,
        {
            let rem: u64 = to - self.bump;
            let c: u8 = match largest_reloc_class_le(rem) {
                Some(c) => c,
                None => {
                    break;
                },
            };
            proof {
                lemma_slab_class(c as nat);
            }
            let ghost s0 = *self;
            let off: u64 = self.take_tail(c, Ghost(Some(Seq::empty())));
            let ghost s1 = *self;
            self.free_slab(c, off);
            proof {
                assert forall|o: int|
                    #[trigger] start.blocks@.dom().contains(o) && start.blocks@[o].owner is Some
                        && o != -1 implies kept(&start, self, o) by {
                    assert(kept(&start, &s0, o));
                    assert(kept(&s0, &s1, o));
                    assert(o != off);
                    assert(kept(&s1, self, o));
                }
            }
        }
        let ghost before = *self;
        self.bump = to;
        proof {
            assert(kept_but(&start, &before, -1));
            assert forall|o: int|
                #[trigger] start.blocks@.dom().contains(o) && start.blocks@[o].owner is Some && o
                    != -1 implies kept(&start, self, o) by {
                assert(kept(&start, &before, o));
            }
        }
    }

    /// Takes the first free block of `class`, if there is one.
    fn pop_free_head(&mut self, class: u8, Ghost(k): Ghost<Seq<u8>>) -> (r: Option<u64>)
        requires
            old(self).heap_ok(),
            class <= 24,
        ensures
            match r {
                None => *final(self) == *old(self) && old(self).free_head@[class as int] == 0,
                Some(off) => {
                    &&& off == old(self).free_head@[class as int]
                    &&& grown(old(self), final(self), 0)
                    &&& final(self).blocks@ == old(self).blocks@.insert(
                        off as int,
                        (Block { class: class as nat, owner: Some(k) }),
                    )
                    &&& old(self).blocks@.dom().contains(off as int)
                    &&& old(self).blocks@[off as int].owner is None
                    &&& old(self).blocks@[off as int].class == class
                },
            },
    {
        let idx: usize = class as usize;
        let off: u64 = self.free_head[idx];
        let ghost list = self.lists@[class as int];
        proof {
            assert(list_ok(self.bytes@, self.blocks@, list, class as nat, off));
        }
        if off == 0 {
            return None;
        }
        proof {
            assert(list.len() > 0) by {
                if list.len() == 0 {
                    assert(off == 0);
                }
            }
            assert(list[0] == off);
            assert(self.blocks@.dom().contains(list[0]));
            lemma_class_small(class as nat);
        }
        let len: usize = self.bytes.len();
        assert(off + 8 <= len);
        let next: u64 = get_u64(self.bytes.as_slice(), off as usize);
        self.free_head.set(idx, next);
        self.blocks = Ghost(
            self.blocks@.insert(off as int, Block { class: class as nat, owner: Some(k) }),
        );
        self.lists = Ghost(self.lists@.update(class as int, list.subrange(1, list.len() as int)));
        proof {
            assert forall|c: int| 0 <= c < 25 implies list_ok(
                self.bytes@,
                self.blocks@,
                #[trigger] self.lists@[c],
                c as nat,
                self.free_head@[c],
            ) by {
                let l = old(self).lists@[c];
                assert(list_ok(
                    old(self).bytes@,
                    old(self).blocks@,
                    l,
                    c as nat,
                    old(self).free_head@[c],
                ));
                if c == class {
                    let nl = self.lists@[c];
                    assert forall|i: int| 0 <= i < nl.len() implies #[trigger] nl[i] == l[i + 1]
                        && nl[i] != off by {
                        assert(l[0] != l[i + 1]);
                    }
                    assert forall|i: int| 0 <= i < nl.len() implies u64_at(
                        self.bytes@,
                        #[trigger] nl[i],
                    ) == (if i + 1 < nl.len() {
                        nl[i + 1]
                    } else {
                        0int
                    }) by {
                        assert(nl[i] == l[i + 1]);
                        if i + 1 < nl.len() {
                            assert(nl[i + 1] == l[i + 2]);
                        }
                    }
                } else {
                    assert forall|i: int| 0 <= i < l.len() implies #[trigger] l[i] != off by {
                        assert(old(self).blocks@[l[i]].class == c);
                    }
                }
            }
        }
        Some(off)
    }

    /// Takes a block of `class` for key `k`: from its free list or from the end.
    ///
    /// A page is taken at the next page boundary; the bytes before it become
    /// free slabs.
    pub(crate) fn alloc_slab(&mut self, class: u8, Ghost(k): Ghost<Seq<u8>>) -> (off: u64)
        requires
            old(self).heap_ok(),
            class <= 7,
            old(self).has_space(8192),
        ensures
            grown(old(self), final(self), 8192),
            class < 7 ==> grown(old(self), final(self), class_bytes(class as nat) as int),
            final(self).blocks@.dom().contains(off as int),
            final(self).blocks@[off as int] == (Block { class: class as nat, owner: Some(k) }),
            old(self).blocks@.dom().contains(off as int) ==> old(
                self,
            ).blocks@[off as int].owner is None,
            off + class_bytes(class as nat) <= final(self).bump,
            4096 <= off,
            old(self).free_head@[class as int] != 0 ==> off == old(
                self,
            ).free_head@[class as int] && final(self).bump == old(self).bump,
            old(self).free_head@[class as int] == 0 ==> off == (if class == 7 {
                page_align(old(self).bump as int)
            } else {
                old(self).bump as int
            }) && final(self).bump == off + class_bytes(class as nat) && final(self).free_head@
                == gap_heads(old(self).free_head@, old(self).bump as int, off as int),
    {
        proof {
            lemma_slab_class(class as nat);
        }
        if let Some(off) = self.pop_free_head(class, Ghost(k)) {
            return off;
        }
        let need: u64 = slab_bytes(class);
        let target: u64 = if class >= SH_PAGE_SLAB_CLASS {
            (self.bump + 4095) / 4096 * 4096
        } else {
            self.bump
        };
        self.ensure_len(target + need);
        let ghost s1 = *self;
        if target != self.bump {
            self.carve_gap_into_freelist(target);
        }
        let ghost s2 = *self;
        let off: u64 = self.take_tail(class, Ghost(Some(k)));
        proof {
            assert forall|o: int|
                #[trigger] old(self).blocks@.dom().contains(o) && old(self).blocks@[o].owner is Some
                    && o != -1 implies kept(old(self), self, o) by {
                assert(kept(old(self), &s1, o));
                assert(kept(&s1, &s2, o));
                assert(kept(&s2, self, o));
            }
        }
        off
    }

    /// Takes `n_pages` pages in a row at the next page boundary.
    #[verifier::loop_isolation(false)]
    pub(crate) fn alloc_extent(&mut self, n_pages: usize, Ghost(k): Ghost<Seq<u8>>) -> (base: u64)
        requires
            old(self).heap_ok(),
            n_pages >= 1,
            old(self).has_space(4096 * n_pages + 4096),
        ensures
            grown(old(self), final(self), 4096 * n_pages + 4096),
            page_align(old(self).bump as int) == old(self).bump ==> grown(
                old(self),
                final(self),
                4096 * n_pages,
            ),
            base == page_align(old(self).bump as int),
            final(self).bump == base + 4096 * n_pages,
            final(self).free_head@ == gap_heads(
                old(self).free_head@,
                old(self).bump as int,
                base as int,
            ),
            4096 <= base,
            forall|i: int|
                0 <= i < n_pages ==> final(self).blocks@.dom().contains(#[trigger] (base + 4096 * i))
                    && final(self).blocks@[base + 4096 * i] == (Block { class: 7, owner: Some(k) }),
            forall|i: int|
                0 <= i < n_pages ==> !old(self).blocks@.dom().contains(
                    #[trigger] (base + 4096 * i),
                ),
    {
        let ghost s0 = *self;
        proof {
            lemma_slab_class(7);
        }
        let base: u64 = (self.bump + 4095) / 4096 * 4096;
        self.ensure_len(base + 4096 * n_pages as u64);
        let ghost s1 = *self;
        if base != self.bump {
            self.carve_gap_into_freelist(base);
        }
        let ghost s2 = *self;
        proof {
            assert forall|o: int|
                #[trigger] s0.blocks@.dom().contains(o) && s0.blocks@[o].owner is Some && o != -1
                    implies kept(&s0, &s2, o) by {
                assert(kept(&s0, &s1, o));
                assert(kept(&s1, &s2, o));
            }
        }
        let mut i: usize = 0;
        while i < n_pages
            invariant
                i <= n_pages,
                self.heap_ok(),
                self.bump == base + 4096 * i,
                self.live_count == s0.live_count,
                self.bytes@ == s2.bytes@,
                self.free_head@ == s2.free_head@,
                kept_but(&s0, self, -1),
                forall|j: int|
                    0 <= j < i ==> self.blocks@.dom().contains(#[trigger] (base + 4096 * j))
                        && self.blocks@[base + 4096 * j] == (Block { class: 7, owner: Some(k) }),
            decreases n_pages - i,
        {
            let ghost before = *self;
            let _off: u64 = self.take_tail(SH_PAGE_SLAB_CLASS, Ghost(Some(k)));
            proof {
                assert forall|o: int|
                    #[trigger] s0.blocks@.dom().contains(o) && s0.blocks@[o].owner is Some && o
                        != -1 implies kept(&s0, self, o) by {
                    assert(kept(&s0, &before, o));
                    assert(kept(&before, self, o));
                }
                assert forall|j: int| 0 <= j < i + 1 implies self.blocks@.dom().contains(
                    #[trigger] (base + 4096 * j),
                ) && self.blocks@[base + 4096 * j] == (Block { class: 7, owner: Some(k) }) by {
                    if j < i {
                        assert(before.blocks@.dom().contains(base + 4096 * j));
                    }
                }
            }
            i += 1;
        }
        proof {
            assert forall|j: int| 0 <= j < n_pages implies !s0.blocks@.dom().contains(
                #[trigger] (base + 4096 * j),
            ) by {
                if s0.blocks@.dom().contains(base + 4096 * j) {
                    lemma_class_small(s0.blocks@[base + 4096 * j].class);
                }
            }
        }
        base
    }
}

/// The last of a list of keys.
pub open spec fn last_opt(fks: Seq<Fk>) -> Option<Fk> {
    if fks.len() == 0 {
        None
    } else {
        Some(fks.last())
    }
}

/// Largest key of a value; of a chain only the last page is read.
pub open spec fn value_last(bytes: Seq<u8>, v: ShHeadValue) -> Result<Option<Fk>, StoreError> {
    match v {
        ShHeadValue::Empty => Ok(None),
        ShHeadValue::Inline { entries, used } => Ok(
            if used == 0 {
                None
            } else if used == 1 || entries@[0].create_tx_fk.0 > entries@[1].create_tx_fk.0 {
                Some(entries@[0].create_tx_fk)
            } else {
                Some(entries@[1].create_tx_fk)
            },
        ),
        ShHeadValue::Slab { class, off, .. } => match slab_read(bytes, class, off as int) {
            Ok(fks) => Ok(last_opt(fks)),
            Err(e) => Err(e),
        },
        ShHeadValue::Paged { last_page, .. } => page_last_at(bytes, last_page as int),
        ShHeadValue::Extent { last_page } => page_last_at(bytes, last_page as int),
    }
}

/// Last key of the page at `off`.
pub open spec fn page_last_at(bytes: Seq<u8>, off: int) -> Result<Option<Fk>, StoreError> {
    if off + 4096 > bytes.len() {
        Err(StoreError::Corrupt("pread past logical end"))
    } else {
        page_last(page_at(bytes, off))
    }
}

impl ShBody {
    /// Largest key of a value; of a chain only the last page is read.
    pub fn last_create_fk_on(&self, val: &ShHeadValue) -> (r: Result<Option<Fk>, StoreError>)
        requires
            val matches ShHeadValue::Inline { used, .. } ==> used <= 2,
        ensures
            r == value_last(self.bytes@, *val),
    {
        match val {
            ShHeadValue::Empty => Ok(None),
            ShHeadValue::Inline { entries, used } => {
                if *used == 0 {
                    Ok(None)
                } else if *used == 1 || entries[0].create_tx_fk.0 > entries[1].create_tx_fk.0 {
                    Ok(Some(entries[0].create_tx_fk))
                } else {
                    Ok(Some(entries[1].create_tx_fk))
                }
            },
            ShHeadValue::Slab { class, off, .. } => match self.read_slab(*class, *off) {
                Ok(fks) => if fks.len() == 0 {
                    Ok(None)
                } else {
                    Ok(Some(fks[fks.len() - 1]))
                },
                Err(e) => Err(e),
            },
            ShHeadValue::Paged { last_page, .. } => self.last_fk_at(*last_page),
            ShHeadValue::Extent { last_page } => self.last_fk_at(*last_page),
        }
    }

    fn last_fk_at(&self, off: u64) -> (r: Result<Option<Fk>, StoreError>)
        ensures
            r == page_last_at(self.bytes@, off as int),
    {
        let buf = match self.read_at(off, SH_PAGE_SIZE) {
            Ok(b) => b,
            Err(e) => return Err(e),
        };
        match sh_page_as_array(buf.as_slice()) {
            Ok(p) => sh_page_last_fk(p),
            Err(e) => Err(e),
        }
    }
}

impl ShBody {
    /// Whether `n` more bytes fit.
    pub fn has_space_for(&self, n: u64) -> (r: bool)
        ensures
            r == self.has_space(n as int),
    {
        let a: u128 = self.bump as u128 + n as u128;
        a <= SH_BODY_MAX as u128 && a <= usize::MAX as u128 && self.bytes.len() as u128
            + n as u128 <= usize::MAX as u128
    }
}

impl ShBody {
    /// An empty body: the page of the allocator header and nothing behind it.
    pub fn empty() -> (r: ShBody)
        ensures
            r.heap_ok(),
            r.live_count == 0,
            r.bump == 4096,
            r.bytes@ == zeros(4096),
            r.free_head@ == Seq::new(25, |i: int| 0u64),
            r.blocks@ == Map::<int, Block>::empty(),
    {
        let mut bytes: Vec<u8> = Vec::new();
        push_zeros(&mut bytes, 4096);
        let mut free_head: Vec<u64> = Vec::new();
        while free_head.len() < SH_FREE_LISTS
            invariant
                free_head@.len() <= 25,
                forall|i: int| 0 <= i < free_head@.len() ==> (#[trigger] free_head@[i]) == 0,
            decreases 25 - free_head@.len(),
        {
            free_head.push(0);
        }
        let ghost lists = Seq::new(25, |i: int| Seq::<int>::empty());
        let ghost none = Map::<int, Block>::empty();
        proof {
            assert(bytes@ =~= zeros(4096));
            assert(free_head@ =~= Seq::new(25, |i: int| 0u64));
        }
        ShBody { bytes, live_count: 0, bump: 4096, free_head, blocks: Ghost(none), lists: Ghost(lists) }
    }
}

/// Owned blocks below `bump` are kept.
pub open spec fn kept_below(a: &ShBody, b: &ShBody, bump: int) -> bool {
    forall|o: int|
        #[trigger] a.blocks@.dom().contains(o) && a.blocks@[o].owner is Some && o + class_bytes(
            a.blocks@[o].class,
        ) <= bump ==> kept(a, b, o)
}

impl ShBody {
    /// Ends the body at `bump`: blocks behind it are gone, and no block is free.
    pub fn roll_back(&mut self, bump: u64)
        requires
            old(self).heap_ok(),
            4096 <= bump <= SH_BODY_MAX,
            bump <= usize::MAX,
        ensures
            final(self).heap_ok(),
            final(self).bump == bump,
            final(self).bytes@.len() == bump,
            final(self).live_count == old(self).live_count,
            final(self).free_head@ == Seq::new(25, |i: int| 0u64),
            kept_below(old(self), final(self), bump as int),
    {
        let ghost a = *self;
        let have: usize = self.bytes.len();
        if (bump as usize) < have {
            self.bytes.truncate(bump as usize);
        } else {
            push_zeros(&mut self.bytes, bump as usize - have);
        }
        let mut i: usize = 0;
        while i < SH_FREE_LISTS
            invariant
                i <= 25,
                self.free_head@.len() == 25,
                forall|j: int| 0 <= j < i ==> (#[trigger] self.free_head@[j]) == 0,
                self.bytes@.len() == bump,
                self.live_count == a.live_count,
                self.blocks@ == a.blocks@,
                forall|j: int| 0 <= j < bump && j < a.bytes@.len() ==> self.bytes@[j] == a.bytes@[j],
            decreases 25 - i,
        {
            self.free_head.set(i, 0);
            i += 1;
        }
        self.bump = bump;
        let ghost keep = a.blocks@.restrict(
            Set::new(
                |o: int|
                    a.blocks@.dom().contains(o) && a.blocks@[o].owner is Some && o + class_bytes(
                        a.blocks@[o].class,
                    ) <= bump,
            ),
        );
        let ghost none = Seq::new(25, |i: int| Seq::<int>::empty());
        self.blocks = Ghost(keep);
        self.lists = Ghost(none);
        proof {
            assert(self.free_head@ =~= Seq::new(25, |i: int| 0u64));
            assert forall|o: int|
                #[trigger] a.blocks@.dom().contains(o) && a.blocks@[o].owner is Some && o
                    + class_bytes(a.blocks@[o].class) <= bump implies kept(&a, self, o) by {
                assert(self.blocks@.dom().contains(o));
                lemma_class_small(a.blocks@[o].class);
                assert(self.bytes@.subrange(o, o + class_bytes(a.blocks@[o].class))
                    =~= a.bytes@.subrange(o, o + class_bytes(a.blocks@[o].class)));
            }
        }
    }
}

impl ShBody {
    /// Moves the end of the body to `bump`.
    pub fn grow_to(&mut self, bump: u64)
        requires
            old(self).heap_ok(),
            old(self).bump <= bump <= SH_BODY_MAX,
            bump <= usize::MAX,
        ensures
            final(self).heap_ok(),
            final(self).bump == bump,
            final(self).live_count == old(self).live_count,
            final(self).blocks@ == old(self).blocks@,
            final(self).free_head@ == old(self).free_head@,
            final(self).bytes@ == old(self).bytes@ + zeros(
                if bump > old(self).bytes@.len() {
                    (bump - old(self).bytes@.len()) as nat
                } else {
                    0nat
                },
            ),
            kept_but(old(self), final(self), -1),
    {
        self.ensure_len(bump);
        let ghost a = *self;
        self.bump = bump;
        proof {
            assert forall|o: int| #[trigger]
                old(self).blocks@.dom().contains(o) && old(self).blocks@[o].owner is Some && o
                    != -1 implies kept(old(self), self, o) by {
                assert(kept(old(self), &a, o));
            }
        }
    }
}

} // verus!
