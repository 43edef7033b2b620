//! Check of a body: the blocks that head values and free lists name are found again from
//! its bytes.

use vstd::prelude::*;
use crate::bytes::{copy_range, get_u64, u64_at};
use crate::error::StoreError;
use crate::primitives::Fk;
use crate::scripthash::sound_at;
use crate::scripthash_body::{blocks_apart, blocks_inside, list_ok, page_at, Block, ShBody, SH_BODY_MAX};
use crate::scripthash_layout::{class_bytes, slab_bytes, ShEntry, ShHeadKey, ShHeadValue};
use crate::scripthash_pack8::{unpack8, unpack8_word};
use crate::scripthash_pages::{page_extent, page_fks, page_next, sh_page_as_array, sh_page_extent};
use crate::scripthash_slabs::{decode_slab_payload, slab_fks};
use crate::scripthash_values::{chain_fks, chain_sound, extent_sound, fks_small, holds_value, link_ok, owned};
use crate::slot_table::{key_eq, Slot};
use crate::sorting::{lemma_same_items, sort_ranked, sorted_by_rank, Ranked};

verus! {

/// A block that a head value or a free list names.
#[derive(Clone, Copy, Debug)]
pub struct BlockRef {
    pub off: u64,
    pub class: u8,
    pub free: bool,
    /// The key that the block belongs to, where it is not free.
    pub key: ShHeadKey,
}

impl Ranked for BlockRef {
    open spec fn rank(&self) -> nat {
        self.off as nat
    }

    fn rank_le(&self, other: &Self) -> (r: bool) {
        self.off <= other.off
    }
}

/// The block that is named.
spec fn block_of(r: BlockRef) -> Block {
    Block {
        class: r.class as nat,
        owner: if r.free {
            None
        } else {
            Some(r.key@)
        },
    }
}

/// The block is among those named.
spec fn has_ref(refs: Seq<BlockRef>, o: int, b: Block) -> bool {
    exists|j: int| 0 <= j < refs.len() && (#[trigger] refs[j]).off == o && block_of(refs[j]) == b
}

/// Nothing that was named is gone.
spec fn refs_kept(a: Seq<BlockRef>, b: Seq<BlockRef>) -> bool {
    a.len() <= b.len() && b.subrange(0, a.len() as int) == a
}

proof fn lemma_ref_kept(a: Seq<BlockRef>, b: Seq<BlockRef>, o: int, x: Block)
    requires
        refs_kept(a, b),
        has_ref(a, o, x),
    ensures
        has_ref(b, o, x),
{
    let j = choose|j: int| 0 <= j < a.len() && (#[trigger] a[j]).off == o && block_of(a[j]) == x;
    assert(b.subrange(0, a.len() as int)[j] == b[j]);
    assert(b[j].off == o);
}

proof fn lemma_kept_push(a: Seq<BlockRef>, b: Seq<BlockRef>, r: BlockRef)
    requires
        refs_kept(a, b),
    ensures
        refs_kept(a, b.push(r)),
        has_ref(b.push(r), r.off as int, block_of(r)),
{
    let c = b.push(r);
    assert(c.subrange(0, a.len() as int) =~= b.subrange(0, a.len() as int));
    assert(c[b.len() as int] == r);
}

/// The value stands for `fks` in the blocks at `pages`, all of which are named.
spec fn value_at(
    bytes: Seq<u8>,
    refs: Seq<BlockRef>,
    v: ShHeadValue,
    k: Seq<u8>,
    pages: Seq<int>,
    fks: Seq<Fk>,
) -> bool {
    &&& fks_small(fks)
    &&& match v {
        ShHeadValue::Empty => fks.len() == 0 && pages.len() == 0,
        ShHeadValue::Inline { entries, used } => used == 1 && pages.len() == 0 && fks.len() == 1
            && entries == [ShEntry { create_tx_fk: fks[0] }, ShEntry { create_tx_fk: Fk(0) }],
        ShHeadValue::Slab { class, used, off } => {
            &&& pages == seq![off as int]
            &&& class <= 6
            &&& has_ref(refs, off as int, Block { class: class as nat, owner: Some(k) })
            &&& slab_fks(bytes.subrange(off as int, off + class_bytes(class as nat))) == Ok::<
                Seq<Fk>,
                StoreError,
            >(fks)
            &&& fks.len() == used
            &&& fks.len() >= 1
        },
        ShHeadValue::Extent { last_page } => {
            &&& extent_sound(bytes, last_page as int, pages)
            &&& chain_fks(bytes, pages) == fks
            &&& forall|i: int|
                0 <= i < pages.len() ==> has_ref(
                    refs,
                    #[trigger] pages[i],
                    Block { class: 7, owner: Some(k) },
                )
        },
        ShHeadValue::Paged { .. } => false,
    }
}

/// The record's value can be read, and its blocks are named.
spec fn rec_named(bytes: Seq<u8>, refs: Seq<BlockRef>, s: Slot) -> bool {
    unpack8(s.word) is Ok && exists|pages: Seq<int>, fks: Seq<Fk>| #[trigger]
        value_at(bytes, refs, unpack8(s.word)->Ok_0, s.key@, pages, fks)
}

proof fn lemma_named_kept(bytes: Seq<u8>, a: Seq<BlockRef>, b: Seq<BlockRef>, s: Slot)
    requires
        refs_kept(a, b),
        rec_named(bytes, a, s),
    ensures
        rec_named(bytes, b, s),
{
    let v = unpack8(s.word)->Ok_0;
    let (pages, fks) = choose|pages: Seq<int>, fks: Seq<Fk>| #[trigger]
        value_at(bytes, a, v, s.key@, pages, fks);
    match v {
        ShHeadValue::Slab { class, used, off } => {
            lemma_ref_kept(
                a,
                b,
                off as int,
                Block { class: class as nat, owner: Some(s.key@) },
            );
        },
        ShHeadValue::Extent { last_page } => {
            assert forall|i: int| 0 <= i < pages.len() implies has_ref(
                b,
                #[trigger] pages[i],
                Block { class: 7, owner: Some(s.key@) },
            ) by {
                lemma_ref_kept(a, b, pages[i], Block { class: 7, owner: Some(s.key@) });
            }
        },
        _ => {},
    }
    assert(value_at(bytes, b, v, s.key@, pages, fks));
}

/// The list of one class: its blocks are named as free, and each links to the next.
spec fn list_named(
    bytes: Seq<u8>,
    refs: Seq<BlockRef>,
    list: Seq<int>,
    class: nat,
    head: u64,
) -> bool {
    &&& head == (if list.len() == 0 {
        0int
    } else {
        list[0]
    })
    &&& forall|i: int|
        0 <= i < list.len() ==> (#[trigger] list[i]) != 0 && has_ref(
            refs,
            list[i],
            Block { class, owner: None },
        )
    &&& forall|i: int|
        0 <= i < list.len() ==> u64_at(bytes, #[trigger] list[i]) == (if i + 1 < list.len() {
            list[i + 1]
        } else {
            0int
        })
}

proof fn lemma_list_kept(
    bytes: Seq<u8>,
    a: Seq<BlockRef>,
    b: Seq<BlockRef>,
    list: Seq<int>,
    class: nat,
    head: u64,
)
    requires
        refs_kept(a, b),
        list_named(bytes, a, list, class, head),
    ensures
        list_named(bytes, b, list, class, head),
{
    assert forall|i: int| 0 <= i < list.len() implies (#[trigger] list[i]) != 0 && has_ref(
        b,
        list[i],
        Block { class, owner: None },
    ) by {
        lemma_ref_kept(a, b, list[i], Block { class, owner: None });
    }
}

/// A list that ends does not come back to a block.
proof fn lemma_list_once(bytes: Seq<u8>, list: Seq<int>, i: int, j: int)
    requires
        0 <= i < j < list.len(),
        forall|m: int| 0 <= m < list.len() ==> (#[trigger] list[m]) != 0,
        forall|m: int|
            0 <= m < list.len() ==> u64_at(bytes, #[trigger] list[m]) == (if m + 1 < list.len() {
                list[m + 1]
            } else {
                0int
            }),
    ensures
        list[i] != list[j],
    decreases list.len() - j,
{
    assert(u64_at(bytes, list[i]) == list[i + 1]);
    assert(list[i + 1] != 0);
    if j + 1 < list.len() {
        lemma_list_once(bytes, list, i + 1, j + 1);
        assert(u64_at(bytes, list[j]) == list[j + 1]);
    }
}

/// A chain that ends does not come back to a page.
proof fn lemma_chain_once(bytes: Seq<u8>, pages: Seq<int>, i: int, j: int)
    requires
        0 <= i < j < pages.len(),
        forall|m: int| 0 <= m < pages.len() ==> #[trigger] link_ok(bytes, pages, m),
    ensures
        pages[i] != pages[j],
    decreases pages.len() - j,
{
    assert(link_ok(bytes, pages, i));
    assert(link_ok(bytes, pages, i + 1));
    assert(link_ok(bytes, pages, j));
    if j + 1 < pages.len() {
        lemma_chain_once(bytes, pages, i + 1, j + 1);
    }
}

/// Every block that is named is one of these.
spec fn refs_in(refs: Seq<BlockRef>, blocks: Map<int, Block>) -> bool {
    forall|j: int|
        0 <= j < refs.len() ==> blocks.dom().contains((#[trigger] refs[j]).off as int)
            && blocks[refs[j].off as int] == block_of(refs[j])
}

/// Distinct offsets below `n` are no more than `n`.
proof fn lemma_few_places(p: Seq<int>, n: int)
    requires
        0 <= n,
        forall|i: int| 0 <= i < p.len() ==> 0 <= #[trigger] p[i] < n,
        forall|i: int, j: int| 0 <= i < j < p.len() ==> (#[trigger] p[i]) != (#[trigger] p[j]),
    ensures
        p.len() <= n,
{
    assert(p.no_duplicates()) by {
        assert forall|i: int, j: int| 0 <= i < p.len() && 0 <= j < p.len() && i != j implies p[i]
            != p[j] by {
            if i < j {
                assert(p[i] != p[j]);
            } else {
                assert(p[j] != p[i]);
            }
        }
    }
    p.unique_seq_to_set();
    vstd::set_lib::lemma_int_range(0, n);
    let all = vstd::set_lib::set_int_range(0, n);
    assert(p.to_set().subset_of(all)) by {
        assert forall|x: int| p.to_set().contains(x) implies all.contains(x) by {
            let i = choose|i: int| 0 <= i < p.len() && p[i] == x;
            assert(0 <= p[i] < n);
        }
    }
    vstd::set_lib::lemma_len_subset(p.to_set(), all);
}

/// A chain has no more pages than the body has bytes.
proof fn lemma_chain_len(bytes: Seq<u8>, p: Seq<int>)
    requires
        chain_sound(bytes, p),
    ensures
        p.len() <= bytes.len(),
{
    assert forall|i: int| 0 <= i < p.len() implies 0 <= #[trigger] p[i] < bytes.len() by {
        assert(link_ok(bytes, p, i));
    }
    lemma_few_places(p, bytes.len() as int);
}

/// Offsets as integers.
spec fn ints(p: Seq<u64>) -> Seq<int> {
    p.map_values(|x: u64| x as int)
}

/// True if the creates rise and have a packed form.
fn creates_valid(v: &Vec<Fk>) -> (r: bool)
    ensures
        r == fks_small(v@),
{
    let mut i: usize = 0;
    while i < v.len()
        invariant
            i <= v@.len(),
            i > 0 ==> v@[0].0 > 0,
            forall|a: int| 0 <= a < i ==> (#[trigger] v@[a]).0 < 0x8000_0000_0000_0000,
            forall|a: int, b: int|
                0 <= a < b < i ==> (#[trigger] v@[a]).0 < (#[trigger] v@[b]).0,
        decreases v@.len() - i,
    {
        if v[i].0 >= 0x8000_0000_0000_0000 || v[i].0 == 0 {
            assert(!fks_small(v@)) by {
                if i > 0 {
                    assert(v@[0].0 > 0);
                }
                if fks_small(v@) && i > 0 {
                    assert(v@[0].0 < v@[i as int].0);
                }
            }
            return false;
        }
        if i > 0 && v[i].0 <= v[i - 1].0 {
            assert(!fks_small(v@)) by {
                if fks_small(v@) {
                    assert(v@[i - 1].0 < v@[i as int].0);
                }
            }
            return false;
        }
        proof {
            assert forall|a: int, b: int| 0 <= a < b < i + 1 implies (#[trigger] v@[a]).0 < (
            #[trigger] v@[b]).0 by {
                if b == i && a < i - 1 {
                    assert(v@[a].0 < v@[i - 1].0);
                }
            }
        }
        i += 1;
    }
    true
}

/// The chain of the key lies in the body.
spec fn chain_held(g: &ShBody, last: u64, k: Seq<u8>, goal: Seq<int>) -> bool {
    &&& extent_sound(g.bytes@, last as int, goal)
    &&& fks_small(chain_fks(g.bytes@, goal))
    &&& forall|i: int| 0 <= i < goal.len() ==> owned(g, #[trigger] goal[i], 7, k)
}

impl ShBody {
    /// Follows a chain of pages to its end. `None` where a page cannot be read, is empty, or
    /// the chain does not end.
    fn follow_chain(&self, base: u64, Ghost(goal): Ghost<Seq<int>>) -> (r: Option<
        (Vec<u64>, Vec<Fk>),
    >)
        ensures
            chain_sound(self.bytes@, goal) && goal[0] == base ==> r is Some && ints((r->0).0@)
                == goal,
            r matches Some((pages, fks)) ==> {
                &&& pages@.len() >= 1
                &&& pages@[0] == base
                &&& forall|i: int|
                    0 <= i < pages@.len() ==> #[trigger] link_ok(self.bytes@, ints(pages@), i)
                &&& fks@ == chain_fks(self.bytes@, ints(pages@))
            },
    {
        let mut pages: Vec<u64> = Vec::new();
        let mut fks: Vec<Fk> = Vec::new();
        let mut cur: u64 = base;
        let ghost good = chain_sound(self.bytes@, goal) && goal[0] == base;
        proof {
            assert(ints(pages@) =~= Seq::<int>::empty());
            if good {
                lemma_chain_len(self.bytes@, goal);
            }
        }
        while cur != 0 && pages.len() < self.bytes.len()
            invariant
                pages@.len() == 0 ==> cur == base,
                pages@.len() > 0 ==> pages@[0] == base,
                forall|i: int|
                    0 <= i < pages@.len() ==> {
                        let p = page_at(self.bytes@, (#[trigger] pages@[i]) as int);
                        &&& 4096 <= pages@[i]
                        &&& pages@[i] + 4096 <= self.bytes@.len()
                        &&& page_fks(p) is Ok
                        &&& page_fks(p)->Ok_0.len() > 0
                        &&& page_next(p) == Ok::<u64, StoreError>(
                            if i + 1 < pages@.len() {
                                pages@[i + 1]
                            } else {
                                cur
                            },
                        )
                    },
                fks@ == chain_fks(self.bytes@, ints(pages@)),
                good == (chain_sound(self.bytes@, goal) && goal[0] == base),
                good ==> goal.len() <= self.bytes@.len() && pages@.len() <= goal.len() && cur == (
                if pages@.len() < goal.len() {
                    goal[pages@.len() as int]
                } else {
                    0int
                }),
                good ==> forall|i: int| 0 <= i < pages@.len() ==> (#[trigger] pages@[i]) == goal[i],
            decreases self.bytes@.len() - pages@.len(),
        {
            proof {
                if good {
                    assert(link_ok(self.bytes@, goal, pages@.len() as int));
                }
            }
            if cur < 4096 {
                return None;
            }
            let (next, more) = match self.read_page(cur) {
                Ok(x) => x,
                Err(_) => {
                    return None;
                },
            };
            if more.len() == 0 {
                return None;
            }
            let ghost (p0, f0) = (pages@, fks@);
            pages.push(cur);
            let mut i: usize = 0;
            while i < more.len()
                invariant
                    i <= more@.len(),
                    fks@ == f0 + more@.subrange(0, i as int),
                decreases more@.len() - i,
            {
                fks.push(more[i]);
                proof {
                    assert(more@.subrange(0, i + 1) =~= more@.subrange(0, i as int).push(
                        more@[i as int],
                    ));
                    assert(fks@ =~= f0 + more@.subrange(0, i + 1));
                }
                i += 1;
            }
            proof {
                assert(more@.subrange(0, i as int) =~= more@);
                let q = ints(pages@);
                assert(q.drop_last() =~= ints(p0));
                assert(q.last() == cur);
                assert forall|m: int| 0 <= m < p0.len() implies pages@[m] == p0[m] by {}
            }
            cur = next;
        }
        proof {
            if good && pages@.len() < goal.len() {
                assert(link_ok(self.bytes@, goal, pages@.len() as int));
            }
        }
        if cur != 0 || pages.len() == 0 {
            return None;
        }
        proof {
            if good {
                assert(ints(pages@) =~= goal);
            }
            assert forall|i: int| 0 <= i < pages@.len() implies #[trigger] link_ok(
                self.bytes@,
                ints(pages@),
                i,
            ) by {
                assert(ints(pages@)[i] == pages@[i]);
                if i + 1 < pages@.len() {
                    assert(ints(pages@)[i + 1] == pages@[i + 1]);
                }
            }
        }
        Some((pages, fks))
    }

    /// Names the pages of a chain that ends at `last`. False where the chain is damaged.
    #[verifier::rlimit(40)]
    fn name_chain(
        &self,
        last: u64,
        key: &ShHeadKey,
        refs: &mut Vec<BlockRef>,
        Ghost(g): Ghost<ShBody>,
        Ghost(goal): Ghost<Seq<int>>,
    ) -> (r: bool)
        requires
            g.bytes@ == self.bytes@,
        ensures
            refs_kept(old(refs)@, final(refs)@),
            chain_held(&g, last, key@, goal) ==> r && (refs_in(old(refs)@, g.blocks@) ==> refs_in(
                final(refs)@,
                g.blocks@,
            )),
            r ==> exists|pages: Seq<int>, fks: Seq<Fk>| #[trigger]
                value_at(
                    self.bytes@,
                    final(refs)@,
                    ShHeadValue::Extent { last_page: last },
                    key@,
                    pages,
                    fks,
                ),
    {
        proof {
            assert(refs@.subrange(0, refs@.len() as int) =~= refs@);
        }
        let len: usize = self.bytes.len();
        let ghost good = chain_held(&g, last, key@, goal);
        proof {
            if good {
                assert(link_ok(self.bytes@, goal, goal.len() - 1));
            }
        }
        if len < 4096 || last > (len - 4096) as u64 {
            return false;
        }
        let image = copy_range(self.bytes.as_slice(), last as usize, last as usize + 4096);
        proof {
            assert(page_at(self.bytes@, last as int) =~= image@);
        }
        let (base, n) = match sh_page_as_array(image.as_slice()) {
            Ok(p) => match sh_page_extent(p) {
                Some(x) => x,
                None => {
                    return false;
                },
            },
            Err(_) => {
                return false;
            },
        };
        let (pages, fks) = match self.follow_chain(base, Ghost(goal)) {
            Some(x) => x,
            None => {
                return false;
            },
        };
        let m: usize = pages.len();
        proof {
            if good {
                assert(ints(pages@)[m - 1] == pages@[m - 1]);
                assert forall|a: int| 0 <= a < m implies (#[trigger] pages@[a]) == goal[a] by {
                    assert(ints(pages@)[a] == pages@[a]);
                }
            }
        }
        if pages[m - 1] != last || n == 0 || n as usize > m || !creates_valid(&fks) {
            return false;
        }
        let mut i: usize = 0;
        while i < n as usize
            invariant
                i <= n <= m,
                m == pages@.len(),
                refs_kept(old(refs)@, refs@),
                refs@ == old(refs)@,
                pages@[0] == base,
                good == chain_held(&g, last, key@, goal),
                g.bytes@ == self.bytes@,
                good ==> page_extent(page_at(self.bytes@, last as int)) == Some((base, n))
                    && goal.len() == m,
                good ==> forall|a: int| 0 <= a < m ==> (#[trigger] pages@[a]) == goal[a],
                forall|j: int| 0 <= j < i ==> (#[trigger] pages@[j]) == base + 4096 * j,
            decreases n - i,
        {
            if i > 0 {
                let before: u64 = pages[i - 1];
                proof {
                    if good {
                        assert(link_ok(self.bytes@, goal, i - 1));
                        assert(goal[i as int] == base + 4096 * i);
                        assert(goal[i - 1] == base + 4096 * (i - 1));
                    }
                }
                if before > 0xffff_ffff_ffff_ffff - 4096 || pages[i] != before + 4096 {
                    return false;
                }
            }
            i += 1;
        }
        let ghost start = refs@;
        let mut j: usize = 0;
        while j < m
            invariant
                j <= m,
                m == pages@.len(),
                refs_kept(start, refs@),
                good == chain_held(&g, last, key@, goal),
                good ==> goal.len() == m && forall|a: int|
                    0 <= a < m ==> (#[trigger] pages@[a]) == goal[a],
                good && refs_in(start, g.blocks@) ==> refs_in(refs@, g.blocks@),
                forall|a: int|
                    0 <= a < j ==> has_ref(
                        refs@,
                        (#[trigger] pages@[a]) as int,
                        Block { class: 7, owner: Some(key@) },
                    ),
            decreases m - j,
        {
            let ghost before = refs@;
            let one = BlockRef { off: pages[j], class: 7, free: false, key: *key };
            refs.push(one);
            proof {
                if good {
                    assert(owned(&g, goal[j as int], 7, key@));
                    assert(pages@[j as int] == goal[j as int]);
                }
                lemma_kept_push(start, before, one);
                assert(before.subrange(0, before.len() as int) =~= before);
                lemma_kept_push(before, before, one);
                assert forall|a: int| 0 <= a < j + 1 implies has_ref(
                    refs@,
                    (#[trigger] pages@[a]) as int,
                    Block { class: 7, owner: Some(key@) },
                ) by {
                    if a < j {
                        lemma_ref_kept(
                            before,
                            refs@,
                            pages@[a] as int,
                            Block { class: 7, owner: Some(key@) },
                        );
                    } else {
                        assert(block_of(one) == (Block { class: 7, owner: Some(key@) }));
                    }
                }
            }
            j += 1;
        }
        proof {
            let q = ints(pages@);
            assert(q.len() == m);
            assert forall|a: int, b: int| 0 <= a < b < q.len() implies (#[trigger] q[a]) != (
            #[trigger] q[b]) by {
                lemma_chain_once(self.bytes@, q, a, b);
            }
            assert(chain_sound(self.bytes@, q));
            assert(q.last() == last);
            assert forall|a: int| 0 <= a < n implies #[trigger] q[a] == base + 4096 * a by {
                assert(pages@[a] == base + 4096 * a);
            }
            assert forall|a: int| 0 <= a < q.len() implies has_ref(
                refs@,
                #[trigger] q[a],
                Block { class: 7, owner: Some(key@) },
            ) by {
                assert(q[a] == pages@[a]);
            }
            assert(value_at(
                self.bytes@,
                refs@,
                ShHeadValue::Extent { last_page: last },
                key@,
                q,
                fks@,
            ));
        }
        true
    }

    /// Names the block of a slab. False where the slab is damaged.
    fn name_slab(
        &self,
        class: u8,
        used: u16,
        off: u64,
        key: &ShHeadKey,
        refs: &mut Vec<BlockRef>,
        Ghost(g): Ghost<ShBody>,
    ) -> (r: bool)
        requires
            g.bytes@ == self.bytes@,
        ensures
            refs_kept(old(refs)@, final(refs)@),
            g.heap_ok() && sound_at(&g, ShHeadValue::Slab { class, used, off }, key@) ==> r && (
            refs_in(old(refs)@, g.blocks@) ==> refs_in(final(refs)@, g.blocks@)),
            r ==> exists|pages: Seq<int>, fks: Seq<Fk>| #[trigger]
                value_at(
                    self.bytes@,
                    final(refs)@,
                    ShHeadValue::Slab { class, used, off },
                    key@,
                    pages,
                    fks,
                ),
    {
        proof {
            assert(refs@.subrange(0, refs@.len() as int) =~= refs@);
            reveal(holds_value);
        }
        if class > 6 {
            return false;
        }
        let n: u64 = slab_bytes(class);
        let len: usize = self.bytes.len();
        proof {
            crate::scripthash_layout::lemma_class_cap_bound(class as nat);
        }
        if n > len as u64 || off > len as u64 - n {
            return false;
        }
        let image = copy_range(self.bytes.as_slice(), off as usize, (off + n) as usize);
        let fks = match decode_slab_payload(image.as_slice()) {
            Ok(v) => v,
            Err(_) => {
                return false;
            },
        };
        if fks.len() == 0 || fks.len() != used as usize || !creates_valid(&fks) {
            return false;
        }
        let ghost before = refs@;
        let one = BlockRef { off, class, free: false, key: *key };
        refs.push(one);
        proof {
            lemma_kept_push(before, before, one);
            assert(block_of(one) == (Block { class: class as nat, owner: Some(key@) }));
            assert(value_at(
                self.bytes@,
                refs@,
                ShHeadValue::Slab { class, used, off },
                key@,
                seq![off as int],
                fks@,
            ));
        }
        true
    }

    /// Names the blocks of a record's value. False where the value is damaged.
    fn name_record(&self, s: &Slot, refs: &mut Vec<BlockRef>, Ghost(g): Ghost<ShBody>) -> (r: bool)
        requires
            g.bytes@ == self.bytes@,
        ensures
            refs_kept(old(refs)@, final(refs)@),
            g.heap_ok() && unpack8(s.word) is Ok && sound_at(&g, unpack8(s.word)->Ok_0, s.key@)
                ==> r && (refs_in(old(refs)@, g.blocks@) ==> refs_in(final(refs)@, g.blocks@)),
            r ==> rec_named(self.bytes@, final(refs)@, *s),
    {
        proof {
            assert(refs@.subrange(0, refs@.len() as int) =~= refs@);
            reveal(holds_value);
        }
        let v = match unpack8_word(s.word) {
            Ok(v) => v,
            Err(_) => {
                return false;
            },
        };
        match v {
            ShHeadValue::Empty => {
                proof {
                    assert(value_at(
                        self.bytes@,
                        refs@,
                        v,
                        s.key@,
                        Seq::empty(),
                        Seq::empty(),
                    ));
                }
                true
            },
            ShHeadValue::Inline { entries, used } => {
                let fk: Fk = entries[0].create_tx_fk;
                if used != 1 || entries[1].create_tx_fk.0 != 0 || fk.0 == 0 || fk.0
                    >= 0x8000_0000_0000_0000 {
                    return false;
                }
                proof {
                    let e = [ShEntry { create_tx_fk: fk }, ShEntry { create_tx_fk: Fk(0) }];
                    assert(entries@[0] == e@[0] && entries@[1] == e@[1]);
                    assert(entries@ =~= e@);
                    assert(entries =~= e);
                    assert(value_at(self.bytes@, refs@, v, s.key@, Seq::empty(), seq![fk]));
                }
                true
            },
            ShHeadValue::Slab { class, used, off } => self.name_slab(
                class,
                used,
                off,
                &s.key,
                refs,
                Ghost(g),
            ),
            ShHeadValue::Extent { last_page } => {
                let ghost (goal, _all) = choose|p: Seq<int>, f: Seq<Fk>|
                    holds_value(&g, v, s.key@, p, f);
                proof {
                    if sound_at(&g, v, s.key@) {
                        assert(chain_held(&g, last_page, s.key@, goal));
                    }
                }
                self.name_chain(last_page, &s.key, refs, Ghost(g), Ghost(goal))
            },
            ShHeadValue::Paged { .. } => false,
        }
    }

    /// Names the blocks of a free list. False where the list is damaged.
    fn name_free(&self, class: u8, refs: &mut Vec<BlockRef>, Ghost(g): Ghost<ShBody>) -> (r: (
        bool,
        Ghost<Seq<int>>,
    ))
        requires
            class < 25,
            self.free_head@.len() == 25,
            g.bytes@ == self.bytes@,
            g.free_head@ == self.free_head@,
        ensures
            refs_kept(old(refs)@, final(refs)@),
            g.heap_ok() ==> r.0 && (refs_in(old(refs)@, g.blocks@) ==> refs_in(
                final(refs)@,
                g.blocks@,
            )),
            r.0 ==> list_named(
                self.bytes@,
                final(refs)@,
                r.1@,
                class as nat,
                self.free_head@[class as int],
            ),
    {
        let ghost start = refs@;
        let ghost mut list: Seq<int> = Seq::empty();
        let len: usize = self.bytes.len();
        let mut cur: u64 = self.free_head[class as usize];
        let mut steps: usize = 0;
        let ghost goal = g.lists@[class as int];
        let ghost good = g.heap_ok();
        proof {
            assert(refs@.subrange(0, refs@.len() as int) =~= refs@);
            if good {
                lemma_list_len(&g, class as int);
            }
        }
        while cur != 0 && steps < len
            invariant
                len == self.bytes@.len(),
                steps <= len,
                start == old(refs)@,
                refs_kept(start, refs@),
                good == g.heap_ok(),
                goal == g.lists@[class as int],
                g.bytes@ == self.bytes@,
                list.len() == steps,
                good ==> goal.len() <= len && steps <= goal.len() && cur == (if steps < goal.len() {
                    goal[steps as int]
                } else {
                    0int
                }),
                good && refs_in(start, g.blocks@) ==> refs_in(refs@, g.blocks@),
                self.free_head@.len() == 25,
                class < 25,
                (if list.len() == 0 {
                    cur as int
                } else {
                    list[0]
                }) == self.free_head@[class as int],
                forall|i: int|
                    0 <= i < list.len() ==> (#[trigger] list[i]) != 0 && has_ref(
                        refs@,
                        list[i],
                        Block { class: class as nat, owner: None },
                    ),
                forall|i: int|
                    0 <= i < list.len() ==> u64_at(self.bytes@, #[trigger] list[i]) == (if i + 1
                        < list.len() {
                        list[i + 1]
                    } else {
                        cur as int
                    }),
            decreases len - steps,
        {
            proof {
                if good {
                    let b = g.blocks@[goal[steps as int]];
                    assert(list_ok(
                        g.bytes@,
                        g.blocks@,
                        g.lists@[class as int],
                        class as nat,
                        g.free_head@[class as int],
                    ));
                    assert(g.blocks@.dom().contains(goal[steps as int]));
                    crate::scripthash_layout::lemma_class_cap_bound(class as nat);
                    assert(u64_at(g.bytes@, goal[steps as int]) == (if steps + 1 < goal.len() {
                        goal[steps + 1]
                    } else {
                        0int
                    }));
                }
            }
            if len < 8 || cur > (len - 8) as u64 {
                return (false, Ghost(list));
            }
            let next: u64 = get_u64(self.bytes.as_slice(), cur as usize);
            let ghost (before, l0) = (refs@, list);
            let one = BlockRef { off: cur, class, free: true, key: [0u8; 16] };
            refs.push(one);
            proof {
                list = list.push(cur as int);
                lemma_kept_push(start, before, one);
                assert(before.subrange(0, before.len() as int) =~= before);
                lemma_kept_push(before, before, one);
                assert(block_of(one) == (Block { class: class as nat, owner: None }));
                assert forall|i: int| 0 <= i < list.len() implies (#[trigger] list[i]) != 0
                    && has_ref(refs@, list[i], Block { class: class as nat, owner: None }) by {
                    if i < l0.len() {
                        assert(l0[i] == list[i]);
                        lemma_ref_kept(
                            before,
                            refs@,
                            l0[i],
                            Block { class: class as nat, owner: None },
                        );
                    }
                }
                assert forall|i: int| 0 <= i < list.len() implies u64_at(
                    self.bytes@,
                    #[trigger] list[i],
                ) == (if i + 1 < list.len() {
                    list[i + 1]
                } else {
                    next as int
                }) by {
                    if i < l0.len() {
                        assert(l0[i] == list[i]);
                    }
                }
            }
            cur = next;
            steps += 1;
        }
        proof {
            if good && steps < goal.len() {
                assert(list_ok(
                    g.bytes@,
                    g.blocks@,
                    g.lists@[class as int],
                    class as nat,
                    g.free_head@[class as int],
                ));
                assert(g.blocks@.dom().contains(goal[steps as int]));
            }
        }
        (cur == 0, Ghost(list))
    }
}

/// A free list has no more blocks than the body has bytes.
proof fn lemma_list_len(g: &ShBody, c: int)
    requires
        g.heap_ok(),
        0 <= c < 25,
    ensures
        g.lists@[c].len() <= g.bytes@.len(),
        g.free_head@[c] == (if g.lists@[c].len() == 0 {
            0int
        } else {
            g.lists@[c][0]
        }),
{
    let l = g.lists@[c];
    assert(list_ok(g.bytes@, g.blocks@, g.lists@[c], c as nat, g.free_head@[c]));
    assert forall|i: int| 0 <= i < l.len() implies 0 <= #[trigger] l[i] < g.bytes@.len() by {
        assert(g.blocks@.dom().contains(l[i]));
        crate::scripthash_layout::lemma_class_cap_bound(c as nat);
    }
    lemma_few_places(l, g.bytes@.len() as int);
}

/// Both name the same block.
fn same_block(a: &BlockRef, b: &BlockRef) -> (r: bool)
    ensures
        r == (a.off == b.off && block_of(*a) == block_of(*b)),
{
    if a.off != b.off || a.class != b.class || a.free != b.free {
        return false;
    }
    a.free || key_eq(&a.key, &b.key)
}

/// The blocks that are named, by their offsets.
spec fn block_map(s: Seq<BlockRef>) -> Map<int, Block> {
    Map::new(
        |o: int| exists|i: int| 0 <= i < s.len() && (#[trigger] s[i]).off == o,
        |o: int| block_of(s[choose|i: int| 0 <= i < s.len() && (#[trigger] s[i]).off == o]),
    )
}

/// The named blocks as a map, where they lie in the body and do not overlap.
#[verifier::rlimit(40)]
fn map_blocks(refs: &Vec<BlockRef>, bump: u64, Ghost(goal): Ghost<Map<int, Block>>) -> (r: (
    bool,
    Ghost<Map<int, Block>>,
))
    requires
        bump <= SH_BODY_MAX,
    ensures
        refs_in(refs@, goal) && blocks_inside(goal, bump as int) && blocks_apart(goal) ==> r.0,
        r.0 ==> {
            &&& blocks_inside(r.1@, bump as int)
            &&& blocks_apart(r.1@)
            &&& forall|o: int, b: Block| #[trigger]
                has_ref(refs@, o, b) ==> r.1@.dom().contains(o) && r.1@[o] == b
        },
{
    let s = sort_ranked(refs);
    let ghost m = block_map(s@);
    let ghost good = refs_in(refs@, goal) && blocks_inside(goal, bump as int) && blocks_apart(goal);
    proof {
        if good {
            assert forall|j: int| 0 <= j < s@.len() implies goal.dom().contains(
                (#[trigger] s@[j]).off as int,
            ) && goal[s@[j].off as int] == block_of(s@[j]) by {
                let i = lemma_same_items(s@, refs@, j);
                assert(refs@[i] == s@[j]);
            }
        }
    }
    let mut i: usize = 0;
    while i < s.len()
        invariant
            i <= s@.len(),
            bump <= SH_BODY_MAX,
            sorted_by_rank(s@),
            good == (refs_in(refs@, goal) && blocks_inside(goal, bump as int) && blocks_apart(
                goal,
            )),
            good ==> refs_in(s@, goal),
            forall|a: int|
                0 <= a < i ==> 4096 <= (#[trigger] s@[a]).off && s@[a].class <= 24 && s@[a].off
                    + class_bytes(s@[a].class as nat) <= bump,
            forall|a: int, b: int|
                0 <= a < b < i ==> clear_of(#[trigger] s@[a], #[trigger] s@[b]),
        decreases s@.len() - i,
    {
        let x: BlockRef = s[i];
        proof {
            if good {
                assert(goal.dom().contains(s@[i as int].off as int));
                if i > 0 {
                    assert(goal.dom().contains(s@[i - 1].off as int));
                    assert(s@[i - 1].rank() <= s@[i as int].rank());
                }
            }
        }
        if x.off < 4096 || x.class > 24 || x.off > bump {
            return (false, Ghost(m));
        }
        let n: u64 = slab_bytes(x.class);
        proof {
            crate::scripthash_layout::lemma_class_cap_bound(x.class as nat);
        }
        if n > bump - x.off {
            return (false, Ghost(m));
        }
        if i > 0 {
            let y: BlockRef = s[i - 1];
            if !same_block(&y, &x) && y.off + slab_bytes(y.class) > x.off {
                return (false, Ghost(m));
            }
        }
        proof {
            assert forall|a: int, b: int| 0 <= a < b < i + 1 implies clear_of(
                #[trigger] s@[a],
                #[trigger] s@[b],
            ) by {
                if b == i && a < i - 1 {
                    assert(clear_of(s@[a], s@[i - 1]));
                    assert(s@[i - 1].rank() <= s@[i as int].rank());
                }
            }
        }
        i += 1;
    }
    proof {
        lemma_mapped(refs@, s@, bump);
    }
    (true, Ghost(m))
}

/// The first block ends before the second, or they are one block.
spec fn clear_of(a: BlockRef, b: BlockRef) -> bool {
    ||| a.off == b.off && block_of(a) == block_of(b)
    ||| a.off + class_bytes(a.class as nat) <= b.off
}

/// Blocks in order that are clear of each other make a map.
proof fn lemma_mapped(refs: Seq<BlockRef>, s: Seq<BlockRef>, bump: u64)
    requires
        s.to_multiset() == refs.to_multiset(),
        forall|a: int|
            0 <= a < s.len() ==> 4096 <= (#[trigger] s[a]).off && s[a].class <= 24 && s[a].off
                + class_bytes(s[a].class as nat) <= bump,
        forall|a: int, b: int| 0 <= a < b < s.len() ==> clear_of(#[trigger] s[a], #[trigger] s[b]),
    ensures
        blocks_inside(block_map(s), bump as int),
        blocks_apart(block_map(s)),
        forall|o: int, b: Block| #[trigger]
            has_ref(refs, o, b) ==> block_map(s).dom().contains(o) && block_map(s)[o] == b,
{
    let m = block_map(s);
    assert forall|a: int, b: int|
        0 <= a < s.len() && 0 <= b < s.len() && (#[trigger] s[a]).off == (
        #[trigger] s[b]).off implies block_of(s[a]) == block_of(s[b]) by {
        crate::scripthash_layout::lemma_class_cap_bound(s[a].class as nat);
        crate::scripthash_layout::lemma_class_cap_bound(s[b].class as nat);
        if a < b {
            assert(clear_of(s[a], s[b]));
        }
        if b < a {
            assert(clear_of(s[b], s[a]));
        }
    }
    assert forall|j: int| 0 <= j < s.len() implies m.dom().contains((#[trigger] s[j]).off as int)
        && m[s[j].off as int] == block_of(s[j]) by {
        let o = s[j].off as int;
        assert(m.dom().contains(o));
        let c = choose|c: int| 0 <= c < s.len() && (#[trigger] s[c]).off == o;
        assert(block_of(s[c]) == block_of(s[j]));
    }
    assert forall|o: int| #[trigger] m.dom().contains(o) implies 4096 <= o && m[o].class <= 24 && o
        + class_bytes(m[o].class) <= bump by {
        let c = choose|c: int| 0 <= c < s.len() && (#[trigger] s[c]).off == o;
        assert(m[s[c].off as int] == block_of(s[c]));
    }
    assert forall|a: int, b: int|
        #![trigger m.dom().contains(a), m.dom().contains(b)]
        m.dom().contains(a) && m.dom().contains(b) && a < b implies a + class_bytes(m[a].class)
        <= b by {
        let x = choose|c: int| 0 <= c < s.len() && (#[trigger] s[c]).off == a;
        let y = choose|c: int| 0 <= c < s.len() && (#[trigger] s[c]).off == b;
        assert(m[s[x].off as int] == block_of(s[x]));
        crate::scripthash_layout::lemma_class_cap_bound(s[y].class as nat);
        if x < y {
            assert(clear_of(s[x], s[y]));
        } else {
            assert(clear_of(s[y], s[x]));
        }
    }
    assert forall|o: int, b: Block| #[trigger] has_ref(refs, o, b) implies m.dom().contains(o)
        && m[o] == b by {
        let j = choose|j: int|
            0 <= j < refs.len() && (#[trigger] refs[j]).off == o && block_of(refs[j]) == b;
        let c = lemma_same_items(refs, s, j);
        assert(s[c].off == o);
    }
}

/// The body with other blocks and lists.
pub open spec fn with_heap(
    b: &ShBody,
    blocks: Ghost<Map<int, Block>>,
    lists: Ghost<Seq<Seq<int>>>,
) -> ShBody {
    ShBody {
        bytes: b.bytes,
        live_count: b.live_count,
        bump: b.bump,
        free_head: b.free_head,
        blocks,
        lists,
    }
}

/// Every record names creates in the body.
pub open spec fn recs_sound_in(b: &ShBody, recs: Seq<Slot>) -> bool {
    forall|i: int|
        0 <= i < recs.len() ==> unpack8((#[trigger] recs[i]).word) is Ok && sound_at(
            b,
            unpack8(recs[i].word)->Ok_0,
            recs[i].key@,
        )
}

/// With these blocks and lists the body is in order, and every record leads to creates of its
/// key.
pub open spec fn heap_fits(
    b: &ShBody,
    recs: Seq<Slot>,
    blocks: Ghost<Map<int, Block>>,
    lists: Ghost<Seq<Seq<int>>>,
) -> bool {
    with_heap(b, blocks, lists).heap_ok() && recs_sound_in(&with_heap(b, blocks, lists), recs)
}

/// Some blocks and lists fit.
pub open spec fn has_heap(b: &ShBody, recs: Seq<Slot>) -> bool {
    exists|blocks: Ghost<Map<int, Block>>, lists: Ghost<Seq<Seq<int>>>| #[trigger]
        heap_fits(b, recs, blocks, lists)
}

impl ShBody {
    /// Finds the blocks of the body again from the records that lead into it and from its free
    /// lists. True if the records can be read and no two blocks overlap.
    #[verifier::rlimit(40)]
    pub(crate) fn find_blocks(&self, recs: &Vec<Slot>) -> (r: (
        bool,
        Ghost<Map<int, Block>>,
        Ghost<Seq<Seq<int>>>,
    ))
        ensures
            r.0 ==> heap_fits(self, recs@, r.1, r.2),
            r.0 <==> has_heap(self, recs@),
    {
        let ghost g = {
            let (x, y) = choose|x: Ghost<Map<int, Block>>, y: Ghost<Seq<Seq<int>>>| #[trigger]
                heap_fits(self, recs@, x, y);
            with_heap(self, x, y)
        };
        let ghost good = has_heap(self, recs@);
        let ghost mut lists: Seq<Seq<int>> = Seq::empty();
        let ghost none = Map::<int, Block>::empty();
        if self.bump < 4096 || self.bump > SH_BODY_MAX || self.bump > self.bytes.len() as u64
            || self.free_head.len() != 25 {
            return (false, Ghost(none), Ghost(lists));
        }
        let mut refs: Vec<BlockRef> = Vec::new();
        let mut i: usize = 0;
        while i < recs.len()
            invariant
                i <= recs@.len(),
                g.bytes@ == self.bytes@,
                good == has_heap(self, recs@),
                good ==> g.heap_ok() && recs_sound_in(&g, recs@) && refs_in(refs@, g.blocks@),
                forall|j: int|
                    0 <= j < i ==> rec_named(self.bytes@, refs@, #[trigger] recs@[j]),
            decreases recs@.len() - i,
        {
            let ghost before = refs@;
            proof {
                if good {
                    assert(sound_at(
                        &g,
                        unpack8(recs@[i as int].word)->Ok_0,
                        recs@[i as int].key@,
                    ));
                }
            }
            if !self.name_record(&recs[i], &mut refs, Ghost(g)) {
                return (false, Ghost(none), Ghost(lists));
            }
            proof {
                assert forall|j: int| 0 <= j < i + 1 implies rec_named(
                    self.bytes@,
                    refs@,
                    #[trigger] recs@[j],
                ) by {
                    if j < i {
                        lemma_named_kept(self.bytes@, before, refs@, recs@[j]);
                    }
                }
            }
            i += 1;
        }
        let mut c: u8 = 0;
        while c < 25
            invariant
                c <= 25,
                self.free_head@.len() == 25,
                g.bytes@ == self.bytes@,
                g.free_head@ == self.free_head@,
                good == has_heap(self, recs@),
                good ==> g.heap_ok() && refs_in(refs@, g.blocks@),
                lists.len() == c,
                forall|j: int|
                    0 <= j < recs@.len() ==> rec_named(self.bytes@, refs@, #[trigger] recs@[j]),
                forall|j: int|
                    0 <= j < c ==> list_named(
                        self.bytes@,
                        refs@,
                        #[trigger] lists[j],
                        j as nat,
                        self.free_head@[j],
                    ),
            decreases 25 - c,
        {
            let ghost (before, l0) = (refs@, lists);
            let (ok, Ghost(list)) = self.name_free(c, &mut refs, Ghost(g));
            if !ok {
                return (false, Ghost(none), Ghost(lists));
            }
            proof {
                lists = lists.push(list);
                assert forall|j: int| 0 <= j < recs@.len() implies rec_named(
                    self.bytes@,
                    refs@,
                    #[trigger] recs@[j],
                ) by {
                    lemma_named_kept(self.bytes@, before, refs@, recs@[j]);
                }
                assert forall|j: int| 0 <= j < c + 1 implies list_named(
                    self.bytes@,
                    refs@,
                    #[trigger] lists[j],
                    j as nat,
                    self.free_head@[j],
                ) by {
                    if j < c {
                        assert(lists[j] == l0[j]);
                        lemma_list_kept(
                            self.bytes@,
                            before,
                            refs@,
                            l0[j],
                            j as nat,
                            self.free_head@[j],
                        );
                    }
                }
            }
            c += 1;
        }
        let (ok, Ghost(m)) = map_blocks(&refs, self.bump, Ghost(g.blocks@));
        proof {
            if ok {
                let b = with_heap(self, Ghost(m), Ghost(lists));
                lemma_found(&b, refs@, recs@);
                assert(heap_fits(self, recs@, Ghost(m), Ghost(lists)));
            }
        }
        (ok, Ghost(m), Ghost(lists))
    }
}

/// What was named makes the heap.
proof fn lemma_found(b: &ShBody, refs: Seq<BlockRef>, recs: Seq<Slot>)
    requires
        4096 <= b.bump <= SH_BODY_MAX,
        b.bump <= b.bytes@.len(),
        b.free_head@.len() == 25,
        b.lists@.len() == 25,
        blocks_inside(b.blocks@, b.bump as int),
        blocks_apart(b.blocks@),
        forall|o: int, x: Block| #[trigger]
            has_ref(refs, o, x) ==> b.blocks@.dom().contains(o) && b.blocks@[o] == x,
        forall|j: int|
            0 <= j < recs.len() ==> rec_named(b.bytes@, refs, #[trigger] recs[j]),
        forall|j: int|
            0 <= j < 25 ==> list_named(
                b.bytes@,
                refs,
                #[trigger] b.lists@[j],
                j as nat,
                b.free_head@[j],
            ),
    ensures
        b.heap_ok(),
        recs_sound_in(b, recs),
{
    assert forall|c: int| 0 <= c < 25 implies list_ok(
        b.bytes@,
        b.blocks@,
        #[trigger] b.lists@[c],
        c as nat,
        b.free_head@[c],
    ) by {
        let l = b.lists@[c];
        assert(list_named(b.bytes@, refs, l, c as nat, b.free_head@[c]));
        assert forall|i: int, j: int| 0 <= i < j < l.len() implies (#[trigger] l[i]) != (
        #[trigger] l[j]) by {
            lemma_list_once(b.bytes@, l, i, j);
        }
        assert forall|i: int| 0 <= i < l.len() implies b.blocks@.dom().contains(#[trigger] l[i])
            && b.blocks@[l[i]].class == c && b.blocks@[l[i]].owner is None by {
            assert(has_ref(refs, l[i], Block { class: c as nat, owner: None }));
        }
    }
    assert forall|j: int| 0 <= j < recs.len() implies unpack8((#[trigger] recs[j]).word) is Ok
        && sound_at(b, unpack8(recs[j].word)->Ok_0, recs[j].key@) by {
        assert(rec_named(b.bytes@, refs, recs[j]));
        let v = unpack8(recs[j].word)->Ok_0;
        let k = recs[j].key@;
        let (pages, fks) = choose|pages: Seq<int>, fks: Seq<Fk>| #[trigger]
            value_at(b.bytes@, refs, v, k, pages, fks);
        reveal(holds_value);
        match v {
            ShHeadValue::Slab { class, used, off } => {
                assert(has_ref(
                    refs,
                    off as int,
                    Block { class: class as nat, owner: Some(k) },
                ));
            },
            ShHeadValue::Extent { last_page } => {
                assert forall|i: int| 0 <= i < pages.len() implies owned(
                    b,
                    #[trigger] pages[i],
                    7,
                    k,
                ) by {
                    assert(has_ref(refs, pages[i], Block { class: 7, owner: Some(k) }));
                }
            },
            _ => {},
        }
        assert(holds_value(b, v, k, pages, fks));
    }
}

} // verus!
