//! Laws on what is read: lists of spenders, chains of pages, blocks of tweaks.

use vstd::prelude::*;
use crate::bytes::{u16_at, u32_at, u64_at};
use crate::error::StoreError;
use crate::point_table::{spenders_of, walk, SpenderMeta};
use crate::primitives::{Fk, Height};
use crate::scripthash_body::{chain_read, goes_on, last_of, page_at, span_read, value_fks, walk as body_walk};
use crate::scripthash_layout::{class_bytes, ShHeadValue};
use crate::scripthash_pages::{flagged, page_extent, page_fks, page_next, page_stream};
use crate::scripthash_slabs::{fk_unstream, stream_fault, stream_fault_from};
use crate::scripthash_values::{chain_fks, chain_sound, law_chain_walk};
use crate::sp_tweaks::{records_value, SpTweaksTable};
use crate::spender_table::SpenderNode;

verus! {

/// `ids` are the nodes of a list from `cur` on, each naming the next; `end` is what the last
/// one names: no node of the table.
pub open spec fn is_node_list(
    nodes: Seq<SpenderNode>,
    cur: u64,
    ids: Seq<int>,
    end: u64,
) -> bool {
    &&& forall|j: int| 0 <= j < ids.len() ==> 1 <= #[trigger] ids[j] <= nodes.len()
    &&& forall|j: int|
        0 <= j < ids.len() - 1 ==> nodes[#[trigger] ids[j] - 1].next.0 == ids[j + 1]
    &&& if ids.len() == 0 {
        cur == end
    } else {
        ids[0] == cur && nodes[ids.last() - 1].next.0 == end
    }
    &&& end == 0 || end > nodes.len()
}

proof fn lemma_nodes_same(
    nodes: Seq<SpenderNode>,
    cur: u64,
    ids: Seq<int>,
    end: u64,
    a: int,
    b: int,
    t: int,
)
    requires
        is_node_list(nodes, cur, ids, end),
        0 <= a <= b,
        0 <= t,
        b + t < ids.len(),
        ids[a] == ids[b],
    ensures
        ids[a + t] == ids[b + t],
    decreases t,
{
    if t > 0 {
        lemma_nodes_same(nodes, cur, ids, end, a, b, t - 1);
        assert(nodes[ids[a + (t - 1)] - 1].next.0 == ids[a + t]);
        assert(nodes[ids[b + (t - 1)] - 1].next.0 == ids[b + t]);
    }
}

proof fn lemma_nodes_short(nodes: Seq<SpenderNode>, cur: u64, ids: Seq<int>, end: u64)
    requires
        is_node_list(nodes, cur, ids, end),
    ensures
        ids.len() <= nodes.len(),
{
    let n = ids.len() as int;
    assert(ids.no_duplicates()) by {
        assert forall|a: int, b: int| 0 <= a < n && 0 <= b < n && a != b implies ids[a]
            != ids[b] by {
            let lo = if a < b {
                a
            } else {
                b
            };
            let hi = if a < b {
                b
            } else {
                a
            };
            if ids[a] == ids[b] {
                let t = n - 1 - hi;
                lemma_nodes_same(nodes, cur, ids, end, lo, hi, t);
                assert(nodes[ids[lo + t] - 1].next.0 == ids[lo + t + 1]);
                assert(ids.last() == ids[lo + t]);
            }
        }
    }
    let all = vstd::set_lib::set_int_range(1, nodes.len() as int + 1);
    vstd::set_lib::lemma_int_range(1, nodes.len() as int + 1);
    ids.unique_seq_to_set();
    assert(ids.to_set().subset_of(all)) by {
        assert forall|x: int| ids.to_set().contains(x) implies all.contains(x) by {
            let j = choose|j: int| 0 <= j < ids.len() && ids[j] == x;
            assert(1 <= ids[j] <= nodes.len());
        }
    }
    vstd::set_lib::lemma_len_subset(ids.to_set(), all);
}

proof fn lemma_walk_list(
    nodes: Seq<SpenderNode>,
    cur: u64,
    ids: Seq<int>,
    end: u64,
    fuel: nat,
)
    requires
        is_node_list(nodes, cur, ids, end),
        ids.len() <= fuel,
    ensures
        walk(nodes, cur, fuel).0 == ids.map_values(|i: int| nodes[i - 1].spending_tx_fk),
        walk(nodes, cur, fuel).1 == (if end == 0 {
            Ok::<(), StoreError>(())
        } else {
            Err(StoreError::NotFound)
        }),
    decreases ids.len(),
{
    let f = |i: int| nodes[i - 1].spending_tx_fk;
    if ids.len() == 0 {
        assert(walk(nodes, cur, fuel).0 =~= ids.map_values(f));
    } else {
        let t = ids.subrange(1, ids.len() as int);
        let next = nodes[cur - 1].next.0;
        assert(ids[0] == cur);
        assert forall|j: int| 0 <= j < t.len() implies 1 <= #[trigger] t[j] <= nodes.len() by {
            assert(t[j] == ids[j + 1]);
        }
        assert forall|j: int| 0 <= j < t.len() - 1 implies nodes[#[trigger] t[j] - 1].next.0 == t[j
            + 1] by {
            assert(t[j] == ids[j + 1] && t[j + 1] == ids[j + 2]);
        }
        if t.len() > 0 {
            assert(t.last() == ids.last());
            assert(nodes[ids[0] - 1].next.0 == ids[1]);
        } else {
            assert(ids.last() == ids[0]);
        }
        lemma_walk_list(nodes, next, t, end, (fuel - 1) as nat);
        assert(walk(nodes, cur, fuel).0 =~= ids.map_values(f));
    }
}

/// The spenders of an output with a list are those of the nodes that its list links, in their
/// order. A list that ends is whole; one that leads out of the table is reported.
pub proof fn law_spenders_follow_links(
    nodes: Seq<SpenderNode>,
    m: SpenderMeta,
    ids: Seq<int>,
    end: u64,
)
    requires
        m.multi,
        m.field.0 != 0,
        is_node_list(nodes, m.field.0, ids, end),
    ensures
        spenders_of(m, nodes).0 == ids.map_values(|i: int| nodes[i - 1].spending_tx_fk),
        spenders_of(m, nodes).1 == (if end == 0 {
            Ok::<(), StoreError>(())
        } else {
            Err(StoreError::NotFound)
        }),
{
    lemma_nodes_short(nodes, m.field.0, ids, end);
    lemma_walk_list(nodes, m.field.0, ids, end, nodes.len());
}

/// An output without a list has the spender that it names, and none if it names none.
pub proof fn law_single_spender(nodes: Seq<SpenderNode>, field: Fk)
    ensures
        spenders_of(SpenderMeta { multi: false, field }, nodes).1 is Ok,
        spenders_of(SpenderMeta { multi: false, field }, nodes).0 == (if field.0 == 0 {
            Seq::empty()
        } else {
            seq![field]
        }),
{
}

/// The creates of a chain are those of its pages, one page behind the other.
pub proof fn law_chain_pages(bytes: Seq<u8>, a: Seq<int>, b: Seq<int>, p: int)
    ensures
        chain_fks(bytes, a + b) == chain_fks(bytes, a) + chain_fks(bytes, b),
        chain_fks(bytes, seq![p]) == page_fks(page_at(bytes, p))->Ok_0,
        chain_fks(bytes, Seq::empty()) == Seq::<Fk>::empty(),
    decreases b.len(),
{
    reveal_with_fuel(chain_fks, 2);
    assert(seq![p].drop_last() =~= Seq::empty());
    assert(seq![p].last() == p);
    assert(chain_fks(bytes, seq![p]) =~= page_fks(page_at(bytes, p))->Ok_0);
    if b.len() == 0 {
        assert(a + b =~= a);
        assert(chain_fks(bytes, a) + chain_fks(bytes, b) =~= chain_fks(bytes, a));
    } else {
        law_chain_pages(bytes, a, b.drop_last(), p);
        assert((a + b).drop_last() =~= a + b.drop_last());
        assert(chain_fks(bytes, a + b) =~= chain_fks(bytes, a) + chain_fks(bytes, b));
    }
}

/// A chain of pages is read by the offsets that its pages hold in their first eight bytes: the
/// creates of all its pages come out, in the order of the chain.
pub proof fn law_chain_follows_links(bytes: Seq<u8>, pages: Seq<int>)
    requires
        chain_sound(bytes, pages),
        pages.len() <= u64::MAX,
    ensures
        chain_read(bytes, pages[0]) == Ok::<Seq<Fk>, StoreError>(chain_fks(bytes, pages)),
        forall|i: int|
            0 <= i < pages.len() - 1 ==> u64_at(bytes, #[trigger] pages[i]) == pages[i + 1],
        u64_at(bytes, pages.last()) == 0,
{
    law_chain_walk(bytes, pages);
    assert forall|i: int| 0 <= i < pages.len() implies u64_at(bytes, #[trigger] pages[i]) == (if i
        + 1 < pages.len() {
        pages[i + 1]
    } else {
        0
    }) by {
        assert(crate::scripthash_values::link_ok(bytes, pages, i));
        let p = page_at(bytes, pages[i]);
        assert(p.subrange(0, 8) =~= bytes.subrange(pages[i], pages[i] + 8));
    }
    assert(pages.last() == pages[pages.len() - 1]);
}

/// The creates rise, from above `prev` on, and are below 2^63.
pub open spec fn rises_from(fks: Seq<Fk>, prev: int) -> bool {
    &&& forall|i: int| 0 <= i < fks.len() ==> prev < (#[trigger] fks[i]).0 < 0x8000_0000_0000_0000
    &&& forall|i: int, j: int|
        0 <= i < j < fks.len() ==> (#[trigger] fks[i]).0 < (#[trigger] fks[j]).0
}

proof fn lemma_unstream_rises(buf: Seq<u8>, n: nat)
    ensures
        fk_unstream(buf, n) matches Ok((fks, _)) ==> rises_from(fks, 0) && fks.len() == n,
    decreases n,
{
    if n > 0 {
        lemma_unstream_rises(buf, (n - 1) as nat);
    }
}

proof fn lemma_join_rises(a: Seq<Fk>, b: Seq<Fk>, prev: int)
    requires
        rises_from(a, prev),
        rises_from(b, last_of(a, prev)),
    ensures
        rises_from(a + b, prev),
{
    let c = a + b;
    assert forall|i: int| 0 <= i < c.len() implies prev < (#[trigger] c[i]).0
        < 0x8000_0000_0000_0000 by {
        if i < a.len() {
            assert(c[i] == a[i]);
        } else {
            assert(c[i] == b[i - a.len()]);
            if a.len() > 0 {
                assert(a[a.len() - 1].0 > prev);
            }
        }
    }
    assert forall|i: int, j: int| 0 <= i < j < c.len() implies (#[trigger] c[i]).0 < (
    #[trigger] c[j]).0 by {
        if j < a.len() {
            assert(c[i] == a[i] && c[j] == a[j]);
        } else if i >= a.len() {
            assert(c[i] == b[i - a.len()] && c[j] == b[j - a.len()]);
        } else {
            assert(c[i] == a[i] && c[j] == b[j - a.len()]);
            if i < a.len() - 1 {
                assert(a[i].0 < a[a.len() - 1].0);
            }
        }
    }
}

proof fn lemma_page_rises(p: Seq<u8>, prev: int)
    requires
        page_fks(p) is Ok,
        goes_on(page_fks(p)->Ok_0, prev),
    ensures
        rises_from(page_fks(p)->Ok_0, prev),
{
    let fks = page_fks(p)->Ok_0;
    lemma_unstream_rises(page_stream(p), u16_at(p, 8) as nat);
    assert forall|i: int| 0 <= i < fks.len() implies prev < (#[trigger] fks[i]).0
        < 0x8000_0000_0000_0000 by {
        if i > 0 {
            assert(fks[0].0 < fks[i].0);
        }
    }
}

proof fn lemma_walk_rises(bytes: Seq<u8>, off: int, prev: int, fuel: nat)
    ensures
        body_walk(bytes, off, prev, fuel) matches Ok(fks) ==> rises_from(fks, prev),
    decreases fuel,
{
    if fuel > 0 && off + 4096 <= bytes.len() {
        let p = page_at(bytes, off);
        if page_next(p) is Ok && page_fks(p) is Ok && goes_on(page_fks(p)->Ok_0, prev) {
            let seg = page_fks(p)->Ok_0;
            let next = page_next(p)->Ok_0;
            lemma_page_rises(p, prev);
            if next != 0 {
                lemma_walk_rises(bytes, next as int, last_of(seg, prev), (fuel - 1) as nat);
                if body_walk(bytes, next as int, last_of(seg, prev), (fuel - 1) as nat) is Ok {
                    lemma_join_rises(
                        seg,
                        body_walk(
                            bytes,
                            next as int,
                            last_of(seg, prev),
                            (fuel - 1) as nat,
                        )->Ok_0,
                        prev,
                    );
                }
            }
        }
    }
}

proof fn lemma_span_rises(bytes: Seq<u8>, base: int, i: int, n: int, prev: int)
    ensures
        span_read(bytes, base, i, n, prev) matches Ok((fks, _)) ==> rises_from(fks, prev),
        span_read(bytes, base, i, n, prev) is Ok ==> forall|j: int|
            i <= j < n - 1 ==> u64_at(
                #[trigger] page_at(bytes, base + 4096 * j),
                0,
            ) == base + 4096 * (j + 1),
    decreases n - i,
{
    if i < n {
        let p = page_at(bytes, base + 4096 * i);
        if page_next(p) is Ok && page_fks(p) is Ok && goes_on(page_fks(p)->Ok_0, prev) {
            let seg = page_fks(p)->Ok_0;
            lemma_page_rises(p, prev);
            if i + 1 < n {
                lemma_span_rises(bytes, base, i + 1, n, last_of(seg, prev));
                let r = span_read(bytes, base, i + 1, n, last_of(seg, prev));
                if r is Ok {
                    lemma_join_rises(seg, (r->Ok_0).0, prev);
                }
            }
        }
    }
}

/// Whatever a body holds, what is read of a key is refused or strictly rising, and below 2^63;
/// of a slab as many creates are read as the head says; and the pages of an extent link each
/// to the next.
pub proof fn law_read_rises(bytes: Seq<u8>, v: ShHeadValue)
    requires
        !(v is Inline),
    ensures
        value_fks(bytes, v) matches Ok(fks) ==> {
            &&& rises_from(fks, -1)
            &&& v matches ShHeadValue::Slab { used, .. } ==> fks.len() == used
            &&& v matches ShHeadValue::Extent { last_page } ==> {
                let p = page_at(bytes, last_page as int);
                let (base, n) = (u64_at(p, 16) as int, u32_at(p, 24) as int);
                &&& p[10] == 2
                &&& 1 <= n
                &&& base + 4096 * n <= bytes.len()
                &&& forall|j: int|
                    0 <= j < n - 1 ==> u64_at(#[trigger] page_at(bytes, base + 4096 * j), 0) == base
                        + 4096 * (j + 1)
            }
        },
{
    match v {
        ShHeadValue::Slab { class, used, off } => {
            if class <= 6 && off + class_bytes(class as nat) <= bytes.len() {
                let b = bytes.subrange(off as int, off + class_bytes(class as nat));
                if b.len() >= 2 {
                    lemma_unstream_rises(b.subrange(2, b.len() as int), u16_at(b, 0) as nat);
                }
            }
        },
        ShHeadValue::Paged { first_page, .. } => {
            lemma_walk_rises(bytes, first_page as int, -1, u64::MAX as nat);
        },
        ShHeadValue::Extent { last_page } => {
            if value_fks(bytes, v) is Ok {
                let (base, n) = page_extent(page_at(bytes, last_page as int))->0;
                lemma_span_rises(bytes, base as int, 0, n as int, -1);
                let (fks, tail) = span_read(bytes, base as int, 0, n as int, -1)->Ok_0;
                lemma_walk_rises(bytes, tail as int, last_of(fks, -1), u64::MAX as nat);
                if last_page != base + 4096 * (n - 1) {
                    lemma_join_rises(
                        fks,
                        body_walk(
                            bytes,
                            tail as int,
                            last_of(fks, -1),
                            u64::MAX as nat,
                        )->Ok_0,
                        -1,
                    );
                }
            }
        },
        _ => {},
    }
}

/// The tweaks of a block are read from where its slot says to where the next one begins, or to
/// the end of the file; a height without a slot, or with a slot of another block, gives none.
pub proof fn law_block_read(t: SpTweaksTable, header: Seq<u8>, h: Height, fk: Fk, n_tx: u32)
    requires
        t.inv(),
        header.len() == 16,
    ensures
        ({
            let file = header + t.body@;
            let i = h.0 - t.origin;
            if i < 0 || i >= t.slots@.len() || t.slots@[i].block_fk != fk {
                t.block(h, fk, n_tx) == Ok::<Option<Seq<Option<Seq<u8>>>>, StoreError>(None)
            } else {
                let end = if i + 1 < t.slots@.len() {
                    t.slots@[i + 1].off as int
                } else {
                    file.len() as int
                };
                t.block(h, fk, n_tx) == (match records_value(
                    file.subrange(t.slots@[i].off as int, end),
                    n_tx as nat,
                ) {
                    Ok(v) => Ok::<Option<Seq<Option<Seq<u8>>>>, StoreError>(Some(v)),
                    Err(e) => Err(e),
                })
            }
        }),
{
    let file = header + t.body@;
    let i = h.0 - t.origin;
    if 0 <= i < t.slots@.len() && t.slots@[i].block_fk == fk {
        let lo = t.slots@[i].off as int;
        let end = if i + 1 < t.slots@.len() {
            t.slots@[i + 1].off as int
        } else {
            file.len() as int
        };
        assert(16 <= lo <= 16 + t.body@.len());
        if i + 1 < t.slots@.len() {
            assert(t.slots@[i].off <= t.slots@[i + 1].off);
        }
        assert(file.subrange(lo, end) =~= t.body@.subrange(lo - 16, end - 16));
    }
}

/// Create `j` is above the one before and has no flag bit.
pub open spec fn goes_up(fks: Seq<Fk>, j: int) -> bool {
    fks[j - 1].0 < fks[j].0 && fks[j].0 < 0x8000_0000_0000_0000
}

/// What is wrong with create `j`: it is not above the one before, or it has the flag bit.
pub open spec fn fault_at(fks: Seq<Fk>, j: int, e: StoreError) -> bool {
    ||| fks[j - 1].0 >= fks[j].0 && e == StoreError::Corrupt(
        "invariant: scripthash fk stream not strictly increasing",
    )
    ||| fks[j - 1].0 < fks[j].0 && fks[j].0 >= 0x8000_0000_0000_0000 && e == StoreError::Corrupt(
        "scripthash fk stream flag bit set",
    )
}

/// A list of creates that cannot be packed is refused for its first fault: a null first
/// create, a create that is not above the one before, or one with the flag bit.
pub proof fn law_stream_fault(fks: Seq<Fk>, i: int)
    requires
        1 <= i,
    ensures
        fks.len() > 0 && fks[0].0 == 0 ==> stream_fault(fks) == Some(
            StoreError::Corrupt("scripthash fk stream null first fk"),
        ),
        fks.len() > 0 && fks[0].0 >= 0x8000_0000_0000_0000 ==> stream_fault(fks) == Some(
            StoreError::Corrupt("scripthash fk stream flag bit set"),
        ),
        fks.len() > 0 && 0 < fks[0].0 < 0x8000_0000_0000_0000 ==> stream_fault(fks)
            == stream_fault_from(fks, 1),
        match stream_fault_from(fks, i) {
            None => forall|j: int| i <= j < fks.len() ==> #[trigger] goes_up(fks, j),
            Some(e) => exists|j: int|
                i <= j < fks.len() && #[trigger] fault_at(fks, j, e) && forall|m: int|
                    i <= m < j ==> #[trigger] goes_up(fks, m),
        },
    decreases fks.len() - i,
{
    if i < fks.len() {
        if fks[i - 1].0 < fks[i].0 && !flagged(fks[i].0) {
            law_stream_fault(fks, i + 1);
            assert(goes_up(fks, i));
            match stream_fault_from(fks, i + 1) {
                None => {},
                Some(e) => {
                    let j = choose|j: int|
                        i + 1 <= j < fks.len() && #[trigger] fault_at(fks, j, e) && forall|m: int|
                            i + 1 <= m < j ==> #[trigger] goes_up(fks, m);
                    assert forall|m: int| i <= m < j implies #[trigger] goes_up(fks, m) by {}
                },
            }
        } else {
            assert(fault_at(fks, i, stream_fault_from(fks, i)->0));
        }
    }
}

} // verus!
