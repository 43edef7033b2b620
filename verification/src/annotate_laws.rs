//! Laws on annotations: what the bytes that are written say of an output's spenders.

use vstd::prelude::*;
use crate::bytes::{le64, lemma_le_nat_of_seq, lemma_p256_values, u64_at};
use crate::point_table::{law_spend_keeps_others, law_spend_prepends, meta_after, nodes_after, spenders_of, SpenderMeta};
use crate::primitives::Fk;
use crate::spend_annotate_uring::{annotation, batch_plan, is_order, meta_of, null_spender, AbsEdge, ColdEdge};
use crate::spender_table::{linked, SpenderNode};

verus! {

/// What a number and flags say: the lowest flag marks a list.
pub open spec fn said(field: Fk, flags: u8) -> SpenderMeta {
    SpenderMeta { multi: flags % 2 == 1, field }
}

/// What nine bytes say: eight bytes of a number and one of flags.
pub open spec fn said_by(b: Seq<u8>) -> SpenderMeta {
    said(Fk(u64_at(b, 0)), b[8])
}

/// A list that the annotation names begins in the table.
pub open spec fn within(field: Fk, flags: u8, nodes: Seq<SpenderNode>) -> bool {
    flags % 2 == 1 ==> field.0 <= nodes.len()
}

/// The bytes annotate an output with one more spender: they are nine, name the spender in
/// front of those that the output had, keep the other flags, and mark a list exactly where the
/// output had a spender or a list before.
pub open spec fn annotates(
    b: Seq<u8>,
    field: Fk,
    flags: u8,
    spend: Fk,
    nodes: Seq<SpenderNode>,
    after: Seq<SpenderNode>,
) -> bool {
    &&& b.len() == 9
    &&& spenders_of(said_by(b), after).1 is Ok
    &&& spenders_of(said_by(b), after).0 == seq![spend] + spenders_of(said(field, flags), nodes).0
    &&& b[8] / 2 == flags / 2
    &&& b[8] % 2 == 1 <==> field.0 != 0 || flags % 2 == 1
    &&& b[8] % 2 == 0 ==> u64_at(b, 0) == spend.0
    &&& within(Fk(u64_at(b, 0)), b[8], after)
}

/// One annotation: nothing is written exactly where the output has this sole spender already,
/// and else the spender comes in front. The nodes that were there stay.
pub proof fn law_annotation(field: Fk, flags: u8, spend: Fk, nodes: Seq<SpenderNode>)
    requires
        linked(nodes),
        nodes.len() + 2 <= u64::MAX,
        spend.0 != 0,
        within(field, flags, nodes),
    ensures
        ({
            let after = nodes_after(meta_of(field, flags), spend, nodes);
            &&& linked(after)
            &&& nodes.len() <= after.len() <= nodes.len() + 2
            &&& after.subrange(0, nodes.len() as int) == nodes
            &&& match annotation(field, flags, spend, nodes) {
                None => flags % 2 == 0 && field == spend && after == nodes,
                Some(b) => !(flags % 2 == 0 && field == spend) && annotates(
                    b,
                    field,
                    flags,
                    spend,
                    nodes,
                    after,
                ),
            }
        }),
{
    let m = meta_of(field, flags);
    assert((flags & 1 != 0) <==> flags % 2 == 1) by (bit_vector);
    assert(m == said(field, flags));
    law_spend_prepends(m, spend, nodes);
    let after = nodes_after(m, spend, nodes);
    assert(after.subrange(0, nodes.len() as int) =~= nodes);
    let m2 = meta_after(m, spend, nodes);
    if let Some(b) = annotation(field, flags, spend, nodes) {
        let f2: u8 = b[8];
        lemma_p256_values();
        lemma_le_nat_of_seq(m2.field.0 as nat, 8);
        assert(b.subrange(0, 8) =~= le64(m2.field.0));
        assert(f2 == crate::spend_annotate_uring::flags_with(flags, m2.multi));
        assert((flags | 1) % 2 == 1 && (flags & 0xfe) % 2 == 0 && (flags | 1) / 2 == flags / 2 && (
        flags & 0xfe) / 2 == flags / 2) by (bit_vector);
        assert(said_by(b) == m2);
    }
}

/// The writes of a batch, `src` being the numbers of their edges: each annotates its edge's own
/// output from what that output is known to hold, and they come by place.
pub open spec fn writes_of(
    edges: Seq<AbsEdge>,
    known: Seq<(Fk, u8)>,
    body_pub: u64,
    nodes: Seq<SpenderNode>,
    after: Seq<SpenderNode>,
    writes: Seq<(AbsEdge, Seq<u8>)>,
    src: Seq<int>,
) -> bool {
    &&& src.len() == writes.len()
    &&& forall|j: int| 0 <= j < src.len() ==> 0 <= #[trigger] src[j] < edges.len()
    &&& forall|j: int|
        0 <= j < writes.len() ==> {
            let i = src[j];
            let w = #[trigger] writes[j];
            &&& w.0 == edges[i]
            &&& edges[i].0 + 9 <= body_pub
            &&& !(known[i].1 % 2 == 0 && known[i].0 == edges[i].3)
            &&& annotates(w.1, known[i].0, known[i].1, edges[i].3, nodes, after)
        }
    &&& forall|i: int|
        0 <= i < edges.len() && (#[trigger] edges[i]).0 + 9 <= body_pub && !(known[i].1 % 2 == 0
            && known[i].0 == edges[i].3) ==> src.contains(i)
    &&& by_place(edges, src)
}

/// The edges of a batch that lie outside the body, `src` being their numbers.
pub open spec fn cold_edges_of(
    edges: Seq<AbsEdge>,
    body_pub: u64,
    cold: Seq<ColdEdge>,
    src: Seq<int>,
) -> bool {
    &&& src.len() == cold.len()
    &&& forall|j: int| 0 <= j < src.len() ==> 0 <= #[trigger] src[j] < edges.len()
    &&& forall|j: int|
        0 <= j < cold.len() ==> #[trigger] cold[j] == (
            edges[src[j]].1,
            edges[src[j]].2,
            edges[src[j]].3,
        ) && edges[src[j]].0 + 9 > body_pub
    &&& forall|i: int|
        0 <= i < edges.len() && (#[trigger] edges[i]).0 + 9 > body_pub ==> src.contains(i)
    &&& by_place(edges, src)
}

/// Numbers of edges in the order of their places, those of one place in the order given; no
/// number comes twice.
pub open spec fn by_place(edges: Seq<AbsEdge>, src: Seq<int>) -> bool {
    forall|a: int, b: int|
        0 <= a < b < src.len() ==> edges[#[trigger] src[a]].0 < edges[#[trigger] src[b]].0 || (
        edges[src[a]].0 == edges[src[b]].0 && src[a] < src[b])
}

/// The lists that are known begin in the table.
pub open spec fn all_within(known: Seq<(Fk, u8)>, nodes: Seq<SpenderNode>) -> bool {
    forall|i: int| 0 <= i < known.len() ==> within((#[trigger] known[i]).0, known[i].1, nodes)
}

/// What holds after the first `k` edges in order. `wi` and `ci` are the places in the order.
spec fn plan_ok(
    edges: Seq<AbsEdge>,
    known: Seq<(Fk, u8)>,
    order: Seq<usize>,
    k: int,
    body_pub: u64,
    nodes: Seq<SpenderNode>,
    wi: Seq<int>,
    ci: Seq<int>,
) -> bool {
    let p = batch_plan(edges, known, order, k, body_pub, nodes);
    &&& linked(p.nodes)
    &&& nodes.len() <= p.nodes.len() <= nodes.len() + 2 * k
    &&& p.nodes.subrange(0, nodes.len() as int) == nodes
    &&& forall|i: int|
        0 <= i < known.len() ==> spenders_of(
            said((#[trigger] known[i]).0, known[i].1),
            p.nodes,
        ) == spenders_of(said(known[i].0, known[i].1), nodes)
    &&& rising(wi, k)
    &&& rising(ci, k)
    &&& wi.len() == p.writes.len()
    &&& ci.len() == p.cold.len()
    &&& forall|j: int|
        0 <= j < wi.len() ==> {
            let i = order[#[trigger] wi[j]] as int;
            &&& p.writes[j].0 == edges[i]
            &&& edges[i].0 + 9 <= body_pub
            &&& !(known[i].1 % 2 == 0 && known[i].0 == edges[i].3)
            &&& annotates(p.writes[j].1, known[i].0, known[i].1, edges[i].3, nodes, p.nodes)
        }
    &&& forall|j: int|
        0 <= j < ci.len() ==> {
            let e = edges[order[#[trigger] ci[j]] as int];
            p.cold[j] == (e.1, e.2, e.3) && e.0 + 9 > body_pub
        }
    &&& forall|m: int|
        0 <= m < k ==> {
            let i = #[trigger] order[m] as int;
            if edges[i].0 + 9 > body_pub {
                ci.contains(m)
            } else {
                (known[i].1 % 2 == 0 && known[i].0 == edges[i].3) || wi.contains(m)
            }
        }
}

spec fn rising(s: Seq<int>, k: int) -> bool {
    &&& forall|j: int| 0 <= j < s.len() ==> 0 <= #[trigger] s[j] < k
    &&& forall|a: int, b: int| 0 <= a < b < s.len() ==> #[trigger] s[a] < #[trigger] s[b]
}

proof fn lemma_rising_push(s: Seq<int>, k: int)
    requires
        rising(s, k),
        k >= 0,
    ensures
        rising(s, k + 1),
        rising(s.push(k), k + 1),
        s.push(k).contains(k),
        forall|m: int| #[trigger] s.contains(m) ==> s.push(k).contains(m),
{
    let t = s.push(k);
    assert(t[s.len() as int] == k);
    assert forall|m: int| #[trigger] s.contains(m) implies t.contains(m) by {
        let j = choose|j: int| 0 <= j < s.len() && s[j] == m;
        assert(t[j] == m);
    }
    assert forall|a: int, b: int| 0 <= a < b < t.len() implies #[trigger] t[a] < #[trigger] t[b] by {
        assert(t[a] == s[a]);
        if b < s.len() {
            assert(t[b] == s[b]);
        }
    }
    assert forall|j: int| 0 <= j < t.len() implies 0 <= #[trigger] t[j] < k + 1 by {
        if j < s.len() {
            assert(t[j] == s[j]);
        }
    }
}

proof fn lemma_plan(
    edges: Seq<AbsEdge>,
    known: Seq<(Fk, u8)>,
    order: Seq<usize>,
    k: int,
    body_pub: u64,
    nodes: Seq<SpenderNode>,
) -> (r: (Seq<int>, Seq<int>))
    requires
        0 <= k <= order.len(),
        is_order(edges, order),
        known.len() == edges.len(),
        !null_spender(edges),
        linked(nodes),
        all_within(known, nodes),
        nodes.len() + 2 * edges.len() + 2 <= u64::MAX,
    ensures
        plan_ok(edges, known, order, k, body_pub, nodes, r.0, r.1),
    decreases k,
{
    let p1 = batch_plan(edges, known, order, k, body_pub, nodes);
    if k == 0 {
        assert(nodes.subrange(0, nodes.len() as int) =~= nodes);
        (Seq::empty(), Seq::empty())
    } else {
        let (wi, ci) = lemma_plan(edges, known, order, k - 1, body_pub, nodes);
        let p = batch_plan(edges, known, order, k - 1, body_pub, nodes);
        let i = order[k - 1] as int;
        let e = edges[i];
        assert(e.3.0 != 0);
        lemma_rising_push(wi, k - 1);
        lemma_rising_push(ci, k - 1);
        if e.0 + 9 > body_pub {
            let c2 = ci.push(k - 1);
            assert forall|j: int| 0 <= j < c2.len() implies {
                let e = edges[order[#[trigger] c2[j]] as int];
                p1.cold[j] == (e.1, e.2, e.3) && e.0 + 9 > body_pub
            } by {
                if j < ci.len() {
                    assert(c2[j] == ci[j]);
                }
            }
            assert forall|m: int| 0 <= m < k implies {
                let i = #[trigger] order[m] as int;
                if edges[i].0 + 9 > body_pub {
                    c2.contains(m)
                } else {
                    (known[i].1 % 2 == 0 && known[i].0 == edges[i].3) || wi.contains(m)
                }
            } by {
                if m < k - 1 && edges[order[m] as int].0 + 9 > body_pub {
                    assert(ci.contains(m));
                }
            }
            (wi, c2)
        } else {
            let (field, flags) = known[i];
            assert(within(field, flags, nodes));
            law_annotation(field, flags, e.3, p.nodes);
            let after = nodes_after(meta_of(field, flags), e.3, p.nodes);
            assert(after == p1.nodes);
            assert(after.subrange(0, nodes.len() as int) =~= nodes) by {
                assert forall|q: int| 0 <= q < nodes.len() implies after[q] == nodes[q] by {
                    assert(after.subrange(0, p.nodes.len() as int)[q] == after[q]);
                    assert(p.nodes.subrange(0, nodes.len() as int)[q] == p.nodes[q]);
                }
            }
            assert forall|q: int| 0 <= q < known.len() implies spenders_of(
                said((#[trigger] known[q]).0, known[q].1),
                after,
            ) == spenders_of(said(known[q].0, known[q].1), nodes) by {
                assert(within(known[q].0, known[q].1, nodes));
                law_spend_keeps_others(
                    meta_of(field, flags),
                    e.3,
                    p.nodes,
                    said(known[q].0, known[q].1),
                );
            }
            let w2 = if annotation(field, flags, e.3, p.nodes) is Some {
                wi.push(k - 1)
            } else {
                wi
            };
            assert forall|j: int| 0 <= j < w2.len() implies {
                let i = order[#[trigger] w2[j]] as int;
                &&& p1.writes[j].0 == edges[i]
                &&& edges[i].0 + 9 <= body_pub
                &&& !(known[i].1 % 2 == 0 && known[i].0 == edges[i].3)
                &&& annotates(p1.writes[j].1, known[i].0, known[i].1, edges[i].3, nodes, after)
            } by {
                if j < wi.len() {
                    assert(w2[j] == wi[j]);
                    let b = p.writes[j].1;
                    assert(p1.writes[j] == p.writes[j]);
                    law_spend_keeps_others(meta_of(field, flags), e.3, p.nodes, said_by(b));
                } else {
                    assert(w2[j] == k - 1);
                    assert(spenders_of(said(known[i].0, known[i].1), p.nodes) == spenders_of(
                        said(known[i].0, known[i].1),
                        nodes,
                    ));
                }
            }
            assert forall|m: int| 0 <= m < k implies {
                let i = #[trigger] order[m] as int;
                if edges[i].0 + 9 > body_pub {
                    ci.contains(m)
                } else {
                    (known[i].1 % 2 == 0 && known[i].0 == edges[i].3) || w2.contains(m)
                }
            } by {
                if m < k - 1 {
                    let i2 = order[m] as int;
                    if edges[i2].0 + 9 <= body_pub && !(known[i2].1 % 2 == 0 && known[i2].0
                        == edges[i2].3) {
                        assert(wi.contains(m));
                    }
                }
            }
            (w2, ci)
        }
    }
}

/// An order holds every number of an edge.
proof fn lemma_order_all(edges: Seq<AbsEdge>, order: Seq<usize>, i: int) -> (k: int)
    requires
        is_order(edges, order),
        0 <= i < edges.len(),
    ensures
        0 <= k < order.len(),
        order[k] == i,
{
    let n = edges.len() as int;
    let ints = order.map_values(|x: usize| x as int);
    assert(ints.no_duplicates()) by {
        assert forall|a: int, b: int|
            0 <= a < ints.len() && 0 <= b < ints.len() && a != b implies ints[a] != ints[b] by {
            if a < b {
                assert(edges[order[a] as int].0 < edges[order[b] as int].0 || order[a] < order[b]);
            } else {
                assert(edges[order[b] as int].0 < edges[order[a] as int].0 || order[b] < order[a]);
            }
        }
    }
    let all = vstd::set_lib::set_int_range(0, n);
    vstd::set_lib::lemma_int_range(0, n);
    ints.unique_seq_to_set();
    assert(ints.to_set().subset_of(all)) by {
        assert forall|x: int| ints.to_set().contains(x) implies all.contains(x) by {
            let j = choose|j: int| 0 <= j < ints.len() && ints[j] == x;
            assert(order[j] < edges.len());
        }
    }
    vstd::set_lib::lemma_subset_equality(ints.to_set(), all);
    assert(all.contains(i));
    assert(ints.to_set().contains(i));
    let k = choose|k: int| 0 <= k < ints.len() && ints[k] == i;
    assert(order[k] == i);
    k
}

proof fn lemma_numbers(edges: Seq<AbsEdge>, order: Seq<usize>, s: Seq<int>) -> (src: Seq<int>)
    requires
        is_order(edges, order),
        rising(s, order.len() as int),
    ensures
        src.len() == s.len(),
        forall|j: int|
            0 <= j < src.len() ==> 0 <= #[trigger] src[j] < edges.len() && src[j] == order[s[j]],
        by_place(edges, src),
        forall|m: int| #[trigger] s.contains(m) ==> src.contains(order[m] as int),
{
    let src = s.map_values(|m: int| order[m] as int);
    assert forall|j: int| 0 <= j < src.len() implies 0 <= #[trigger] src[j] < edges.len() && src[j]
        == order[s[j]] by {
        assert(0 <= s[j] < order.len());
        assert(order[s[j]] < edges.len());
    }
    assert forall|a: int, b: int| 0 <= a < b < src.len() implies edges[#[trigger] src[a]].0
        < edges[#[trigger] src[b]].0 || (edges[src[a]].0 == edges[src[b]].0 && src[a] < src[b]) by {
        assert(s[a] < s[b]);
        let x = order[s[a]];
        let y = order[s[b]];
    }
    assert forall|m: int| #[trigger] s.contains(m) implies src.contains(order[m] as int) by {
        let j = choose|j: int| 0 <= j < s.len() && s[j] == m;
        assert(src[j] == order[m] as int);
    }
    src
}

/// A batch annotates every edge from its own known annotation, whatever the order of the
/// edges: edge `i` within the body is written exactly if its output does not have the edge's
/// spender alone already, and what is written says that the spender comes in front of the
/// spenders that `known[i]` names. Edges outside the body come back, and the list nodes that
/// were there stay.
pub proof fn law_batch_by_edge(
    edges: Seq<AbsEdge>,
    known: Seq<(Fk, u8)>,
    order: Seq<usize>,
    body_pub: u64,
    nodes: Seq<SpenderNode>,
)
    requires
        is_order(edges, order),
        known.len() == edges.len(),
        !null_spender(edges),
        linked(nodes),
        all_within(known, nodes),
        nodes.len() + 2 * edges.len() + 2 <= u64::MAX,
    ensures
        ({
            let p = batch_plan(edges, known, order, order.len() as int, body_pub, nodes);
            &&& exists|src: Seq<int>| #[trigger]
                writes_of(edges, known, body_pub, nodes, p.nodes, p.writes, src)
            &&& exists|src: Seq<int>| #[trigger] cold_edges_of(edges, body_pub, p.cold, src)
            &&& linked(p.nodes)
            &&& nodes.len() <= p.nodes.len()
            &&& p.nodes.subrange(0, nodes.len() as int) == nodes
        }),
{
    let n = order.len() as int;
    let p = batch_plan(edges, known, order, n, body_pub, nodes);
    let (wi, ci) = lemma_plan(edges, known, order, n, body_pub, nodes);
    let ws = lemma_numbers(edges, order, wi);
    let cs = lemma_numbers(edges, order, ci);
    assert forall|j: int| 0 <= j < p.writes.len() implies {
        let i = ws[j];
        let w = #[trigger] p.writes[j];
        &&& w.0 == edges[i]
        &&& edges[i].0 + 9 <= body_pub
        &&& !(known[i].1 % 2 == 0 && known[i].0 == edges[i].3)
        &&& annotates(w.1, known[i].0, known[i].1, edges[i].3, nodes, p.nodes)
    } by {
        assert(ws[j] == order[wi[j]]);
    }
    assert forall|j: int| 0 <= j < p.cold.len() implies #[trigger] p.cold[j] == (
        edges[cs[j]].1,
        edges[cs[j]].2,
        edges[cs[j]].3,
    ) && edges[cs[j]].0 + 9 > body_pub by {
        assert(cs[j] == order[ci[j]]);
    }
    assert forall|i: int|
        0 <= i < edges.len() && (#[trigger] edges[i]).0 + 9 <= body_pub && !(known[i].1 % 2 == 0
            && known[i].0 == edges[i].3) implies ws.contains(i) by {
        let m = lemma_order_all(edges, order, i);
        assert(wi.contains(m));
    }
    assert forall|i: int|
        0 <= i < edges.len() && (#[trigger] edges[i]).0 + 9 > body_pub implies cs.contains(i) by {
        let m = lemma_order_all(edges, order, i);
        assert(ci.contains(m));
    }
    assert(writes_of(edges, known, body_pub, nodes, p.nodes, p.writes, ws));
    assert(cold_edges_of(edges, body_pub, p.cold, cs));
}

} // verus!
