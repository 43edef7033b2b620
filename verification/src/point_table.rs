//! Spend annotations on outputs.
//!
//! An output with one spender holds that transaction. With more spenders the
//! output is marked and holds the first node of a list, newest spender first.

use vstd::prelude::*;
use crate::error::StoreError;
use crate::primitives::Fk;
use crate::spender_table::{linked, SpenderNode, SpenderTable};

verus! {

/// A spend of an output.
#[derive(Clone, Copy, Debug, PartialEq, Eq)]
pub struct PointRecord {
    pub out_txid: [u8; 32],
    pub out_index: u32,
    pub spending_tx_fk: Fk,
    /// Always 0: the input is not stored.
    pub spending_input_index: u32,
    pub next: Fk,
}

/// What an output holds of its spenders.
#[derive(Clone, Copy, Debug, PartialEq, Eq, Structural)]
pub struct SpenderMeta {
    pub multi: bool,
    pub field: Fk,
}

/// The annotation after one more spender; `nodes` is the table before.
pub open spec fn meta_after(m: SpenderMeta, spend: Fk, nodes: Seq<SpenderNode>) -> SpenderMeta {
    if !m.multi && m.field.0 == 0 {
        SpenderMeta { multi: false, field: spend }
    } else if !m.multi && m.field == spend {
        m
    } else if !m.multi {
        SpenderMeta { multi: true, field: Fk((nodes.len() + 2) as u64) }
    } else {
        SpenderMeta { multi: true, field: Fk((nodes.len() + 1) as u64) }
    }
}

/// The table after one more spender.
pub open spec fn nodes_after(m: SpenderMeta, spend: Fk, nodes: Seq<SpenderNode>) -> Seq<
    SpenderNode,
> {
    if !m.multi && (m.field.0 == 0 || m.field == spend) {
        nodes
    } else if !m.multi {
        nodes.push(SpenderNode { spending_tx_fk: m.field, next: Fk(0) }).push(
            SpenderNode { spending_tx_fk: spend, next: Fk((nodes.len() + 1) as u64) },
        )
    } else {
        nodes.push(SpenderNode { spending_tx_fk: spend, next: m.field })
    }
}

/// The output has this sole spender already.
pub open spec fn already_sole(m: SpenderMeta, spend: Fk) -> bool {
    !m.multi && m.field.0 != 0 && m.field == spend
}

/// Adds a spender to what an output holds. `None` means that nothing has to be
/// written.
pub fn put_spend_on_create(
    spenders: &mut SpenderTable,
    create_tx_fk: Fk,
    meta: SpenderMeta,
    spending_tx_fk: Fk,
) -> (r: Result<Option<SpenderMeta>, StoreError>)
    requires
        old(spenders).nodes@.len() + 2 <= u64::MAX,
    ensures
        match r {
            Ok(w) => {
                &&& create_tx_fk.0 != 0
                &&& spending_tx_fk.0 != 0
                &&& final(spenders).nodes@ == nodes_after(
                    meta,
                    spending_tx_fk,
                    old(spenders).nodes@,
                )
                &&& w == (if already_sole(meta, spending_tx_fk) {
                    None
                } else {
                    Some(meta_after(meta, spending_tx_fk, old(spenders).nodes@))
                })
            },
            Err(e) => {
                &&& create_tx_fk.0 == 0 || spending_tx_fk.0 == 0
                &&& e == StoreError::InvalidFk
                &&& *final(spenders) == *old(spenders)
            },
        },
{
    if create_tx_fk.is_null() || spending_tx_fk.is_null() {
        return Err(StoreError::InvalidFk);
    }
    if !meta.multi && meta.field.is_null() {
        return Ok(Some(SpenderMeta { multi: false, field: spending_tx_fk }));
    }
    if !meta.multi && meta.field.0 == spending_tx_fk.0 {
        return Ok(None);
    }
    if !meta.multi {
        let e1: Fk = spenders.append(meta.field, Fk(0))?;
        let e2: Fk = spenders.append(spending_tx_fk, e1)?;
        return Ok(Some(SpenderMeta { multi: true, field: e2 }));
    }
    let e: Fk = spenders.append(spending_tx_fk, meta.field)?;
    Ok(Some(SpenderMeta { multi: true, field: e }))
}

/// Spenders from a node on, and how the walk ends: at the end of the list, at a
/// node that is not there, or on a list that is longer than the table.
pub open spec fn walk(nodes: Seq<SpenderNode>, cur: u64, fuel: nat) -> (
    Seq<Fk>,
    Result<(), StoreError>,
)
    decreases fuel,
{
    if cur == 0 {
        (Seq::empty(), Ok(()))
    } else if cur > nodes.len() {
        (Seq::empty(), Err(StoreError::NotFound))
    } else if fuel == 0 {
        (Seq::empty(), Err(StoreError::Corrupt("spender list cycle")))
    } else {
        let rest = walk(nodes, nodes[cur - 1].next.0, (fuel - 1) as nat);
        (seq![nodes[cur - 1].spending_tx_fk] + rest.0, rest.1)
    }
}

/// The spenders of an output, newest first, and how the walk ends.
pub open spec fn spenders_of(m: SpenderMeta, nodes: Seq<SpenderNode>) -> (
    Seq<Fk>,
    Result<(), StoreError>,
) {
    if m.field.0 == 0 {
        (Seq::empty(), Ok(()))
    } else if !m.multi {
        (seq![m.field], Ok(()))
    } else {
        walk(nodes, m.field.0, nodes.len())
    }
}

/// The spenders of an output in the order of the list, and how the walk ends.
/// Without an output there are none.
pub fn for_each_spender_create(
    spenders: &SpenderTable,
    create_tx_fk: Fk,
    meta: Result<SpenderMeta, StoreError>,
) -> (r: (Vec<Fk>, Result<(), StoreError>))
    ensures
        if create_tx_fk.0 == 0 {
            r.0@.len() == 0 && r.1 is Ok
        } else {
            match meta {
                Err(e) => r.0@.len() == 0 && r.1 == (if e == StoreError::NotFound {
                    Ok(())
                } else {
                    Err(e)
                }),
                Ok(m) => (r.0@, r.1) == spenders_of(m, spenders.nodes@),
            }
        },
{
    let mut out: Vec<Fk> = Vec::new();
    if create_tx_fk.is_null() {
        return (out, Ok(()));
    }
    let m: SpenderMeta = match meta {
        Ok(m) => m,
        Err(StoreError::NotFound) => {
            return (out, Ok(()));
        },
        Err(e) => {
            return (out, Err(e));
        },
    };
    if m.field.is_null() {
        proof {
            assert(out@ =~= Seq::empty());
        }
        return (out, Ok(()));
    }
    if !m.multi {
        out.push(m.field);
        proof {
            assert(out@ =~= seq![m.field]);
        }
        return (out, Ok(()));
    }
    let ghost nodes = spenders.nodes@;
    let mut cur: Fk = m.field;
    let mut fuel: usize = spenders.nodes.len();
    proof {
        assert(out@ + walk(nodes, cur.0, fuel as nat).0 =~= walk(nodes, cur.0, fuel as nat).0);
    }
    while !cur.is_null()
        invariant
            nodes == spenders.nodes@,
            create_tx_fk.0 != 0,
            meta == Ok::<SpenderMeta, StoreError>(m),
            spenders_of(m, nodes).0 == out@ + walk(nodes, cur.0, fuel as nat).0,
            spenders_of(m, nodes).1 == walk(nodes, cur.0, fuel as nat).1,
        decreases fuel,
    {
        let ghost before = out@;
        let ghost w = walk(nodes, cur.0, fuel as nat);
        match spenders.get(cur) {
            Ok((spend, next)) => {
                if fuel == 0 {
                    proof {
                        assert(out@ + w.0 =~= out@);
                    }
                    return (out, Err(StoreError::Corrupt("spender list cycle")));
                }
                out.push(spend);
                proof {
                    assert(out@ + walk(nodes, next.0, (fuel - 1) as nat).0 =~= before + w.0);
                }
                fuel -= 1;
                cur = next;
            },
            Err(e) => {
                proof {
                    assert(out@ + w.0 =~= out@);
                }
                return (out, Err(e));
            },
        }
    }
    proof {
        assert(out@ + Seq::<Fk>::empty() =~= out@);
    }
    (out, Ok(()))
}

proof fn lemma_walk_ends(nodes: Seq<SpenderNode>, cur: u64, fuel: nat)
    requires
        linked(nodes),
        cur <= nodes.len(),
        cur <= fuel,
    ensures
        walk(nodes, cur, fuel).1 is Ok,
    decreases cur,
{
    if cur > 0 {
        lemma_walk_ends(nodes, nodes[cur - 1].next.0, (fuel - 1) as nat);
    }
}

proof fn lemma_walk_same(
    a: Seq<SpenderNode>,
    b: Seq<SpenderNode>,
    cur: u64,
    fa: nat,
    fb: nat,
)
    requires
        linked(a),
        a.len() <= b.len(),
        forall|i: int| 0 <= i < a.len() ==> (#[trigger] a[i]) == b[i],
        cur <= a.len(),
        cur <= fa,
        cur <= fb,
    ensures
        walk(a, cur, fa) == walk(b, cur, fb),
    decreases cur,
{
    if cur > 0 {
        assert(a[cur - 1] == b[cur - 1]);
        lemma_walk_same(a, b, a[cur - 1].next.0, (fa - 1) as nat, (fb - 1) as nat);
    }
}

/// One more spender comes to the front of an output's spenders; a sole spender
/// that is annotated again changes nothing. Lists that end still end.
pub proof fn law_spend_prepends(m: SpenderMeta, spend: Fk, nodes: Seq<SpenderNode>)
    requires
        linked(nodes),
        nodes.len() + 2 <= u64::MAX,
        spend.0 != 0,
        m.multi ==> m.field.0 <= nodes.len(),
    ensures
        linked(nodes_after(m, spend, nodes)),
        spenders_of(m, nodes).1 is Ok,
        spenders_of(meta_after(m, spend, nodes), nodes_after(m, spend, nodes)).1 is Ok,
        spenders_of(meta_after(m, spend, nodes), nodes_after(m, spend, nodes)).0 == (
        if already_sole(m, spend) {
            spenders_of(m, nodes).0
        } else {
            seq![spend] + spenders_of(m, nodes).0
        }),
{
    let n2 = nodes_after(m, spend, nodes);
    let m2 = meta_after(m, spend, nodes);
    let k = nodes.len() as int;
    if m.multi {
        lemma_walk_ends(nodes, m.field.0, nodes.len());
        assert forall|i: int| 0 <= i < n2.len() implies (#[trigger] n2[i]).next.0 <= i by {
            if i < k {
                assert(n2[i] == nodes[i]);
            }
        }
        assert(n2[k].next == m.field);
        lemma_walk_same(nodes, n2, m.field.0, nodes.len(), nodes.len());
        assert(walk(n2, m2.field.0, n2.len()).0 =~= seq![spend] + walk(
            n2,
            m.field.0,
            nodes.len(),
        ).0);
        if m.field.0 == 0 {
            assert(spenders_of(m, nodes).0 =~= walk(nodes, 0, nodes.len()).0);
        }
    } else if m.field.0 == 0 {
        assert(seq![spend] + spenders_of(m, nodes).0 =~= seq![spend]);
    } else if m.field != spend {
        assert forall|i: int| 0 <= i < n2.len() implies (#[trigger] n2[i]).next.0 <= i by {
            if i < k {
                assert(n2[i] == nodes[i]);
            }
        }
        assert(n2[k] == (SpenderNode { spending_tx_fk: m.field, next: Fk(0) }));
        assert(n2[k + 1] == (SpenderNode { spending_tx_fk: spend, next: Fk((k + 1) as u64) }));
        reveal_with_fuel(walk, 4);
        assert(walk(n2, m2.field.0, n2.len()).0 =~= seq![spend] + seq![m.field]);
        assert(walk(n2, m2.field.0, n2.len()).1 is Ok);
    }
    if !already_sole(m, spend) {
        assert(spenders_of(m2, n2).0 == seq![spend] + spenders_of(m, nodes).0);
    }
    assert(spenders_of(m2, n2).1 is Ok);
}

/// Annotation and table after a row of spenders.
pub open spec fn after_spends(
    m: SpenderMeta,
    nodes: Seq<SpenderNode>,
    spends: Seq<Fk>,
) -> (SpenderMeta, Seq<SpenderNode>)
    decreases spends.len(),
{
    if spends.len() == 0 {
        (m, nodes)
    } else {
        let (n, all) = after_spends(m, nodes, spends.drop_last());
        (meta_after(n, spends.last(), all), nodes_after(n, spends.last(), all))
    }
}

/// The list from the end to the start.
pub open spec fn backwards(l: Seq<Fk>) -> Seq<Fk> {
    Seq::new(l.len(), |i: int| l[l.len() - 1 - i])
}

/// An output that was unspent has the spenders of a row of puts, the latest first, each
/// once; putting a sole spender again adds nothing.
pub proof fn law_spends_latest_first(
    m: SpenderMeta,
    nodes: Seq<SpenderNode>,
    spends: Seq<Fk>,
)
    requires
        !m.multi,
        m.field.0 == 0,
        linked(nodes),
        nodes.len() + spends.len() + 2 <= u64::MAX,
        spends.no_duplicates(),
        forall|i: int| 0 <= i < spends.len() ==> (#[trigger] spends[i]).0 != 0,
    ensures
        ({
            let (n, all) = after_spends(m, nodes, spends);
            &&& spenders_of(n, all).0 == backwards(spends)
            &&& spenders_of(n, all).1 is Ok
            &&& linked(all)
            &&& all.len() <= nodes.len() + spends.len()
            &&& n.multi ==> n.field.0 <= all.len()
            &&& n.multi <==> spends.len() > 1
            &&& !n.multi ==> all == nodes
            &&& spends.len() == 1 ==> after_spends(n, all, spends) == (n, all)
        }),
    decreases spends.len(),
{
    if spends.len() == 0 {
        assert(backwards(spends) =~= Seq::<Fk>::empty());
    } else {
        let d = spends.drop_last();
        let s = spends.last();
        assert forall|i: int| 0 <= i < d.len() implies (#[trigger] d[i]).0 != 0 by {
            assert(d[i] == spends[i]);
        }
        law_spends_latest_first(m, nodes, d);
        let (n, all) = after_spends(m, nodes, d);
        assert(s == spends[spends.len() - 1]);
        law_spend_prepends(n, s, all);
        if already_sole(n, s) {
            assert(spenders_of(n, all).0[0] == s);
            assert(backwards(d)[0] == d[d.len() - 1]);
            assert(spends[d.len() - 1] == spends[spends.len() - 1]);
        }
        assert(backwards(spends) =~= seq![s] + backwards(d));
        if d.len() == 1 {
            assert(spenders_of(n, all).0.len() == 1);
            assert(n.field.0 != 0);
        }
        let (n3, all3) = after_spends(m, nodes, spends);
        assert(n3 == meta_after(n, s, all) && all3 == nodes_after(n, s, all));
        assert(spenders_of(n3, all3).0 =~= backwards(spends));
        assert(linked(all3));
        if !n.multi && d.len() > 0 {
            assert(d.len() == 1);
            assert(all == nodes);
        }
        assert(all3.len() <= nodes.len() + spends.len());
        assert(n3.multi ==> n3.field.0 <= all3.len());
        assert(n3.multi <==> spends.len() > 1);
        assert(!n3.multi ==> all3 == nodes);
        if d.len() == 0 {
            assert(n == m);
            let (n2, all2) = after_spends(m, nodes, spends);
            assert(n2.field == s && !n2.multi);
            assert(after_spends(n2, all2, d) == (n2, all2));
            assert(after_spends(n2, all2, spends) == (n2, all2));
        }
    }
}

/// Other outputs keep their spenders.
pub proof fn law_spend_keeps_others(
    m: SpenderMeta,
    spend: Fk,
    nodes: Seq<SpenderNode>,
    other: SpenderMeta,
)
    requires
        linked(nodes),
        nodes.len() + 2 <= u64::MAX,
        other.multi ==> other.field.0 <= nodes.len(),
    ensures
        spenders_of(other, nodes_after(m, spend, nodes)) == spenders_of(other, nodes),
{
    if other.multi {
        let n2 = nodes_after(m, spend, nodes);
        lemma_walk_same(nodes, n2, other.field.0, nodes.len(), n2.len());
    }
}

} // verus!
