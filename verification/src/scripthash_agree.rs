//! Loads of the same runs agree.

use vstd::prelude::*;
use crate::cold_progress::ColdProgress;
use crate::primitives::Fk;
use crate::scripthash::{lemma_body_index, KeyHome, ScriptHashTable};
use crate::scripthash_head::prefix_shard;
use crate::scripthash_install::in_ovf;
use crate::scripthash_materialize::{load_done, run_asked, run_list, runs_sorted, shard_by, start_totals, stream_of, ShShardMaterialize};
use crate::sorted_run::SortedRun;

verus! {

/// Rising lists with the same creates are equal.
proof fn lemma_one_list(a: Seq<Fk>, b: Seq<Fk>)
    requires
        forall|i: int, j: int| 0 <= i < j < a.len() ==> (#[trigger] a[i]).0 < (#[trigger] a[j]).0,
        forall|i: int, j: int| 0 <= i < j < b.len() ==> (#[trigger] b[i]).0 < (#[trigger] b[j]).0,
        forall|x: Fk| #[trigger] a.contains(x) <==> b.contains(x),
    ensures
        a == b,
    decreases a.len(),
{
    if a.len() == 0 {
        if b.len() > 0 {
            assert(a.contains(b[0]) <==> b.contains(b[0]));
        }
        assert(a =~= b);
    } else {
        let (x, y) = (a.last(), b.last());
        assert(a.contains(a[a.len() - 1]));
        assert(b.contains(x));
        let j = choose|j: int| 0 <= j < b.len() && b[j] == x;
        assert(b.contains(b[b.len() - 1]));
        assert(a.contains(y) <==> b.contains(y));
        let i = choose|i: int| 0 <= i < a.len() && a[i] == y;
        if j < b.len() - 1 {
            assert(b[j].0 < b[b.len() - 1].0);
            if i < a.len() - 1 {
                assert(a[i].0 < a[a.len() - 1].0);
            }
        }
        let (c, d) = (a.drop_last(), b.drop_last());
        assert forall|z: Fk| #[trigger] c.contains(z) <==> d.contains(z) by {
            if c.contains(z) {
                let p = choose|p: int| 0 <= p < c.len() && c[p] == z;
                assert(a[p] == z);
                assert(a.contains(z));
                assert(a[p].0 < a[a.len() - 1].0);
                let q = choose|q: int| 0 <= q < b.len() && b[q] == z;
                assert(d[q] == z);
            }
            if d.contains(z) {
                let q = choose|q: int| 0 <= q < d.len() && d[q] == z;
                assert(b[q] == z);
                assert(a.contains(z) <==> b.contains(z));
                assert(b[q].0 < b[b.len() - 1].0);
                let p = choose|p: int| 0 <= p < a.len() && a[p] == z;
                assert(c[p] == z);
            }
        }
        lemma_one_list(c, d);
        assert(a =~= c.push(x));
        assert(b =~= d.push(y));
    }
}

/// The runs give a key one list of creates.
pub proof fn law_run_list_unique(a: Seq<Fk>, b: Seq<Fk>, inputs: Seq<SortedRun>, k: Seq<u8>)
    requires
        run_list(a, inputs, k),
        run_list(b, inputs, k),
    ensures
        a == b,
{
    assert forall|x: Fk| #[trigger] a.contains(x) <==> b.contains(x) by {
        if a.contains(x) {
            let i = choose|i: int| 0 <= i < a.len() && a[i] == x;
            assert(run_asked(inputs, k, a[i].0));
            assert(b.contains(Fk(x.0)));
        }
        if b.contains(x) {
            let i = choose|i: int| 0 <= i < b.len() && b[i] == x;
            assert(run_asked(inputs, k, b[i].0));
            assert(a.contains(Fk(x.0)));
        }
    }
    lemma_one_list(a, b);
}

/// The tables hold the same index: the same creates of every key, and the same keys in the
/// overflow.
pub open spec fn same_index(a: &ScriptHashTable, b: &ScriptHashTable) -> bool {
    &&& b.n_shards == a.n_shards
    &&& forall|k: Seq<u8>|
        k.len() == 16 ==> #[trigger] b.creates(k) == a.creates(k) && in_ovf(b, k) == in_ovf(a, k)
}

/// Two loads of the same sorted runs from the same state agree: on the totals and on the
/// creates of every key.
pub proof fn law_loads_agree(
    a1: &ScriptHashTable,
    b1: &ScriptHashTable,
    p1: Option<ColdProgress>,
    m1: ShShardMaterialize,
    a2: &ScriptHashTable,
    b2: &ScriptHashTable,
    p2: Option<ColdProgress>,
    m2: ShShardMaterialize,
    inputs: Seq<SortedRun>,
    lo: int,
)
    requires
        a1.wf(),
        same_index(a1, a2),
        start_totals(a1, p1) == start_totals(a2, p2),
        0 <= lo < a1.n_shards,
        runs_sorted(inputs),
        load_done(a1, b1, inputs, lo, p1, m1),
        load_done(a2, b2, inputs, lo, p2, m2),
    ensures
        m1 == m2,
        forall|k: Seq<u8>| k.len() == 16 ==> #[trigger] b1.creates(k) == b2.creates(k),
{
    let n = a1.n_shards as int;
    assert forall|k: Seq<u8>| k.len() == 16 implies #[trigger] b1.creates(k) == b2.creates(k) by {
        let s = prefix_shard(k, n);
        assert(a2.creates(k) == a1.creates(k));
        lemma_body_index(a1, k, KeyHome::Main);
        if lo <= s < n {
            let recs = stream_of(inputs, n, s);
            assert(shard_by(a1, b1, s, recs));
            assert(shard_by(a2, b2, s, recs));
        }
    }
}

} // verus!
