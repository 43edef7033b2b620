//! The create counters: each body counts the creates of the keys that it holds.

use vstd::prelude::*;
use crate::error::StoreError;
use crate::primitives::Fk;
use crate::scripthash::{body_index, lemma_body_index, lemma_creates_small, others_same, sum_live, KeyHome, ScriptHashTable};
use crate::scripthash_cold::{ingest_recs, joined, l1_fks, ovf_bytes, recs_fks};
use crate::scripthash_bulk::{capped, counted, in_order, lemma_list_at, lemma_list_none, loaded, pending, same_creates, same_frame, session_ok, shard_open, sum_lens, vacant, ScriptHashBulkSession};
use crate::scripthash_head::{key16, prefix_shard};
use crate::scripthash_install::{has_key, in_ovf, main_body, rec_sound, same_heads};
use crate::scripthash_materialize::{run_asked, same_outside, shard_counted, shard_done, unsealed};
use crate::scripthash_live::{creates_of, law_live_creates_once};
use crate::scripthash_totals::{lemma_pairs_count, pairs_upto, run_creates};
use crate::slot_table::Slot;
use crate::sorted_run::SortedRun;

verus! {

/// Index of the body that holds the creates of a key; -1 for a key without a place.
pub open spec fn place(t: &ScriptHashTable, k: Seq<u8>) -> int {
    match t.located(k) {
        Some((_, h)) => body_index(t.layout, t.n_shards as int, k, h),
        None => -1,
    }
}

/// The creates in a body, with their keys.
pub open spec fn body_pairs(t: &ScriptHashTable, bi: int) -> Set<(Seq<u8>, u64)> {
    Set::new(
        |p: (Seq<u8>, u64)|
            p.0.len() == 16 && place(t, p.0) == bi && t.creates(p.0).contains(Fk(p.1)),
    )
}

/// Every body's counter is the number of the creates in it.
#[verifier::opaque]
pub open spec fn counts_exact(t: &ScriptHashTable) -> bool {
    forall|bi: int|
        0 <= bi < t.bodies@.len() ==> (#[trigger] body_pairs(t, bi)).finite() && body_pairs(
            t,
            bi,
        ).len() == t.bodies@[bi].live_count
}

/// The creates of one key.
pub(crate) open spec fn key_pairs(k: Seq<u8>, l: Seq<Fk>) -> Set<(Seq<u8>, u64)> {
    Set::new(|p: (Seq<u8>, u64)| p.0 == k && l.contains(Fk(p.1)))
}

/// A rising list has as many creates as entries.
pub(crate) proof fn lemma_key_pairs(k: Seq<u8>, l: Seq<Fk>)
    requires
        forall|i: int, j: int| 0 <= i < j < l.len() ==> (#[trigger] l[i]).0 < (#[trigger] l[j]).0,
    ensures
        key_pairs(k, l).finite(),
        key_pairs(k, l).len() == l.len(),
    decreases l.len(),
{
    if l.len() == 0 {
        assert(key_pairs(k, l) =~= Set::<(Seq<u8>, u64)>::empty());
    } else {
        let d = l.drop_last();
        let q = (k, l.last().0);
        lemma_key_pairs(k, d);
        if key_pairs(k, d).contains(q) {
            let i = choose|i: int| 0 <= i < d.len() && d[i] == Fk(q.1);
            assert(l[i].0 < l[l.len() - 1].0);
        }
        assert forall|p: (Seq<u8>, u64)| key_pairs(k, l).contains(p) == key_pairs(k, d).insert(
            q,
        ).contains(p) by {
            if key_pairs(k, l).contains(p) {
                let i = choose|i: int| 0 <= i < l.len() && l[i] == Fk(p.1);
                if i < d.len() {
                    assert(d[i] == Fk(p.1));
                }
            }
            if key_pairs(k, d).contains(p) {
                let i = choose|i: int| 0 <= i < d.len() && d[i] == Fk(p.1);
                assert(l[i] == Fk(p.1));
            }
            if p == q {
                assert(l[l.len() - 1] == Fk(p.1));
            }
        }
        assert(key_pairs(k, l) =~= key_pairs(k, d).insert(q));
    }
}

/// The creates in a body are those of one of its keys and the others.
proof fn lemma_split_key(t: &ScriptHashTable, key: Seq<u8>, bi: int)
    requires
        t.wf(),
        key.len() == 16,
        t.creates(key).len() > 0 ==> place(t, key) == bi,
        body_pairs(t, bi).finite(),
    ensures
        key_pairs(key, t.creates(key)).len() == t.creates(key).len(),
        body_pairs(t, bi).difference(key_pairs(key, t.creates(key))).finite(),
        body_pairs(t, bi).len() == body_pairs(t, bi).difference(
            key_pairs(key, t.creates(key)),
        ).len() + t.creates(key).len(),
{
    lemma_creates_small(t, key);
    let kp = key_pairs(key, t.creates(key));
    lemma_key_pairs(key, t.creates(key));
    let rest = body_pairs(t, bi).difference(kp);
    assert(body_pairs(t, bi) =~= rest.union(kp)) by {
        assert forall|p: (Seq<u8>, u64)| kp.contains(p) implies body_pairs(t, bi).contains(p) by {}
    }
    vstd::set_lib::lemma_set_disjoint_lens(rest, kp);
}

/// One key got other creates in one body, whose counter says so: the counters stay exact.
pub(crate) proof fn lemma_count_step(
    a: &ScriptHashTable,
    b: &ScriptHashTable,
    key: Seq<u8>,
    bi: int,
)
    requires
        a.wf(),
        b.wf(),
        counts_exact(a),
        key.len() == 16,
        b.layout == a.layout,
        b.n_shards == a.n_shards,
        b.bodies@.len() == a.bodies@.len(),
        0 <= bi < a.bodies@.len(),
        others_same(a, b, key),
        a.creates(key).len() > 0 ==> place(a, key) == bi,
        b.creates(key).len() > 0 ==> place(b, key) == bi,
        forall|j: int|
            0 <= j < a.bodies@.len() && j != bi ==> (#[trigger] b.bodies@[j]).live_count
                == a.bodies@[j].live_count,
        b.bodies@[bi].live_count - a.bodies@[bi].live_count == b.creates(key).len() - a.creates(
            key,
        ).len(),
    ensures
        counts_exact(b),
{
    reveal(counts_exact);
    assert forall|j: int| 0 <= j < b.bodies@.len() implies (#[trigger] body_pairs(b, j)).finite()
        && body_pairs(b, j).len() == b.bodies@[j].live_count by {
        assert(body_pairs(a, j).finite());
        if j != bi {
            assert(body_pairs(b, j) =~= body_pairs(a, j)) by {
                assert forall|p: (Seq<u8>, u64)| body_pairs(b, j).contains(p) == body_pairs(
                    a,
                    j,
                ).contains(p) by {
                    if p.0.len() == 16 && p.0 != key {
                        assert(b.creates(p.0) == a.creates(p.0));
                    }
                }
            }
        } else {
            let (x, y) = (key_pairs(key, a.creates(key)), key_pairs(key, b.creates(key)));
            lemma_split_key(a, key, bi);
            let rest = body_pairs(a, bi).difference(x);
            lemma_creates_small(b, key);
            lemma_key_pairs(key, b.creates(key));
            assert(body_pairs(b, bi) =~= rest.union(y)) by {
                assert forall|p: (Seq<u8>, u64)| body_pairs(b, bi).contains(p) == rest.union(
                    y,
                ).contains(p) by {
                    if p.0.len() == 16 && p.0 != key {
                        assert(b.creates(p.0) == a.creates(p.0));
                    }
                }
            }
            assert(rest.disjoint(y)) by {
                assert forall|p: (Seq<u8>, u64)| rest.contains(p) implies !y.contains(p) by {}
            }
            vstd::set_lib::lemma_set_disjoint_lens(rest, y);
        }
    }
}

/// Keys that stay in their bodies leave the counters exact.
pub(crate) proof fn lemma_count_same(a: &ScriptHashTable, b: &ScriptHashTable)
    requires
        counts_exact(a),
        b.bodies@.len() == a.bodies@.len(),
        forall|j: int|
            0 <= j < a.bodies@.len() ==> (#[trigger] b.bodies@[j]).live_count
                == a.bodies@[j].live_count,
        forall|k: Seq<u8>|
            k.len() == 16 ==> #[trigger] b.creates(k) == a.creates(k) && place(b, k) == place(a, k),
    ensures
        counts_exact(b),
{
    reveal(counts_exact);
    assert forall|j: int| 0 <= j < b.bodies@.len() implies (#[trigger] body_pairs(b, j)).finite()
        && body_pairs(b, j).len() == b.bodies@[j].live_count by {
        assert(body_pairs(a, j).finite());
        assert(body_pairs(b, j) =~= body_pairs(a, j)) by {
            assert forall|p: (Seq<u8>, u64)| body_pairs(b, j).contains(p) == body_pairs(
                a,
                j,
            ).contains(p) by {
                if p.0.len() == 16 {
                    assert(b.creates(p.0) == a.creates(p.0));
                }
            }
        }
    }
}

/// The counter that a key's creates are part of counts at least them.
pub proof fn law_counter_covers(t: &ScriptHashTable, k: Seq<u8>)
    requires
        t.wf(),
        counts_exact(t),
        k.len() == 16,
        t.creates(k).len() > 0,
    ensures
        t.counter_of(k) >= t.creates(k).len(),
{
    reveal(counts_exact);
    let h = (t.located(k)->0).1;
    lemma_body_index(t, k, h);
    let bi = place(t, k);
    assert(body_pairs(t, bi).finite());
    lemma_split_key(t, k, bi);
}

/// The overflow masks no create of the runs in these shards.
pub open spec fn unmasked(t: &ScriptHashTable, inputs: Seq<SortedRun>, lo: int, hi: int) -> bool {
    forall|k: Seq<u8>, x: u64| #[trigger]
        run_asked(inputs, k, x) && k.len() == 16 && lo <= prefix_shard(k, t.n_shards as int) < hi
            ==> !in_ovf(t, k)
}

/// A shard that was not sealed holds no creates in its main head.
pub(crate) proof fn lemma_unsealed_none(t: &ScriptHashTable, shard: int)
    requires
        t.wf(),
        counts_exact(t),
        0 <= shard < t.n_shards,
        t.layout is Sharded,
        unsealed(t, shard),
    ensures
        body_pairs(t, shard) =~= Set::<(Seq<u8>, u64)>::empty(),
        t.bodies@[shard].live_count == 0,
{
    reveal(counts_exact);
    assert forall|p: (Seq<u8>, u64)| !body_pairs(t, shard).contains(p) by {
        if p.0.len() == 16 && t.located(p.0) is Some {
            lemma_body_index(t, p.0, KeyHome::Main);
        }
    }
    assert(body_pairs(t, shard).finite());
}

/// A shard that was loaded leaves the counters exact, where it was not sealed before and the
/// overflow masks nothing of it.
#[verifier::rlimit(40)]
pub(crate) proof fn lemma_count_load(
    a: &ScriptHashTable,
    b: &ScriptHashTable,
    inputs: Seq<SortedRun>,
    shard: int,
)
    requires
        a.wf(),
        b.wf(),
        counts_exact(a),
        same_frame(a, b),
        0 <= shard < a.n_shards,
        unsealed(a, shard),
        unmasked(a, inputs, shard, shard + 1),
        forall|i: int| 0 <= i < a.main@.len() && i != shard ==> b.main@[i] == a.main@[i],
        same_outside(a, b, shard, shard + 1),
        shard_done(a, b, inputs, shard),
        run_creates(inputs, a.n_shards as int, shard, shard + 1).finite(),
        a.live() + run_creates(inputs, a.n_shards as int, shard, shard + 1).len() <= u64::MAX,
        shard_counted(
            a,
            b,
            shard,
            capped(run_creates(inputs, a.n_shards as int, shard, shard + 1).len() as int),
        ),
    ensures
        counts_exact(b),
{
    let n = a.n_shards as int;
    let bi = main_body(a.layout, shard);
    let cs = run_creates(inputs, n, shard, shard + 1);
    assert forall|k: Seq<u8>| k.len() == 16 && (in_ovf(a, k) || prefix_shard(k, n) != shard) implies
        #[trigger] b.creates(k) == a.creates(k) && place(b, k) == place(a, k) by {
        lemma_body_index(a, k, KeyHome::Main);
    }
    assert forall|k: Seq<u8>, x: u64|
        k.len() == 16 && !in_ovf(a, k) && prefix_shard(k, n) == shard implies a.located(k) is None
        && (#[trigger] b.creates(k).contains(Fk(x)) <==> run_asked(inputs, k, x)) && (
    b.creates(k).len() > 0 ==> place(b, k) == bi) by {
        let l = b.creates(k);
        if l.contains(Fk(x)) {
            let i = choose|i: int| 0 <= i < l.len() && l[i] == Fk(x);
            assert(run_asked(inputs, k, l[i].0));
        }
    }
    lemma_body_index(a, seq![0u8; 16], KeyHome::Main);
    crate::scripthash::lemma_sum_update(a.bodies@, bi, a.bodies@[bi]);
    if a.layout is Sharded {
        lemma_unsealed_none(a, shard);
    }
    assert(0 <= bi < a.bodies@.len());
    reveal(counts_exact);
    assert forall|j: int| 0 <= j < b.bodies@.len() implies (#[trigger] body_pairs(b, j)).finite()
        && body_pairs(b, j).len() == b.bodies@[j].live_count by {
        assert(body_pairs(a, j).finite());
        assert forall|p: (Seq<u8>, u64)| body_pairs(b, j).contains(p) == (body_pairs(
            a,
            j,
        ).contains(p) || (j == bi && cs.contains(p))) by {
            let k = p.0;
            if k.len() == 16 {
                lemma_body_index(a, k, KeyHome::Main);
                if in_ovf(a, k) || prefix_shard(k, n) != shard {
                    assert(b.creates(k) == a.creates(k));
                    if cs.contains(p) {
                        assert(run_asked(inputs, k, p.1));
                    }
                } else {
                    assert(b.creates(k).contains(Fk(p.1)) <==> run_asked(inputs, k, p.1));
                }
            }
        }
        if j == bi {
            assert(body_pairs(b, j) =~= body_pairs(a, j).union(cs));
            assert(body_pairs(a, j).disjoint(cs)) by {
                assert forall|p: (Seq<u8>, u64)| cs.contains(p) implies !body_pairs(a, j).contains(
                    p,
                ) by {
                    assert(run_asked(inputs, p.0, p.1));
                    assert(!in_ovf(a, p.0));
                    assert(b.creates(p.0).contains(Fk(p.1)) <==> run_asked(inputs, p.0, p.1));
                }
            }
            vstd::set_lib::lemma_set_disjoint_lens(body_pairs(a, j), cs);
        } else {
            assert(body_pairs(b, j) =~= body_pairs(a, j));
        }
    }
}

/// A load that keeps the counters exact: the table's are, the session has counted what it
/// holds, and the overflow masks none of its keys.
#[verifier::opaque]
pub open spec fn tallies(s: &ScriptHashBulkSession, t: &ScriptHashTable) -> bool {
    &&& counts_exact(t)
    &&& counted(s, t)
    &&& s.live_count == s.committed_live_count + sum_lens(s.lists@)
    &&& forall|i: int| 0 <= i < s.recs@.len() ==> !in_ovf(t, (#[trigger] s.recs@[i]).key@)
    &&& s.open_key matches Some(o) ==> !in_ovf(t, key16(o.key@))
}

/// The bodies count the same.
pub open spec fn same_live(a: &ScriptHashTable, b: &ScriptHashTable) -> bool {
    &&& b.bodies@.len() == a.bodies@.len()
    &&& forall|i: int|
        0 <= i < a.bodies@.len() ==> (#[trigger] b.bodies@[i]).live_count
            == a.bodies@[i].live_count
}

/// A step that leaves heads, creates and counters of the table keeps it so.
pub(crate) proof fn lemma_tallies_step(
    s0: &ScriptHashBulkSession,
    t0: &ScriptHashTable,
    s: &ScriptHashBulkSession,
    t: &ScriptHashTable,
)
    requires
        tallies(s0, t0),
        same_heads(t0, t),
        same_creates(t0, t),
        same_live(t0, t),
        counted(s0, t0) ==> counted(s, t),
        s.live_count - s.committed_live_count - sum_lens(s.lists@) == s0.live_count
            - s0.committed_live_count - sum_lens(s0.lists@),
        forall|i: int|
            0 <= i < s.recs@.len() ==> (i < s0.recs@.len() && #[trigger] s.recs@[i] == s0.recs@[i])
                || (s0.open_key is Some && s.recs@[i].key@ == key16(s0.open_key->0.key@)),
        s.open_key matches Some(o) ==> (s0.open_key is Some && s0.open_key->0.key@ == o.key@)
            || !in_ovf(t0, key16(o.key@)),
    ensures
        tallies(s, t),
{
    reveal(tallies);
    assert forall|k: Seq<u8>| in_ovf(t, k) == in_ovf(t0, k) by {}
    assert forall|i: int| 0 <= i < s.recs@.len() implies !in_ovf(
        t,
        (#[trigger] s.recs@[i]).key@,
    ) by {
        if i < s0.recs@.len() && s.recs@[i] == s0.recs@[i] {
            assert(!in_ovf(t0, s0.recs@[i].key@));
        }
    }
    assert forall|k: Seq<u8>| k.len() == 16 implies #[trigger] t.creates(k) == t0.creates(k)
        && place(t, k) == place(t0, k) by {
        assert(t.located(k) == t0.located(k));
    }
    lemma_count_same(t0, t);
}

/// A shard that a load sealed leaves the counters exact.
#[verifier::rlimit(40)]
pub(crate) proof fn lemma_count_flush(
    s: &ScriptHashBulkSession,
    a: &ScriptHashTable,
    b: &ScriptHashTable,
    shard: int,
)
    requires
        session_ok(s, a),
        b.wf(),
        tallies(s, a),
        in_order(s, a),
        s.open_key is None,
        s.active_shard == Some(shard as usize),
        0 <= shard < a.n_shards,
        same_frame(a, b),
        forall|i: int| 0 <= i < a.main@.len() && i != shard ==> b.main@[i] == a.main@[i],
        forall|k: Seq<u8>| k.len() == 16 ==> #[trigger] b.creates(k) == loaded(s, a, k),
        forall|i: int|
            0 <= i < a.bodies@.len() && i != main_body(a.layout, shard) ==> (
            #[trigger] b.bodies@[i]).live_count == a.bodies@[i].live_count,
        b.bodies@[main_body(a.layout, shard)].live_count == a.bodies@[main_body(
            a.layout,
            shard,
        )].live_count + sum_lens(s.lists@),
    ensures
        counts_exact(b),
{
    reveal(tallies);
    let n = a.n_shards as int;
    let bi = main_body(a.layout, shard);
    let (recs, lists) = (s.recs@, s.lists@);
    let cs = pairs_upto(recs, lists, recs.len() as int);
    assert forall|m: int, i: int, j: int|
        #![trigger lists[m][i], lists[m][j]]
        0 <= m < lists.len() && 0 <= i < j < lists[m].len() implies lists[m][i].0
        < lists[m][j].0 by {
        let body = &a.bodies@[bi];
        assert(rec_sound(body, recs[m], lists[m]));
        let v = crate::scripthash_pack8::unpack8(recs[m].word)->Ok_0;
        let pages = choose|pages: Seq<int>| #[trigger]
            crate::scripthash_values::holds_value(body, v, recs[m].key@, pages, lists[m]);
        crate::scripthash_values::lemma_holds_small(body, v, recs[m].key@, pages, lists[m]);
    }
    lemma_pairs_count(recs, lists, recs.len() as int);
    assert(lists.subrange(0, recs.len() as int) =~= lists);
    assert forall|k: Seq<u8>| k.len() == 16 && (in_ovf(a, k) || prefix_shard(k, n) != shard) implies
        #[trigger] b.creates(k) == a.creates(k) && place(b, k) == place(a, k) && !has_key(
        recs,
        k,
    ) by {
        lemma_body_index(a, k, KeyHome::Main);
        if has_key(recs, k) {
            let i = choose|i: int| 0 <= i < recs.len() && (#[trigger] recs[i]).key@ == k;
            assert(prefix_shard(recs[i].key@, n) == shard);
            assert(!in_ovf(a, recs[i].key@));
        }
        lemma_list_none(recs, lists, k);
        assert(pending(s, k) is None);
    }
    assert forall|k: Seq<u8>, x: u64|
        k.len() == 16 && !in_ovf(a, k) && prefix_shard(k, n) == shard implies a.located(k) is None
        && (#[trigger] b.creates(k).contains(Fk(x)) <==> cs.contains((k, x))) && (
    b.creates(k).len() > 0 ==> place(b, k) == bi) by {
        assert(shard_open(s, n, k));
        assert(vacant(a, k));
        lemma_list_none(recs, lists, k);
        assert(b.creates(k) == loaded(s, a, k));
        if has_key(recs, k) {
            let i = choose|i: int| 0 <= i < recs.len() && (#[trigger] recs[i]).key@ == k;
            lemma_list_at(recs, lists, i);
            if cs.contains((k, x)) {
                let j = choose|j: int|
                    0 <= j < recs.len() && (#[trigger] recs[j]).key@ == k && lists[j].contains(
                        Fk(x),
                    );
                lemma_list_at(recs, lists, j);
            }
        }
    }
    lemma_body_index(a, seq![0u8; 16], KeyHome::Main);
    assert(0 <= bi < a.bodies@.len());
    reveal(counts_exact);
    assert forall|j: int| 0 <= j < b.bodies@.len() implies (#[trigger] body_pairs(b, j)).finite()
        && body_pairs(b, j).len() == b.bodies@[j].live_count by {
        assert(body_pairs(a, j).finite());
        assert forall|p: (Seq<u8>, u64)| body_pairs(b, j).contains(p) == (body_pairs(
            a,
            j,
        ).contains(p) || (j == bi && cs.contains(p))) by {
            let k = p.0;
            if cs.contains(p) {
                let i = choose|i: int|
                    0 <= i < recs.len() && (#[trigger] recs[i]).key@ == k && lists[i].contains(
                        Fk(p.1),
                    );
                assert(k.len() == 16 && has_key(recs, k));
            }
            if k.len() == 16 {
                if in_ovf(a, k) || prefix_shard(k, n) != shard {
                    assert(b.creates(k) == a.creates(k));
                } else {
                    assert(b.creates(k).contains(Fk(p.1)) <==> cs.contains((k, p.1)));
                }
            }
        }
        if j == bi {
            assert(body_pairs(b, j) =~= body_pairs(a, j).union(cs));
            assert(body_pairs(a, j).disjoint(cs)) by {
                assert forall|p: (Seq<u8>, u64)| cs.contains(p) implies !body_pairs(a, j).contains(
                    p,
                ) by {
                    let i = choose|i: int|
                        0 <= i < recs.len() && (#[trigger] recs[i]).key@ == p.0
                            && lists[i].contains(Fk(p.1));
                    assert(prefix_shard(recs[i].key@, n) == shard);
                    assert(!in_ovf(a, recs[i].key@));
                    assert(b.creates(p.0).contains(Fk(p.1)) <==> cs.contains((p.0, p.1)));
                }
            }
            vstd::set_lib::lemma_set_disjoint_lens(body_pairs(a, j), cs);
        } else {
            assert(body_pairs(b, j) =~= body_pairs(a, j));
        }
    }
}

/// A table without creates counts none.
pub(crate) proof fn lemma_count_none(t: &ScriptHashTable)
    requires
        forall|k: Seq<u8>| k.len() == 16 ==> #[trigger] t.creates(k) == Seq::<Fk>::empty(),
        forall|j: int| 0 <= j < t.bodies@.len() ==> (#[trigger] t.bodies@[j]).live_count == 0,
    ensures
        counts_exact(t),
{
    reveal(counts_exact);
    assert forall|j: int| 0 <= j < t.bodies@.len() implies (#[trigger] body_pairs(t, j)).finite()
        && body_pairs(t, j).len() == t.bodies@[j].live_count by {
        assert(body_pairs(t, j) =~= Set::<(Seq<u8>, u64)>::empty()) by {
            assert forall|p: (Seq<u8>, u64)| !body_pairs(t, j).contains(p) by {
                if p.0.len() == 16 {
                    assert(t.creates(p.0) == Seq::<Fk>::empty());
                }
            }
        }
    }
}

/// The creates in the first `m` bodies.
spec fn pairs_below(t: &ScriptHashTable, m: int) -> Set<(Seq<u8>, u64)> {
    Set::new(
        |p: (Seq<u8>, u64)|
            p.0.len() == 16 && 0 <= place(t, p.0) < m && t.creates(p.0).contains(Fk(p.1)),
    )
}

proof fn lemma_pairs_below(t: &ScriptHashTable, m: int)
    requires
        counts_exact(t),
        0 <= m <= t.bodies@.len(),
    ensures
        pairs_below(t, m).finite(),
        pairs_below(t, m).len() == sum_live(t.bodies@.subrange(0, m)),
    decreases m,
{
    let s = t.bodies@.subrange(0, m);
    if m == 0 {
        assert(pairs_below(t, 0) =~= Set::<(Seq<u8>, u64)>::empty());
    } else {
        reveal(counts_exact);
        lemma_pairs_below(t, m - 1);
        assert(s.drop_last() =~= t.bodies@.subrange(0, m - 1));
        let (x, y) = (pairs_below(t, m - 1), body_pairs(t, m - 1));
        assert(y.finite());
        assert(pairs_below(t, m) =~= x.union(y));
        assert(x.disjoint(y));
        vstd::set_lib::lemma_set_disjoint_lens(x, y);
    }
}

/// The creates of the keys of a list.
spec fn pairs_listed(t: &ScriptHashTable, keys: Seq<Seq<u8>>) -> Set<(Seq<u8>, u64)> {
    Set::new(
        |p: (Seq<u8>, u64)|
            p.0.len() == 16 && keys.contains(p.0) && t.creates(p.0).contains(Fk(p.1)),
    )
}

proof fn lemma_pairs_listed(t: &ScriptHashTable, keys: Seq<Seq<u8>>)
    requires
        t.wf(),
        keys.no_duplicates(),
        forall|i: int| 0 <= i < keys.len() ==> (#[trigger] keys[i]).len() == 16,
    ensures
        pairs_listed(t, keys).finite(),
        pairs_listed(t, keys).len() == creates_of(t, keys).len(),
    decreases keys.len(),
{
    if keys.len() == 0 {
        assert(pairs_listed(t, keys) =~= Set::<(Seq<u8>, u64)>::empty());
    } else {
        let d = keys.drop_last();
        let k = keys.last();
        assert(keys[keys.len() - 1].len() == 16);
        assert forall|i: int| 0 <= i < d.len() implies (#[trigger] d[i]).len() == 16 by {
            assert(keys[i].len() == 16);
        }
        lemma_pairs_listed(t, d);
        lemma_creates_small(t, k);
        lemma_key_pairs(k, t.creates(k));
        let (x, y) = (pairs_listed(t, d), key_pairs(k, t.creates(k)));
        assert forall|p: (Seq<u8>, u64)| pairs_listed(t, keys).contains(p) == x.union(y).contains(
            p,
        ) by {
            if keys.contains(p.0) {
                let i = choose|i: int| 0 <= i < keys.len() && keys[i] == p.0;
                if i < d.len() {
                    assert(d[i] == p.0);
                }
            }
            if d.contains(p.0) {
                let i = choose|i: int| 0 <= i < d.len() && d[i] == p.0;
                assert(keys[i] == p.0);
            }
            if p.0 == k {
                assert(keys[keys.len() - 1] == p.0);
            }
        }
        assert(pairs_listed(t, keys) =~= x.union(y));
        assert(x.disjoint(y)) by {
            assert forall|p: (Seq<u8>, u64)| x.contains(p) implies !y.contains(p) by {
                let i = choose|i: int| 0 <= i < d.len() && d[i] == p.0;
                assert(keys[i] != keys[keys.len() - 1]);
            }
        }
        vstd::set_lib::lemma_set_disjoint_lens(x, y);
    }
}

/// The keys with creates have as many as the counters say.
#[verifier::spinoff_prover]
proof fn lemma_listed_counted(t: &ScriptHashTable, keys: Seq<Seq<u8>>)
    requires
        t.wf(),
        counts_exact(t),
        keys.no_duplicates(),
        forall|i: int| 0 <= i < keys.len() ==> (#[trigger] keys[i]).len() == 16,
        forall|k: Seq<u8>|
            k.len() == 16 && t.creates(k).len() > 0 ==> #[trigger] keys.contains(k),
    ensures
        creates_of(t, keys).len() == t.live(),
{
    let m = t.bodies@.len() as int;
    lemma_pairs_listed(t, keys);
    lemma_pairs_below(t, m);
    assert(t.bodies@.subrange(0, m) =~= t.bodies@);
    let (x, y) = (pairs_listed(t, keys), pairs_below(t, m));
    assert forall|p: (Seq<u8>, u64)| x.contains(p) == y.contains(p) by {
        if p.0.len() == 16 && t.creates(p.0).contains(Fk(p.1)) {
            assert(t.creates(p.0).len() > 0);
            assert(keys.contains(p.0));
            lemma_placed(t, p.0);
        }
    }
    assert(x =~= y);
}

/// A key with creates has a place.
proof fn lemma_placed(t: &ScriptHashTable, k: Seq<u8>)
    requires
        t.wf(),
        k.len() == 16,
        t.creates(k).len() > 0,
    ensures
        0 <= place(t, k) < t.bodies@.len(),
{
    let h = (t.located(k)->0).1;
    lemma_body_index(t, k, h);
}

/// Where the counters are exact, the list of all live creates is as long as they say.
pub proof fn law_live_creates_counted(t: &ScriptHashTable, recs: Seq<Slot>, out: Seq<Fk>)
    requires
        t.wf(),
        counts_exact(t),
        ingest_recs(t, recs),
        joined(l1_fks(t), recs_fks(recs, ovf_bytes(t))) == Ok::<Seq<Fk>, StoreError>(out),
    ensures
        out.len() == t.live(),
{
    let keys = law_live_creates_once(t, recs, out);
    lemma_listed_counted(t, keys);
}

} // verus!
