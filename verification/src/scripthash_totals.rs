//! Totals of a materialize: how many keys and creates the runs hold of a range of
//! shards, and which create is the highest.

use vstd::prelude::*;
use crate::primitives::Fk;
use crate::scripthash_bulk::{lemma_list_at, lemma_list_none, list_max, list_of, lists_max, pack_tallied, recs_rise, sum_lens, ShShardPack};
use crate::scripthash_head::prefix_shard;
use crate::scripthash_materialize::{pack_of_runs, run_asked, run_list};
use crate::slot_table::Slot;
use crate::sorted_run::SortedRun;

verus! {

/// The keys of these shards that the runs hold creates of.
pub open spec fn run_keys(inputs: Seq<SortedRun>, n: int, lo: int, hi: int) -> Set<Seq<u8>> {
    Set::new(
        |k: Seq<u8>|
            k.len() == 16 && lo <= prefix_shard(k, n) < hi && exists|x: u64|
                run_asked(inputs, k, x),
    )
}

/// The creates of the keys of these shards in the runs.
pub open spec fn run_creates(inputs: Seq<SortedRun>, n: int, lo: int, hi: int) -> Set<
    (Seq<u8>, u64),
> {
    Set::new(
        |p: (Seq<u8>, u64)|
            p.0.len() == 16 && lo <= prefix_shard(p.0, n) < hi && run_asked(inputs, p.0, p.1),
    )
}

/// `b` is the larger of `a` and the highest create.
pub open spec fn raised(a: u64, b: u64, cs: Set<(Seq<u8>, u64)>) -> bool {
    &&& a <= b
    &&& forall|p: (Seq<u8>, u64)| #[trigger] cs.contains(p) ==> p.1 <= b
    &&& b > a ==> exists|p: (Seq<u8>, u64)| #[trigger] cs.contains(p) && p.1 == b
}

/// The runs hold a create of the shard.
pub open spec fn shard_has(inputs: Seq<SortedRun>, n: int, s: int) -> bool {
    exists|k: Seq<u8>, x: u64|
        k.len() == 16 && prefix_shard(k, n) == s && #[trigger] run_asked(inputs, k, x)
}

spec fn keys_upto(recs: Seq<Slot>, n: int) -> Set<Seq<u8>> {
    Set::new(|k: Seq<u8>| exists|i: int| 0 <= i < n && (#[trigger] recs[i]).key@ == k)
}

spec fn pairs_of(k: Seq<u8>, l: Seq<Fk>, n: int) -> Set<(Seq<u8>, u64)> {
    Set::new(|p: (Seq<u8>, u64)| p.0 == k && exists|j: int| 0 <= j < n && (#[trigger] l[j]).0 == p.1)
}

pub(crate) open spec fn pairs_upto(recs: Seq<Slot>, lists: Seq<Seq<Fk>>, n: int) -> Set<(Seq<u8>, u64)> {
    Set::new(
        |p: (Seq<u8>, u64)|
            exists|i: int|
                0 <= i < n && (#[trigger] recs[i]).key@ == p.0 && lists[i].contains(Fk(p.1)),
    )
}

proof fn lemma_keys_count(recs: Seq<Slot>, n: int)
    requires
        recs_rise(recs),
        0 <= n <= recs.len(),
    ensures
        keys_upto(recs, n).finite(),
        keys_upto(recs, n).len() == n,
    decreases n,
{
    if n == 0 {
        assert(keys_upto(recs, n) =~= Set::empty());
    } else {
        lemma_keys_count(recs, n - 1);
        let a = keys_upto(recs, n - 1);
        let k = recs[n - 1].key@;
        assert(!a.contains(k)) by {
            if a.contains(k) {
                let i = choose|i: int| 0 <= i < n - 1 && (#[trigger] recs[i]).key@ == k;
                assert(crate::sorting::be_nat(recs[i].key@) < crate::sorting::be_nat(
                    recs[n - 1].key@,
                ));
            }
        }
        assert(keys_upto(recs, n) =~= a.insert(k)) by {
            assert forall|q: Seq<u8>| keys_upto(recs, n).contains(q) == a.insert(k).contains(
                q,
            ) by {
                if a.contains(q) {
                    let i = choose|i: int| 0 <= i < n - 1 && (#[trigger] recs[i]).key@ == q;
                    assert(recs[i].key@ == q);
                }
                assert(recs[n - 1].key@ == k);
            }
        }
    }
}

proof fn lemma_pairs_of_count(k: Seq<u8>, l: Seq<Fk>, n: int)
    requires
        0 <= n <= l.len(),
        forall|i: int, j: int|
            0 <= i < j < l.len() ==> (#[trigger] l[i]).0 < (#[trigger] l[j]).0,
    ensures
        pairs_of(k, l, n).finite(),
        pairs_of(k, l, n).len() == n,
    decreases n,
{
    if n == 0 {
        assert(pairs_of(k, l, n) =~= Set::empty());
    } else {
        lemma_pairs_of_count(k, l, n - 1);
        let a = pairs_of(k, l, n - 1);
        let p = (k, l[n - 1].0);
        assert(!a.contains(p));
        assert(pairs_of(k, l, n) =~= a.insert(p)) by {
            assert forall|q: (Seq<u8>, u64)| pairs_of(k, l, n).contains(q) == a.insert(p).contains(
                q,
            ) by {
                if a.contains(q) {
                    let j = choose|j: int| 0 <= j < n - 1 && (#[trigger] l[j]).0 == q.1;
                    assert(l[j].0 == q.1);
                }
                assert(l[n - 1].0 == p.1);
            }
        }
    }
}

pub(crate) proof fn lemma_pairs_count(recs: Seq<Slot>, lists: Seq<Seq<Fk>>, n: int)
    requires
        recs_rise(recs),
        recs.len() == lists.len(),
        0 <= n <= recs.len(),
        forall|m: int, i: int, j: int|
            #![trigger lists[m][i], lists[m][j]]
            0 <= m < lists.len() && 0 <= i < j < lists[m].len() ==> lists[m][i].0 < lists[m][j].0,
    ensures
        pairs_upto(recs, lists, n).finite(),
        pairs_upto(recs, lists, n).len() == sum_lens(lists.subrange(0, n)),
    decreases n,
{
    if n == 0 {
        assert(pairs_upto(recs, lists, n) =~= Set::empty());
    } else {
        lemma_pairs_count(recs, lists, n - 1);
        let a = pairs_upto(recs, lists, n - 1);
        let k = recs[n - 1].key@;
        let l = lists[n - 1];
        let b = pairs_of(k, l, l.len() as int);
        assert forall|i: int, j: int| 0 <= i < j < l.len() implies (#[trigger] l[i]).0 < (
        #[trigger] l[j]).0 by {
            assert(lists[n - 1][i].0 < lists[n - 1][j].0);
        }
        lemma_pairs_of_count(k, l, l.len() as int);
        assert(a.disjoint(b)) by {
            assert forall|p: (Seq<u8>, u64)| !(#[trigger] a.contains(p) && b.contains(p)) by {
                if a.contains(p) && b.contains(p) {
                    let i = choose|i: int|
                        0 <= i < n - 1 && (#[trigger] recs[i]).key@ == p.0 && lists[i].contains(
                            Fk(p.1),
                        );
                    assert(crate::sorting::be_nat(recs[i].key@) < crate::sorting::be_nat(
                        recs[n - 1].key@,
                    ));
                }
            }
        }
        assert(pairs_upto(recs, lists, n) =~= a.union(b)) by {
            assert forall|p: (Seq<u8>, u64)| pairs_upto(recs, lists, n).contains(p) == a.union(
                b,
            ).contains(p) by {
                if b.contains(p) {
                    let j = choose|j: int| 0 <= j < l.len() && (#[trigger] l[j]).0 == p.1;
                    assert(l[j] == Fk(p.1));
                    assert(recs[n - 1].key@ == p.0 && lists[n - 1].contains(Fk(p.1)));
                }
                if a.contains(p) {
                    let i = choose|i: int|
                        0 <= i < n - 1 && (#[trigger] recs[i]).key@ == p.0 && lists[i].contains(
                            Fk(p.1),
                        );
                    assert(recs[i].key@ == p.0);
                }
                if pairs_upto(recs, lists, n).contains(p) && !a.contains(p) {
                    let i = choose|i: int|
                        0 <= i < n && (#[trigger] recs[i]).key@ == p.0 && lists[i].contains(
                            Fk(p.1),
                        );
                    assert(i == n - 1);
                    let j = choose|j: int| 0 <= j < l.len() && l[j] == Fk(p.1);
                    assert(l[j].0 == p.1);
                }
            }
        }
        vstd::set_lib::lemma_set_disjoint_lens(a, b);
        assert(lists.subrange(0, n).drop_last() =~= lists.subrange(0, n - 1));
        assert(lists.subrange(0, n).last() == l);
    }
}

proof fn lemma_list_max(l: Seq<Fk>)
    ensures
        forall|j: int| 0 <= j < l.len() ==> (#[trigger] l[j]).0 <= list_max(l),
        list_max(l) > 0 ==> exists|j: int| 0 <= j < l.len() && (#[trigger] l[j]).0 == list_max(l),
    decreases l.len(),
{
    if l.len() > 0 {
        let d = l.drop_last();
        lemma_list_max(d);
        assert forall|j: int| 0 <= j < l.len() implies (#[trigger] l[j]).0 <= list_max(l) by {
            if j < d.len() {
                assert(d[j].0 <= list_max(d));
            }
        }
        if list_max(l) > 0 {
            if list_max(d) > l.last().0 {
                let j = choose|j: int| 0 <= j < d.len() && (#[trigger] d[j]).0 == list_max(d);
                assert(l[j].0 == list_max(l));
            } else {
                assert(l[l.len() - 1].0 == list_max(l));
            }
        }
    }
}

proof fn lemma_lists_max(lists: Seq<Seq<Fk>>)
    ensures
        forall|m: int, j: int|
            #![trigger lists[m][j]]
            0 <= m < lists.len() && 0 <= j < lists[m].len() ==> lists[m][j].0 <= lists_max(lists),
        lists_max(lists) > 0 ==> exists|m: int, j: int|
            #![trigger lists[m][j]]
            0 <= m < lists.len() && 0 <= j < lists[m].len() && lists[m][j].0 == lists_max(lists),
    decreases lists.len(),
{
    if lists.len() > 0 {
        let d = lists.drop_last();
        let l = lists.last();
        lemma_lists_max(d);
        lemma_list_max(l);
        assert forall|m: int, j: int|
            #![trigger lists[m][j]]
            0 <= m < lists.len() && 0 <= j < lists[m].len() implies lists[m][j].0 <= lists_max(
            lists,
        ) by {
            if m < d.len() {
                assert(d[m][j].0 <= lists_max(d));
            } else {
                assert(l[j].0 <= list_max(l));
            }
        }
        if lists_max(lists) > 0 {
            if lists_max(d) > list_max(l) {
                let (m, j) = choose|m: int, j: int|
                    #![trigger d[m][j]]
                    0 <= m < d.len() && 0 <= j < d[m].len() && d[m][j].0 == lists_max(d);
                assert(lists[m][j].0 == lists_max(lists));
            } else {
                let j = choose|j: int| 0 <= j < l.len() && (#[trigger] l[j]).0 == list_max(l);
                assert(lists[lists.len() - 1][j].0 == lists_max(lists));
            }
        }
    }
}

/// The totals of a pack are those of the runs.
pub proof fn lemma_shard_totals(p: &ShShardPack, inputs: Seq<SortedRun>, n: int, s: int)
    requires
        pack_tallied(p),
        recs_rise(p.recs@),
        p.recs@.len() == p.lists@.len(),
        forall|i: int| 0 <= i < p.recs@.len() ==> prefix_shard((#[trigger] p.recs@[i]).key@, n) == s,
        pack_of_runs(p, inputs, n, s),
    ensures
        run_keys(inputs, n, s, s + 1).finite(),
        run_keys(inputs, n, s, s + 1).len() == p.recs@.len(),
        run_creates(inputs, n, s, s + 1).finite(),
        run_creates(inputs, n, s, s + 1).len() == sum_lens(p.lists@),
        raised(0, p.max_fk, run_creates(inputs, n, s, s + 1)),
        shard_has(inputs, n, s) <==> p.recs@.len() > 0,
{
    let recs = p.recs@;
    let lists = p.lists@;
    let len = recs.len() as int;
    assert forall|i: int| 0 <= i < len implies run_list(
        #[trigger] lists[i],
        inputs,
        recs[i].key@,
    ) by {
        lemma_list_at(recs, lists, i);
        assert(recs[i].key@.len() == 16);
        assert(list_of(recs, lists, recs[i].key@) == Some(lists[i]));
    }
    let ks = run_keys(inputs, n, s, s + 1);
    let cs = run_creates(inputs, n, s, s + 1);
    lemma_keys_count(recs, len);
    assert(ks =~= keys_upto(recs, len)) by {
        assert forall|k: Seq<u8>| ks.contains(k) == keys_upto(recs, len).contains(k) by {
            lemma_list_none(recs, lists, k);
            if ks.contains(k) {
                let x = choose|x: u64| run_asked(inputs, k, x);
                assert(list_of(recs, lists, k) is Some);
            }
            if keys_upto(recs, len).contains(k) {
                let i = choose|i: int| 0 <= i < len && (#[trigger] recs[i]).key@ == k;
                assert(lists[i].len() > 0);
                assert(run_asked(inputs, k, lists[i][0].0));
            }
        }
    }
    assert forall|m: int, i: int, j: int|
        #![trigger lists[m][i], lists[m][j]]
        0 <= m < lists.len() && 0 <= i < j < lists[m].len() implies lists[m][i].0
        < lists[m][j].0 by {
        assert(run_list(lists[m], inputs, recs[m].key@));
    }
    lemma_pairs_count(recs, lists, len);
    assert(lists.subrange(0, len) =~= lists);
    assert(cs =~= pairs_upto(recs, lists, len)) by {
        assert forall|q: (Seq<u8>, u64)| cs.contains(q) == pairs_upto(recs, lists, len).contains(
            q,
        ) by {
            lemma_list_none(recs, lists, q.0);
            if cs.contains(q) {
                assert(list_of(recs, lists, q.0) is Some);
                let i = choose|i: int| 0 <= i < len && (#[trigger] recs[i]).key@ == q.0;
                assert(run_list(lists[i], inputs, recs[i].key@));
                assert(lists[i].contains(Fk(q.1)));
            }
            if pairs_upto(recs, lists, len).contains(q) {
                let i = choose|i: int|
                    0 <= i < len && (#[trigger] recs[i]).key@ == q.0 && lists[i].contains(Fk(q.1));
                assert(run_list(lists[i], inputs, recs[i].key@));
                let j = choose|j: int| 0 <= j < lists[i].len() && lists[i][j] == Fk(q.1);
                assert(run_asked(inputs, q.0, lists[i][j].0));
            }
        }
    }
    lemma_lists_max(lists);
    assert forall|q: (Seq<u8>, u64)| #[trigger] cs.contains(q) implies q.1 <= p.max_fk by {
        assert(pairs_upto(recs, lists, len).contains(q));
        let i = choose|i: int|
            0 <= i < len && (#[trigger] recs[i]).key@ == q.0 && lists[i].contains(Fk(q.1));
        let j = choose|j: int| 0 <= j < lists[i].len() && lists[i][j] == Fk(q.1);
        assert(lists[i][j].0 <= lists_max(lists));
    }
    if p.max_fk > 0 {
        let (m, j) = choose|m: int, j: int|
            #![trigger lists[m][j]]
            0 <= m < lists.len() && 0 <= j < lists[m].len() && lists[m][j].0 == lists_max(lists);
        let q = (recs[m].key@, lists[m][j].0);
        assert(lists[m][j] == Fk(q.1));
        assert(lists[m].contains(Fk(q.1)));
        assert(recs[m].key@ == q.0);
        assert(pairs_upto(recs, lists, len).contains(q));
        assert(cs.contains(q) && q.1 == p.max_fk);
    }
    if len > 0 {
        assert(lists[0].len() > 0);
        assert(run_asked(inputs, recs[0].key@, lists[0][0].0)) by {
            assert(run_list(lists[0], inputs, recs[0].key@));
        }
        assert(cs.contains((recs[0].key@, lists[0][0].0)));
    } else if shard_has(inputs, n, s) {
        let (k, x) = choose|k: Seq<u8>, x: u64|
            k.len() == 16 && prefix_shard(k, n) == s && #[trigger] run_asked(inputs, k, x);
        assert(cs.contains((k, x)));
        assert(pairs_upto(recs, lists, len).contains((k, x)));
    }
}

/// The totals of one shard more.
pub proof fn lemma_totals_step(inputs: Seq<SortedRun>, n: int, lo: int, s: int, a: u64, b: u64, c: u64)
    requires
        lo <= s,
        run_keys(inputs, n, lo, s).finite(),
        run_creates(inputs, n, lo, s).finite(),
        raised(a, b, run_creates(inputs, n, lo, s)),
        run_keys(inputs, n, s, s + 1).finite(),
        run_creates(inputs, n, s, s + 1).finite(),
        raised(b, c, run_creates(inputs, n, s, s + 1)),
    ensures
        run_keys(inputs, n, lo, s + 1).finite(),
        run_creates(inputs, n, lo, s + 1).finite(),
        run_keys(inputs, n, lo, s + 1).len() == run_keys(inputs, n, lo, s).len() + run_keys(
            inputs,
            n,
            s,
            s + 1,
        ).len(),
        run_creates(inputs, n, lo, s + 1).len() == run_creates(inputs, n, lo, s).len()
            + run_creates(inputs, n, s, s + 1).len(),
        raised(a, c, run_creates(inputs, n, lo, s + 1)),
{
    let k0 = run_keys(inputs, n, lo, s);
    let k1 = run_keys(inputs, n, s, s + 1);
    let c0 = run_creates(inputs, n, lo, s);
    let c1 = run_creates(inputs, n, s, s + 1);
    let all = run_creates(inputs, n, lo, s + 1);
    assert(run_keys(inputs, n, lo, s + 1) =~= k0.union(k1));
    assert(all =~= c0.union(c1));
    assert(k0.disjoint(k1));
    assert(c0.disjoint(c1));
    vstd::set_lib::lemma_set_disjoint_lens(k0, k1);
    vstd::set_lib::lemma_set_disjoint_lens(c0, c1);
    if c > a {
        if c > b {
            let p = choose|p: (Seq<u8>, u64)| #[trigger] c1.contains(p) && p.1 == c;
            assert(all.contains(p));
        } else {
            let p = choose|p: (Seq<u8>, u64)| #[trigger] c0.contains(p) && p.1 == b;
            assert(all.contains(p));
        }
    }
}

/// No shards hold nothing.
pub proof fn lemma_totals_none(inputs: Seq<SortedRun>, n: int, lo: int, a: u64)
    ensures
        run_keys(inputs, n, lo, lo).finite(),
        run_keys(inputs, n, lo, lo).len() == 0,
        run_creates(inputs, n, lo, lo).finite(),
        run_creates(inputs, n, lo, lo).len() == 0,
        raised(a, a, run_creates(inputs, n, lo, lo)),
{
    assert(run_keys(inputs, n, lo, lo) =~= Set::empty());
    assert(run_creates(inputs, n, lo, lo) =~= Set::empty());
}

} // verus!
