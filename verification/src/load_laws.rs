//! Laws on batches and loads: which creates a key has afterwards.

use vstd::prelude::*;
use crate::bytes::u64_at;
use crate::cold_progress::ColdProgress;
use crate::primitives::Fk;
use crate::scripthash::{above, asked, asked_set, extends, last_num, sum_live, ScriptHashRecord, ScriptHashTable};
use crate::scripthash_body::ShBody;
use crate::scripthash_bulk::{entry_has, entry_list, list_max, list_of, lists_max, lists_with, loaded, masked, push_all, pushed, shard_noted, sum_lens, ScriptHashBulkSession};
use crate::scripthash_head::{key16, prefix_shard};
use crate::scripthash_install::in_ovf;
use crate::scripthash_layout::ShEntry;
use crate::scripthash_live::creates_of;
use crate::scripthash_load::{any_asked, count_fresh, fresh_at, gathered, gathered_keys, keys_sorted, last_hash, live_recs, records_loaded, set_list};
use crate::scripthash_materialize::{key_at, last_bump, load_done, run_asked, run_list, runs_ready, shard_done, shard_settled, start_totals, unsealed, ShShardMaterialize};
use crate::scripthash_migrate::{lemma_fresh_pairs, pairs_named};
use crate::scripthash_totals::{run_creates, run_keys, shard_has};
use crate::scripthash_values::fks_small;
use crate::slot_table::Slot;
use crate::sorted_run::SortedRun;

verus! {

/// A record of the batch gives the key this create.
pub open spec fn batch_gives(recs: Seq<ScriptHashRecord>, k: Seq<u8>, x: u64) -> bool {
    exists|i: int|
        0 <= i < recs.len() && (#[trigger] recs[i]).scripthash@.subrange(0, 16) == k
            && recs[i].create_tx_fk.0 == x
}

/// A batch appends to each key the creates that it gives the key and that are above all that
/// the key had, in order and each once; nothing that was there moves.
pub proof fn law_batch_creates(
    old_fks: Seq<Fk>,
    new_fks: Seq<Fk>,
    recs: Seq<ScriptHashRecord>,
    k: Seq<u8>,
)
    requires
        extends(old_fks, new_fks, asked_set(recs, k)),
        fks_small(old_fks),
    ensures
        forall|x: u64| #[trigger]
            new_fks.contains(Fk(x)) <==> old_fks.contains(Fk(x)) || (x != 0 && batch_gives(
                recs,
                k,
                x,
            ) && forall|i: int| 0 <= i < old_fks.len() ==> (#[trigger] old_fks[i]).0 < x),
        forall|i: int, j: int|
            0 <= i < j < new_fks.len() ==> (#[trigger] new_fks[i]).0 < (#[trigger] new_fks[j]).0,
        forall|i: int| 0 <= i < old_fks.len() ==> new_fks[i] == #[trigger] old_fks[i],
{
    let n = old_fks.len() as int;
    assert forall|i: int| 0 <= i < n implies new_fks[i] == #[trigger] old_fks[i] by {
        assert(new_fks.subrange(0, n)[i] == new_fks[i]);
    }
    assert forall|i: int| 0 <= i < n implies (#[trigger] old_fks[i]).0 <= last_num(old_fks) by {
        if i < n - 1 {
            assert(old_fks[i].0 < old_fks[n - 1].0);
        }
    }
    assert forall|x: u64| #[trigger] new_fks.contains(Fk(x)) <==> old_fks.contains(Fk(x)) || (x
        != 0 && batch_gives(recs, k, x) && forall|i: int|
        0 <= i < old_fks.len() ==> (#[trigger] old_fks[i]).0 < x) by {
        assert(asked_set(recs, k).contains(x) == asked(recs, k, x));
        assert(asked(recs, k, x) <==> x != 0 && batch_gives(recs, k, x)) by {
            if asked(recs, k, x) {
                let i = choose|i: int|
                    0 <= i < recs.len() && key16((#[trigger] recs[i]).scripthash@) == k
                        && recs[i].create_tx_fk.0 == x;
                assert(recs[i].scripthash@.subrange(0, 16) == k);
            }
            if x != 0 && batch_gives(recs, k, x) {
                let i = choose|i: int|
                    0 <= i < recs.len() && (#[trigger] recs[i]).scripthash@.subrange(0, 16) == k
                        && recs[i].create_tx_fk.0 == x;
                assert(key16(recs[i].scripthash@) == k);
            }
        }
        if new_fks.contains(Fk(x)) {
            let j = choose|j: int| 0 <= j < new_fks.len() && new_fks[j] == Fk(x);
            if j < n {
                assert(old_fks[j] == Fk(x));
            } else {
                assert(asked_set(recs, k).contains(new_fks[j].0));
                assert forall|i: int| 0 <= i < n implies (#[trigger] old_fks[i]).0 < x by {}
            }
        }
        if old_fks.contains(Fk(x)) {
            let j = choose|j: int| 0 <= j < n && old_fks[j] == Fk(x);
            assert(new_fks[j] == Fk(x));
        }
        if x != 0 && batch_gives(recs, k, x) && forall|i: int|
            0 <= i < old_fks.len() ==> (#[trigger] old_fks[i]).0 < x {
            if n > 0 {
                assert(old_fks[n - 1].0 < x);
            }
            assert(x > last_num(old_fks));
        }
    }
}

/// What is appended are the numbers above the last one, in their order.
pub proof fn law_above(have: Seq<Fk>, add: Seq<Fk>)
    ensures
        above(have, add) == add.filter(|f: Fk| have.len() == 0 || f.0 > have[have.len() - 1].0),
    decreases add.len(),
{
    reveal(Seq::filter);
    if add.len() > 0 {
        law_above(have, add.drop_last());
    }
}

/// The creates of a table are those that its bodies count.
pub proof fn law_live_summed(a: Seq<ShBody>, b: Seq<ShBody>, x: ShBody)
    ensures
        sum_live(a + b) == sum_live(a) + sum_live(b),
        sum_live(seq![x]) == x.live_count,
        sum_live(Seq::empty()) == 0,
    decreases b.len(),
{
    reveal_with_fuel(sum_live, 2);
    assert(seq![x].drop_last() =~= Seq::empty());
    assert(seq![x].last() == x);
    if b.len() == 0 {
        assert(a + b =~= a);
    } else {
        law_live_summed(a, b.drop_last(), x);
        assert((a + b).drop_last() =~= a + b.drop_last());
    }
}

/// The list of a key is that of its last record.
pub proof fn law_list_of(recs: Seq<Slot>, lists: Seq<Seq<Fk>>, k: Seq<u8>)
    ensures
        match list_of(recs, lists, k) {
            Some(l) => exists|i: int|
                0 <= i < recs.len() && (#[trigger] recs[i]).key@ == k && l == lists[i]
                    && forall|j: int| i < j < recs.len() ==> (#[trigger] recs[j]).key@ != k,
            None => forall|j: int| 0 <= j < recs.len() ==> (#[trigger] recs[j]).key@ != k,
        },
    decreases recs.len(),
{
    if recs.len() > 0 {
        let d = recs.drop_last();
        let n = recs.len() - 1;
        law_list_of(d, lists, k);
        assert(forall|i: int| 0 <= i < n ==> d[i] == recs[i]);
        if recs[n].key@ == k {
            assert(recs[n] == recs.last());
        } else {
            match list_of(d, lists, k) {
                Some(l) => {
                    let i = choose|i: int|
                        0 <= i < d.len() && (#[trigger] d[i]).key@ == k && l == lists[i]
                            && forall|j: int| i < j < d.len() ==> (#[trigger] d[j]).key@ != k;
                    assert(recs[i].key@ == k);
                    assert forall|j: int| i < j < recs.len() implies (#[trigger] recs[j]).key@
                        != k by {
                        if j < n {
                            assert(d[j].key@ != k);
                        }
                    }
                },
                None => {
                    assert forall|j: int| 0 <= j < recs.len() implies (#[trigger] recs[j]).key@
                        != k by {
                        if j < n {
                            assert(d[j].key@ != k);
                        }
                    }
                },
            }
        }
    }
}

/// The highest create of a list bounds the list and is in it.
pub proof fn law_list_max(l: Seq<Fk>)
    ensures
        forall|i: int| 0 <= i < l.len() ==> (#[trigger] l[i]).0 <= list_max(l),
        l.len() > 0 ==> l.contains(Fk(list_max(l))),
        l.len() == 0 ==> list_max(l) == 0,
    decreases l.len(),
{
    if l.len() > 0 {
        let d = l.drop_last();
        law_list_max(d);
        assert forall|i: int| 0 <= i < l.len() implies (#[trigger] l[i]).0 <= list_max(l) by {
            if i < d.len() {
                assert(d[i] == l[i]);
            }
        }
        if list_max(l) == l.last().0 {
            assert(l[l.len() - 1] == Fk(list_max(l)));
        } else if d.len() > 0 {
            let i = choose|i: int| 0 <= i < d.len() && d[i] == Fk(list_max(d));
            assert(l[i] == Fk(list_max(l)));
        }
    }
}

/// The highest create of several lists bounds them all and is in one of them; their lengths
/// are summed.
pub proof fn law_lists(lists: Seq<Seq<Fk>>, more: Seq<Seq<Fk>>, l: Seq<Fk>)
    ensures
        forall|i: int, j: int|
            0 <= i < lists.len() && 0 <= j < lists[i].len() ==> (#[trigger] lists[i][j]).0
                <= lists_max(lists),
        lists_max(lists) == 0 || exists|i: int|
            0 <= i < lists.len() && (#[trigger] lists[i]).contains(Fk(lists_max(lists))),
        sum_lens(lists + more) == sum_lens(lists) + sum_lens(more),
        sum_lens(seq![l]) == l.len(),
        sum_lens(Seq::empty()) == 0,
    decreases lists.len() + more.len(),
{
    reveal_with_fuel(sum_lens, 2);
    assert(seq![l].drop_last() =~= Seq::empty());
    assert(seq![l].last() == l);
    if lists.len() > 0 {
        let d = lists.drop_last();
        let n = lists.len() - 1;
        let m = lists_max(lists);
        law_lists(d, Seq::empty(), l);
        law_list_max(lists[n]);
        assert forall|i: int, j: int| 0 <= i < lists.len() && 0 <= j < lists[i].len() implies (
        #[trigger] lists[i][j]).0 <= m by {
            if i < n {
                assert(d[i][j] == lists[i][j]);
            }
        }
        if m == list_max(lists[n]) {
            if m > 0 {
                assert(lists[n].len() > 0);
                assert(lists[n].contains(Fk(m)));
            }
        } else if m > 0 {
            let i = choose|i: int| 0 <= i < d.len() && (#[trigger] d[i]).contains(Fk(lists_max(d)));
            assert(lists[i].contains(Fk(m)));
        }
    }
    if more.len() == 0 {
        assert(lists + more =~= lists);
    } else {
        law_lists(lists, more.drop_last(), l);
        assert((lists + more).drop_last() =~= lists + more.drop_last());
    }
}

/// Pushing rising creates appends them, but for the first where the list ends in it.
pub proof fn law_push_all(l: Seq<Fk>, fks: Seq<u64>)
    requires
        forall|i: int, j: int|
            0 <= i < j < fks.len() ==> #[trigger] fks[i] < #[trigger] fks[j],
    ensures
        push_all(l, fks) == l + (if l.len() > 0 && fks.len() > 0 && l[l.len() - 1].0 == fks[0] {
            fks.subrange(1, fks.len() as int)
        } else {
            fks
        }).map_values(|x: u64| Fk(x)),
    decreases fks.len(),
{
    let f = |x: u64| Fk(x);
    let skips = l.len() > 0 && fks.len() > 0 && l[l.len() - 1].0 == fks[0];
    let t = if skips {
        fks.subrange(1, fks.len() as int)
    } else {
        fks
    };
    if fks.len() == 0 {
        assert(l + t.map_values(f) =~= l);
    } else {
        let d = fks.drop_last();
        law_push_all(l, d);
        let p = push_all(l, d);
        let x = fks.last();
        if d.len() == 0 {
            assert(p =~= l);
            if skips {
                assert(t.len() == 0);
                assert(l + t.map_values(f) =~= l);
                assert(l.last() == Fk(x));
            } else {
                assert(l + t.map_values(f) =~= l.push(Fk(x)));
            }
        } else {
            assert(d[0] == fks[0]);
            let u = if skips {
                d.subrange(1, d.len() as int)
            } else {
                d
            };
            assert(t =~= u.push(x));
            assert(t.map_values(f) =~= u.map_values(f).push(Fk(x)));
            if u.len() > 0 {
                assert(p.last() == Fk(u.last()));
                assert(u.last() == fks[fks.len() - 2]);
                assert(fks[fks.len() - 2] < fks[fks.len() - 1]);
            } else {
                assert(p =~= l);
                assert(fks[0] < fks[fks.len() - 1]);
            }
            assert(push_all(l, fks) =~= l + t.map_values(f));
        }
    }
}

/// Records with a create are counted, and so are those that bring their key a new one.
pub proof fn law_records_counted(recs: Seq<ScriptHashRecord>, n: int)
    requires
        0 <= n <= recs.len(),
    ensures
        ({
            let live = Set::new(|i: int| 0 <= i < n && recs[i].create_tx_fk.0 != 0);
            live.finite() && live_recs(recs, n) == live.len()
        }),
        ({
            let fresh = Set::new(|i: int| 0 <= i < n && fresh_at(recs, i));
            fresh.finite() && count_fresh(recs, n) == fresh.len()
        }),
    decreases n,
{
    let live = Set::new(|i: int| 0 <= i < n && recs[i].create_tx_fk.0 != 0);
    let fresh = Set::new(|i: int| 0 <= i < n && fresh_at(recs, i));
    if n == 0 {
        assert(live =~= Set::empty());
        assert(fresh =~= Set::empty());
    } else {
        law_records_counted(recs, n - 1);
        let l0 = Set::new(|i: int| 0 <= i < n - 1 && recs[i].create_tx_fk.0 != 0);
        let f0 = Set::new(|i: int| 0 <= i < n - 1 && fresh_at(recs, i));
        if recs[n - 1].create_tx_fk.0 != 0 {
            assert(live =~= l0.insert(n - 1));
        } else {
            assert(live =~= l0);
        }
        if fresh_at(recs, n - 1) {
            assert(fresh =~= f0.insert(n - 1));
        } else {
            assert(fresh =~= f0);
        }
    }
}

/// Where records of one hash stand together, those that bring a new create are as many as
/// there are different pairs of a key and a create.
pub proof fn law_fresh_pairs(recs: Seq<ScriptHashRecord>)
    requires
        keys_sorted(recs),
    ensures
        ({
            let pairs = Set::new(
                |p: (Seq<u8>, u64)| p.1 != 0 && batch_gives(recs, p.0, p.1),
            );
            pairs.finite() && count_fresh(recs, recs.len() as int) == pairs.len()
        }),
{
    let pairs = Set::new(|p: (Seq<u8>, u64)| p.1 != 0 && batch_gives(recs, p.0, p.1));
    let n = recs.len() as int;
    lemma_fresh_pairs(recs, n);
    assert(recs.subrange(0, n) =~= recs);
    assert(pairs =~= pairs_named(recs, n)) by {
        assert forall|p: (Seq<u8>, u64)| pairs.contains(p) <==> pairs_named(recs, n).contains(
            p,
        ) by {
            let (k, x) = p;
            if asked(recs, k, x) {
                let i = choose|i: int|
                    0 <= i < recs.len() && key16((#[trigger] recs[i]).scripthash@) == k
                        && recs[i].create_tx_fk.0 == x;
                assert(recs[i].scripthash@.subrange(0, 16) == k);
            }
            if x != 0 && batch_gives(recs, k, x) {
                let i = choose|i: int|
                    0 <= i < recs.len() && (#[trigger] recs[i]).scripthash@.subrange(0, 16) == k
                        && recs[i].create_tx_fk.0 == x;
                assert(key16(recs[i].scripthash@) == k);
            }
        }
    }
}

/// The creates of a chain of entries are those that are not null, in order and each once.
pub proof fn law_entry_list(entries: Seq<ShEntry>, fks: Seq<u64>)
    requires
        entry_list(entries, fks),
    ensures
        forall|x: u64| #[trigger]
            fks.contains(x) <==> x != 0 && exists|i: int|
                0 <= i < entries.len() && (#[trigger] entries[i]).create_tx_fk.0 == x,
        forall|i: int, j: int|
            0 <= i < j < fks.len() ==> #[trigger] fks[i] < #[trigger] fks[j],
{
    assert forall|x: u64| #[trigger] fks.contains(x) <==> x != 0 && exists|i: int|
        0 <= i < entries.len() && (#[trigger] entries[i]).create_tx_fk.0 == x by {
        assert(fks.contains(x) <==> entry_has(entries, x));
    }
}

/// Where the next group begins.
pub open spec fn group_end(starts: Seq<int>, n: int, g: int) -> int {
    if g + 1 < starts.len() {
        starts[g + 1]
    } else {
        n
    }
}

/// Group `g` of records: those with a create between its start and the next have one hash; its
/// key is that of the hash, and its list has their creates, in order where they are.
pub open spec fn is_group_at(
    recs: Seq<ScriptHashRecord>,
    n: int,
    keys: Seq<Seq<u8>>,
    lists: Seq<Seq<Fk>>,
    starts: Seq<int>,
    g: int,
) -> bool {
    let lo = starts[g];
    let hi = group_end(starts, n, g);
    &&& 0 <= lo < hi <= n
    &&& recs[lo].create_tx_fk.0 != 0
    &&& keys[g] == recs[lo].scripthash@.subrange(0, 16)
    &&& forall|m: int|
        lo <= m < hi ==> (#[trigger] recs[m]).create_tx_fk.0 == 0 || recs[m].scripthash@
            == recs[lo].scripthash@
    &&& g + 1 < starts.len() ==> recs[hi].scripthash@ != recs[lo].scripthash@
    &&& lists[g].len() > 0
    &&& forall|x: u64| #[trigger]
        lists[g].contains(Fk(x)) <==> x != 0 && exists|m: int|
            lo <= m < hi && (#[trigger] recs[m]).create_tx_fk.0 == x
    &&& lists[g].last() == recs[last_live(recs, hi)].create_tx_fk
    &&& (forall|a: int, b: int|
        lo <= a < b < hi && (#[trigger] recs[a]).create_tx_fk.0 != 0 && (
        #[trigger] recs[b]).create_tx_fk.0 != 0 ==> recs[a].create_tx_fk.0
            <= recs[b].create_tx_fk.0) ==> forall|i: int, j: int|
        0 <= i < j < lists[g].len() ==> (#[trigger] lists[g][i]).0 < (#[trigger] lists[g][j]).0
}

/// The last record before `n` that has a create.
pub open spec fn last_live(recs: Seq<ScriptHashRecord>, n: int) -> int
    decreases n,
{
    if n <= 0 {
        -1
    } else if recs[n - 1].create_tx_fk.0 != 0 {
        n - 1
    } else {
        last_live(recs, n - 1)
    }
}

/// A load groups the records with a create by hash, neighbours together.
pub open spec fn is_grouping(
    recs: Seq<ScriptHashRecord>,
    n: int,
    keys: Seq<Seq<u8>>,
    lists: Seq<Seq<Fk>>,
    starts: Seq<int>,
) -> bool {
    &&& keys.len() == lists.len()
    &&& starts.len() == lists.len()
    &&& forall|a: int, b: int|
        0 <= a < b < starts.len() ==> #[trigger] starts[a] < #[trigger] starts[b]
    &&& forall|m: int|
        0 <= m < (if starts.len() == 0 {
            n
        } else {
            starts[0]
        }) ==> (#[trigger] recs[m]).create_tx_fk.0 == 0
    &&& forall|g: int|
        0 <= g < starts.len() ==> #[trigger] is_group_at(recs, n, keys, lists, starts, g)
}

proof fn lemma_last_live(recs: Seq<ScriptHashRecord>, n: int)
    requires
        0 <= n <= recs.len(),
    ensures
        ({
            let p = last_live(recs, n);
            &&& -1 <= p < n
            &&& p >= 0 ==> recs[p].create_tx_fk.0 != 0 && last_hash(recs, n) == Some(
                recs[p].scripthash@,
            )
            &&& p < 0 ==> last_hash(recs, n) is None
            &&& forall|m: int| p < m < n ==> (#[trigger] recs[m]).create_tx_fk.0 == 0
        }),
    decreases n,
{
    if n > 0 && recs[n - 1].create_tx_fk.0 == 0 {
        lemma_last_live(recs, n - 1);
    }
}

/// The groups that a load makes of records.
pub proof fn law_gathered(recs: Seq<ScriptHashRecord>, n: int) -> (starts: Seq<int>)
    requires
        0 <= n <= recs.len(),
    ensures
        is_grouping(recs, n, gathered_keys(recs, n), gathered(recs, n), starts),
    decreases n,
{
    if n == 0 {
        Seq::empty()
    } else {
        let s = law_gathered(recs, n - 1);
        let k0 = gathered_keys(recs, n - 1);
        let l0 = gathered(recs, n - 1);
        let keys = gathered_keys(recs, n);
        let lists = gathered(recs, n);
        let r = recs[n - 1];
        let x = r.create_tx_fk;
        let c = s.len() - 1;
        lemma_last_live(recs, n - 1);
        lemma_last_live(recs, n);
        if c >= 0 {
            assert(is_group_at(recs, n - 1, k0, l0, s, c));
        }
        if x.0 == 0 {
            assert forall|g: int| 0 <= g < s.len() implies #[trigger] is_group_at(
                recs,
                n,
                keys,
                lists,
                s,
                g,
            ) by {
                assert(is_group_at(recs, n - 1, k0, l0, s, g));
                lemma_group_more(recs, n - 1, k0, l0, s, g);
            }
            s
        } else if last_hash(recs, n - 1) == Some(r.scripthash@) {
            assert(c >= 0);
            assert(keys == k0);
            let p = last_live(recs, n - 1);
            assert(s[c] <= p) by {
                if p < s[c] {
                    assert(recs[s[c]].create_tx_fk.0 == 0);
                }
            }
            assert(recs[p].scripthash@ == recs[s[c]].scripthash@);
            assert forall|g: int| 0 <= g < s.len() implies #[trigger] is_group_at(
                recs,
                n,
                keys,
                lists,
                s,
                g,
            ) by {
                assert(is_group_at(recs, n - 1, k0, l0, s, g));
                if g < c {
                    assert(lists[g] == l0[g]);
                } else {
                    lemma_group_push(recs, n - 1, k0, l0, s, lists);
                }
            }
            s
        } else {
            let t = s.push(n - 1);
            assert(lists == l0.push(seq![x]));
            assert(keys == k0.push(key16(r.scripthash@)));
            assert forall|a: int, b: int| 0 <= a < b < t.len() implies #[trigger] t[a]
                < #[trigger] t[b] by {
                assert(t[a] == s[a]);
                assert(is_group_at(recs, n - 1, k0, l0, s, a));
                if b < s.len() {
                    assert(t[b] == s[b]);
                }
            }
            assert forall|g: int| 0 <= g < t.len() implies #[trigger] is_group_at(
                recs,
                n,
                keys,
                lists,
                t,
                g,
            ) by {
                if g < s.len() {
                    assert(is_group_at(recs, n - 1, k0, l0, s, g));
                    assert(t[g] == s[g]);
                    assert(keys[g] == k0[g]);
                    assert(lists[g] == l0[g]);
                    assert(group_end(t, n, g) == group_end(s, n - 1, g));
                    if g == c {
                        let p = last_live(recs, n - 1);
                        assert(s[c] <= p) by {
                            if p < s[c] {
                                assert(recs[s[c]].create_tx_fk.0 == 0);
                            }
                        }
                        assert(recs[p].scripthash@ == recs[s[c]].scripthash@);
                    }
                } else {
                    let one = lists[g];
                    assert(one == seq![x]);
                    assert(one[0] == x);
                    assert(last_live(recs, n) == n - 1);
                    assert forall|y: u64| #[trigger] one.contains(Fk(y)) <==> y != 0 && exists|
                        m: int,
                    |
                        n - 1 <= m < n && (#[trigger] recs[m]).create_tx_fk.0 == y by {
                        if one.contains(Fk(y)) {
                            assert(recs[n - 1].create_tx_fk.0 == y);
                        }
                        if y == x.0 {
                            assert(one[0] == Fk(y));
                        }
                    }
                }
            }
            t
        }
    }
}

/// A record without a create leaves the groups.
proof fn lemma_group_more(
    recs: Seq<ScriptHashRecord>,
    n: int,
    keys: Seq<Seq<u8>>,
    lists: Seq<Seq<Fk>>,
    starts: Seq<int>,
    g: int,
)
    requires
        0 <= n < recs.len(),
        0 <= g < starts.len(),
        is_group_at(recs, n, keys, lists, starts, g),
        recs[n].create_tx_fk.0 == 0,
    ensures
        is_group_at(recs, n + 1, keys, lists, starts, g),
{
    let lo = starts[g];
    if g + 1 == starts.len() {
        assert(group_end(starts, n + 1, g) == n + 1);
        assert(last_live(recs, n + 1) == last_live(recs, n));
        assert forall|x: u64| #[trigger] lists[g].contains(Fk(x)) <==> x != 0 && exists|m: int|
            lo <= m < n + 1 && (#[trigger] recs[m]).create_tx_fk.0 == x by {
            if lists[g].contains(Fk(x)) {
                let m = choose|m: int| lo <= m < n && (#[trigger] recs[m]).create_tx_fk.0 == x;
                assert(lo <= m < n + 1);
            }
            if x != 0 && exists|m: int|
                lo <= m < n + 1 && (#[trigger] recs[m]).create_tx_fk.0 == x {
                let m = choose|m: int|
                    lo <= m < n + 1 && (#[trigger] recs[m]).create_tx_fk.0 == x;
                assert(m < n);
            }
        }
    }
}

/// A record of the hash of the last group joins it.
proof fn lemma_group_push(
    recs: Seq<ScriptHashRecord>,
    n: int,
    keys: Seq<Seq<u8>>,
    lists: Seq<Seq<Fk>>,
    starts: Seq<int>,
    out: Seq<Seq<Fk>>,
)
    requires
        0 <= n < recs.len(),
        starts.len() > 0,
        starts.len() == lists.len(),
        is_group_at(recs, n, keys, lists, starts, starts.len() - 1),
        recs[n].create_tx_fk.0 != 0,
        recs[n].scripthash@ == recs[starts.last()].scripthash@,
        out == lists_with(lists, true, recs[n].create_tx_fk),
    ensures
        is_group_at(recs, n + 1, keys, out, starts, starts.len() - 1),
{
    let g = starts.len() - 1;
    let lo = starts[g];
    let x = recs[n].create_tx_fk;
    let a = lists[g];
    let b = out[g];
    assert(b == pushed(a, x));
    lemma_last_live(recs, n);
    assert(last_live(recs, n + 1) == n);
    assert forall|y: u64| #[trigger] b.contains(Fk(y)) <==> y != 0 && exists|m: int|
        lo <= m < n + 1 && (#[trigger] recs[m]).create_tx_fk.0 == y by {
        if b.contains(Fk(y)) {
            let i = choose|i: int| 0 <= i < b.len() && b[i] == Fk(y);
            if i < a.len() {
                assert(a[i] == Fk(y));
                assert(a.contains(Fk(y)));
                let m = choose|m: int| lo <= m < n && (#[trigger] recs[m]).create_tx_fk.0 == y;
                assert(lo <= m < n + 1);
            } else {
                assert(recs[n].create_tx_fk.0 == y);
            }
        }
        if y != 0 && exists|m: int|
            lo <= m < n + 1 && (#[trigger] recs[m]).create_tx_fk.0 == y {
            let m = choose|m: int| lo <= m < n + 1 && (#[trigger] recs[m]).create_tx_fk.0 == y;
            if m < n {
                assert(a.contains(Fk(y)));
                let i = choose|i: int| 0 <= i < a.len() && a[i] == Fk(y);
                assert(b[i] == Fk(y));
            } else {
                assert(b[b.len() - 1] == Fk(y));
            }
        }
    }
    if forall|p: int, q: int|
        lo <= p < q < n + 1 && (#[trigger] recs[p]).create_tx_fk.0 != 0 && (
        #[trigger] recs[q]).create_tx_fk.0 != 0 ==> recs[p].create_tx_fk.0
            <= recs[q].create_tx_fk.0 {
        let p = last_live(recs, n);
        assert(lo <= p) by {
            if p < lo {
                assert(recs[lo].create_tx_fk.0 == 0);
            }
        }
        assert(recs[p].create_tx_fk.0 <= recs[n].create_tx_fk.0);
        assert forall|i: int, j: int| 0 <= i < j < b.len() implies (#[trigger] b[i]).0 < (
        #[trigger] b[j]).0 by {
            assert(b[i] == a[i]);
            if j < a.len() {
                assert(b[j] == a[j]);
                assert(a[i].0 < a[j].0);
            } else {
                assert(a.last() == recs[p].create_tx_fk);
                if i < a.len() - 1 {
                    assert(a[i].0 < a[a.len() - 1].0);
                }
            }
        }
    }
}

/// Of several groups with a key the first answers for it.
pub proof fn law_key_at(keys: Seq<Seq<u8>>, k: Seq<u8>)
    ensures
        ({
            let f = key_at(keys, k);
            &&& 0 <= f <= keys.len()
            &&& forall|j: int| 0 <= j < f ==> #[trigger] keys[j] != k
            &&& f < keys.len() ==> keys[f] == k
        }),
    decreases keys.len(),
{
    if keys.len() > 0 {
        let d = keys.drop_last();
        law_key_at(d, k);
        let f = key_at(keys, k);
        assert forall|j: int| 0 <= j < f implies #[trigger] keys[j] != k by {
            if j < d.len() {
                assert(d[j] == keys[j]);
            }
        }
    }
}

/// The progress of a load ends at the body of its last shard that has records.
pub proof fn law_last_bump(
    t: &ScriptHashTable,
    inputs: Seq<SortedRun>,
    lo: int,
    hi: int,
    start: u64,
)
    ensures
        (exists|s: int|
            lo <= s < hi && #[trigger] shard_has(inputs, t.n_shards as int, s) && (forall|q: int|
                s < q < hi ==> !#[trigger] shard_has(inputs, t.n_shards as int, q)) && last_bump(
                t,
                inputs,
                lo,
                hi,
                start,
            ) == t.bodies@[crate::scripthash_install::main_body(t.layout, s)].bump) || ((forall|
            s: int,
        |
            lo <= s < hi ==> !#[trigger] shard_has(inputs, t.n_shards as int, s)) && last_bump(
            t,
            inputs,
            lo,
            hi,
            start,
        ) == start),
    decreases hi - lo,
{
    let n = t.n_shards as int;
    if hi > lo && !shard_has(inputs, n, hi - 1) {
        law_last_bump(t, inputs, lo, hi - 1, start);
        if exists|s: int|
            lo <= s < hi - 1 && #[trigger] shard_has(inputs, n, s) && (forall|q: int|
                s < q < hi - 1 ==> !#[trigger] shard_has(inputs, n, q)) && last_bump(
                t,
                inputs,
                lo,
                hi - 1,
                start,
            ) == t.bodies@[crate::scripthash_install::main_body(t.layout, s)].bump {
            let s = choose|s: int|
                lo <= s < hi - 1 && #[trigger] shard_has(inputs, n, s) && (forall|q: int|
                    s < q < hi - 1 ==> !#[trigger] shard_has(inputs, n, q)) && last_bump(
                    t,
                    inputs,
                    lo,
                    hi - 1,
                    start,
                ) == t.bodies@[crate::scripthash_install::main_body(t.layout, s)].bump;
            assert forall|q: int| s < q < hi implies !#[trigger] shard_has(inputs, n, q) by {}
            assert(shard_has(inputs, n, s));
        }
    }
}

/// A load goes on with the first shard that is not sealed.
pub proof fn law_first_unsealed(t: &ScriptHashTable, from: int)
    requires
        0 <= from <= t.main@.len(),
    ensures
        ({
            let s = t.first_unsealed(from);
            &&& from <= s <= t.main@.len()
            &&& forall|i: int| from <= i < s ==> (#[trigger] t.main@[i]) is Some
            &&& s < t.main@.len() ==> t.main@[s] is None
        }),
    decreases t.main@.len() - from,
{
    if from < t.main@.len() && t.main@[from] is Some {
        law_first_unsealed(t, from + 1);
    }
}

/// The creates of several keys are those of each key, one key behind the other.
pub proof fn law_creates_of(
    t: &ScriptHashTable,
    a: Seq<Seq<u8>>,
    b: Seq<Seq<u8>>,
    k: Seq<u8>,
)
    ensures
        creates_of(t, a + b) == creates_of(t, a) + creates_of(t, b),
        creates_of(t, seq![k]) == t.creates(k),
        creates_of(t, Seq::empty()) == Seq::<Fk>::empty(),
    decreases b.len(),
{
    reveal_with_fuel(creates_of, 2);
    assert(seq![k].drop_last() =~= Seq::empty());
    assert(seq![k].last() == k);
    assert(creates_of(t, seq![k]) =~= t.creates(k));
    if b.len() == 0 {
        assert(a + b =~= a);
        assert(creates_of(t, a) + creates_of(t, b) =~= creates_of(t, a));
    } else {
        law_creates_of(t, a, b.drop_last(), k);
        assert((a + b).drop_last() =~= a + b.drop_last());
        assert(creates_of(t, a + b) =~= creates_of(t, a) + creates_of(t, b));
    }
}

/// After a load of sorted records a key that they name, and that nothing masks, has exactly
/// the creates that they give it, in order; every other key has what it had.
pub proof fn law_records_loaded(
    a: &ScriptHashBulkSession,
    ta: &ScriptHashTable,
    b: &ScriptHashBulkSession,
    tb: &ScriptHashTable,
    recs: Seq<ScriptHashRecord>,
    k: Seq<u8>,
)
    requires
        records_loaded(a, ta, b, tb, recs),
        k.len() == 16,
    ensures
        !masked(a, ta, k) && (exists|x: u64| x != 0 && #[trigger] batch_gives(recs, k, x))
            ==> forall|x: u64| #[trigger]
            loaded(b, tb, k).contains(Fk(x)) <==> x != 0 && batch_gives(recs, k, x),
        !masked(a, ta, k) && (exists|x: u64| x != 0 && #[trigger] batch_gives(recs, k, x))
            ==> forall|i: int, j: int|
            0 <= i < j < loaded(b, tb, k).len() ==> (#[trigger] loaded(b, tb, k)[i]).0 < (
            #[trigger] loaded(b, tb, k)[j]).0,
        masked(a, ta, k) || !(exists|x: u64| x != 0 && #[trigger] batch_gives(recs, k, x))
            ==> loaded(b, tb, k) == loaded(a, ta, k),
{
    assert forall|x: u64| #[trigger] asked(recs, k, x) <==> x != 0 && batch_gives(recs, k, x) by {
        if asked(recs, k, x) {
            let i = choose|i: int|
                0 <= i < recs.len() && key16((#[trigger] recs[i]).scripthash@) == k
                    && recs[i].create_tx_fk.0 == x;
            assert(recs[i].scripthash@.subrange(0, 16) == k);
        }
        if x != 0 && batch_gives(recs, k, x) {
            let i = choose|i: int|
                0 <= i < recs.len() && (#[trigger] recs[i]).scripthash@.subrange(0, 16) == k
                    && recs[i].create_tx_fk.0 == x;
            assert(key16(recs[i].scripthash@) == k);
        }
    }
    let l = loaded(b, tb, k);
    if exists|x: u64| x != 0 && #[trigger] batch_gives(recs, k, x) {
        let x = choose|x: u64| x != 0 && #[trigger] batch_gives(recs, k, x);
        assert(asked(recs, k, x));
        assert(any_asked(recs, k));
        if !masked(a, ta, k) {
            assert(set_list(l, recs, k));
            assert forall|y: u64| #[trigger] l.contains(Fk(y)) <==> y != 0 && batch_gives(
                recs,
                k,
                y,
            ) by {
                assert(asked(recs, k, y) <==> y != 0 && batch_gives(recs, k, y));
                if l.contains(Fk(y)) {
                    let i = choose|i: int| 0 <= i < l.len() && l[i] == Fk(y);
                    assert(asked(recs, k, l[i].0));
                }
            }
        }
    } else {
        if any_asked(recs, k) {
            let x = choose|x: u64| asked(recs, k, x);
            assert(batch_gives(recs, k, x));
        }
    }
}

/// When a load passes from one shard to another it notes how far it is: the shard behind the
/// one that is done, and the creates and keys that it has written. Within a shard it notes
/// nothing.
pub proof fn law_progress_noted(
    a: &ScriptHashBulkSession,
    b: &ScriptHashBulkSession,
    shard: usize,
    next: int,
)
    requires
        a.active_shard == Some(shard),
        shard_noted(a, b, next),
    ensures
        next == shard ==> b.progress == a.progress && b.shards_flushed == a.shards_flushed,
        next != shard ==> {
            &&& b.progress matches Some(p) && p.next_shard == shard + 1 && p.live_count
                == b.live_count && p.keys_written == b.keys_written
            &&& a.shards_flushed < u32::MAX ==> b.shards_flushed == a.shards_flushed + 1
        },
{
}

/// A record of the runs gives the key this create: the key is its first 16 bytes, and the
/// create the number behind its first 32.
pub open spec fn runs_give(inputs: Seq<SortedRun>, k: Seq<u8>, x: u64) -> bool {
    exists|r: int, i: int|
        0 <= r < inputs.len() && 0 <= i < inputs[r].recs().len() && (
        #[trigger] inputs[r].recs()[i]).subrange(0, 16) == k && u64_at(inputs[r].recs()[i], 32) == x
}

proof fn lemma_runs_give(inputs: Seq<SortedRun>, k: Seq<u8>, x: u64)
    ensures
        run_asked(inputs, k, x) <==> x != 0 && runs_give(inputs, k, x),
{
    if run_asked(inputs, k, x) {
        let (r, i) = choose|r: int, i: int|
            0 <= r < inputs.len() && 0 <= i < inputs[r].recs().len() && key16(
                #[trigger] inputs[r].recs()[i],
            ) == k && u64_at(inputs[r].recs()[i], 32) == x;
        assert(inputs[r].recs()[i].subrange(0, 16) == k);
    }
    if x != 0 && runs_give(inputs, k, x) {
        let (r, i) = choose|r: int, i: int|
            0 <= r < inputs.len() && 0 <= i < inputs[r].recs().len() && (
            #[trigger] inputs[r].recs()[i]).subrange(0, 16) == k && u64_at(
                inputs[r].recs()[i],
                32,
            ) == x;
        assert(key16(inputs[r].recs()[i]) == k);
    }
}

/// A materialize of sorted runs gives every key of an unsealed shard exactly the creates that
/// the runs hold of it, in order and each once, and leaves the shards before it and the keys
/// of the overflow as they were.
pub proof fn law_materialized(
    a: &ScriptHashTable,
    b: &ScriptHashTable,
    inputs: Seq<SortedRun>,
    lo: int,
    prior: Option<ColdProgress>,
    m: ShShardMaterialize,
    k: Seq<u8>,
)
    requires
        load_done(a, b, inputs, lo, prior, m),
        runs_ready(inputs, a.n_shards as int, lo, a.n_shards as int),
        k.len() == 16,
        0 <= lo,
        0 <= prefix_shard(k, a.n_shards as int) < a.n_shards,
    ensures
        ({
            let s = prefix_shard(k, a.n_shards as int);
            &&& s >= lo && a.main@[s] is None && !in_ovf(a, k) ==> (forall|x: u64| #[trigger]
                b.creates(k).contains(Fk(x)) <==> x != 0 && runs_give(inputs, k, x)) && forall|
                i: int,
                j: int,
            |
                0 <= i < j < b.creates(k).len() ==> (#[trigger] b.creates(k)[i]).0 < (
                #[trigger] b.creates(k)[j]).0
            &&& s < lo || in_ovf(a, k) ==> b.creates(k) == a.creates(k)
        }),
{
    let n = a.n_shards as int;
    let s = prefix_shard(k, n);
    if s >= lo {
        assert(shard_settled(a, b, inputs, s));
        assert(runs_ready(inputs, n, s, s + 1));
        assert(shard_done(a, b, inputs, s));
        let l = b.creates(k);
        if unsealed(a, s) && !in_ovf(a, k) {
            assert(run_list(l, inputs, k));
            assert forall|x: u64| #[trigger] l.contains(Fk(x)) <==> x != 0 && runs_give(
                inputs,
                k,
                x,
            ) by {
                lemma_runs_give(inputs, k, x);
                if l.contains(Fk(x)) {
                    let i = choose|i: int| 0 <= i < l.len() && l[i] == Fk(x);
                    assert(run_asked(inputs, k, l[i].0));
                }
            }
        }
    }
}

/// The totals that a materialize reports count the keys and the creates of the runs on top of
/// what was there, and its highest create is the highest of the runs.
pub proof fn law_materialized_totals(
    a: &ScriptHashTable,
    b: &ScriptHashTable,
    inputs: Seq<SortedRun>,
    prior: Option<ColdProgress>,
    m: ShShardMaterialize,
)
    requires
        load_done(a, b, inputs, 0, prior, m),
        a.n_shards >= 1,
        crate::scripthash_head::shard_count_ok(a.n_shards as int),
        runs_ready(inputs, a.n_shards as int, 0, a.n_shards as int),
    ensures
        ({
            let keys = Set::new(
                |k: Seq<u8>| k.len() == 16 && exists|x: u64| x != 0 && runs_give(inputs, k, x),
            );
            let creates = Set::new(
                |p: (Seq<u8>, u64)| p.0.len() == 16 && p.1 != 0 && runs_give(inputs, p.0, p.1),
            );
            let start = start_totals(a, prior);
            &&& keys.finite()
            &&& creates.finite()
            &&& start.live_keys + keys.len() <= u64::MAX ==> m.keys == start.live_keys + keys.len()
            &&& start.live_creates + creates.len() <= u64::MAX ==> m.creates == start.live_creates
                + creates.len()
            &&& forall|k: Seq<u8>, x: u64|
                k.len() == 16 && x != 0 && #[trigger] runs_give(inputs, k, x) ==> x <= m.max_fk
            &&& m.max_fk == 0 || exists|k: Seq<u8>| runs_give(inputs, k, m.max_fk)
        }),
{
    let n = a.n_shards as int;
    let keys = Set::new(
        |k: Seq<u8>| k.len() == 16 && exists|x: u64| x != 0 && runs_give(inputs, k, x),
    );
    let creates = Set::new(
        |p: (Seq<u8>, u64)| p.0.len() == 16 && p.1 != 0 && runs_give(inputs, p.0, p.1),
    );
    let rk = run_keys(inputs, n, 0, n);
    let rc = run_creates(inputs, n, 0, n);
    assert forall|k: Seq<u8>| k.len() == 16 implies 0 <= #[trigger] prefix_shard(k, n) < n by {
        crate::head_laws::law_shard_ranges(k, n);
    }
    assert forall|k: Seq<u8>, x: u64| #[trigger] run_asked(inputs, k, x) <==> x != 0 && runs_give(
        inputs,
        k,
        x,
    ) by {
        lemma_runs_give(inputs, k, x);
    }
    assert(keys =~= rk) by {
        assert forall|k: Seq<u8>| keys.contains(k) <==> rk.contains(k) by {
            if keys.contains(k) {
                let x = choose|x: u64| x != 0 && runs_give(inputs, k, x);
                assert(run_asked(inputs, k, x));
            }
            if rk.contains(k) {
                let x = choose|x: u64| run_asked(inputs, k, x);
                assert(runs_give(inputs, k, x));
            }
        }
    }
    assert(creates =~= rc) by {
        assert forall|p: (Seq<u8>, u64)| creates.contains(p) <==> rc.contains(p) by {
            assert(run_asked(inputs, p.0, p.1) <==> p.1 != 0 && runs_give(inputs, p.0, p.1));
        }
    }
    assert forall|k: Seq<u8>, x: u64|
        k.len() == 16 && x != 0 && #[trigger] runs_give(inputs, k, x) implies x <= m.max_fk by {
        assert(rc.contains((k, x)));
    }
    if m.max_fk > 0 {
        let p = choose|p: (Seq<u8>, u64)| #[trigger] rc.contains(p) && p.1 == m.max_fk;
        assert(runs_give(inputs, p.0, m.max_fk));
    }
}

} // verus!
