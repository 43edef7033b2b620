//! Laws on heads: which slot, record or list answers for a key.

use vstd::prelude::*;
use crate::error::StoreError;
use crate::hashhead::{extended, prefix_word, HashHead};
use crate::primitives::Fk;
use crate::scripthash_head::{asks, cleared, first_key_err, first_pack_err, fresh, has_slot, key16, last_upsert, live_slots, prefix_shard, shard_budget, shard_count_ok, slots_needed, upserted, used_seq, without_slot, HeadEntry, KeyEntry, ScriptHashHead};
use crate::scripthash_install::{first_at, first_list, first_word};
use crate::scripthash_pack8::pack8;
use crate::sealed_head::{all_records, keys_rise, newest_word, sealed_word, SealedHead};
use crate::sharded_hashhead::keys_in;
use crate::sharded_scripthash_head::slots_in;
use crate::slot_table::{chain_ok, count_used, find, find_slot, lookup, probe, slot_dead, slot_empty, slots_map, Slot};
use crate::sorting::Ranked;

verus! {

/// Probing goes from the home slot on, around the end, and stops at the first slot that is
/// empty or has the key.
pub proof fn law_probe(slots: Seq<Slot>, key: Seq<u8>, j: int)
    requires
        0 <= j <= slots.len(),
    ensures
        ({
            let n = slots.len() as int;
            let home = crate::open_address::fnv1a(key) as int % n;
            let p = probe(slots, key, j);
            &&& j <= p <= n
            &&& forall|i: int|
                j <= i < p ==> {
                    let s = slots[#[trigger] ((home + i) % n)];
                    !slot_empty(s) && s.key@ != key
                }
            &&& p < n ==> {
                let s = slots[(home + p) % n];
                slot_empty(s) || s.key@ == key
            }
        }),
    decreases slots.len() - j,
{
    let n = slots.len() as int;
    if j < n {
        let s = slots[crate::slot_table::probe_at(key, j, n)];
        if !(slot_empty(s) || s.key@ == key) {
            law_probe(slots, key, j + 1);
            let home = crate::open_address::fnv1a(key) as int % n;
            let p = probe(slots, key, j);
            assert forall|i: int| j <= i < p implies {
                let s = slots[#[trigger] ((home + i) % n)];
                !slot_empty(s) && s.key@ != key
            } by {
                if i > j {
                    let s = slots[(home + i) % n];
                }
            }
        }
    }
}

/// A sound table answers for a key with the word of the slot that has it, and for no other
/// key.
pub proof fn law_lookup(slots: Seq<Slot>, key: Seq<u8>, w: u64)
    requires
        chain_ok(slots),
        slots.len() > 0,
    ensures
        lookup(slots, key) == Some(w) <==> exists|i: int|
            0 <= i < slots.len() && (#[trigger] slots[i]).key@ == key && slots[i].word == w
                && !slot_dead(slots[i]),
        lookup(slots, key) is None <==> forall|i: int|
            0 <= i < slots.len() && (#[trigger] slots[i]).key@ == key ==> slot_dead(slots[i]),
        slots_map(slots).dom().contains(key) <==> lookup(slots, key) is Some,
{
    reveal(chain_ok);
    crate::slot_table::lemma_find_char(slots, key);
    assert forall|i: int|
        0 <= i < slots.len() && (#[trigger] slots[i]).key@ == key && !slot_dead(slots[i]) implies find(
        slots,
        key,
    ) < slots.len() && find_slot(slots, key) == i by {
        assert(!slot_empty(slots[i]));
    }
    if lookup(slots, key) is Some {
        let p = find_slot(slots, key);
        assert(0 <= p < slots.len());
        assert(slots[p].key@ == key && !slot_dead(slots[p]));
    }
}

/// A slot holds no value where its word is 0, and the slot of the all-zero key also where its
/// word is the mark of a cleared key. An empty slot has the all-zero key and the word 0.
pub proof fn law_slot_states(s: Slot)
    ensures
        slot_empty(s) <==> s.word == 0 && forall|j: int| 0 <= j < 16 ==> #[trigger] s.key@[j] == 0,
        slot_dead(s) <==> s.word == 0 || (s.word == 0x8000_0000_0000_0000 && forall|j: int|
            0 <= j < 16 ==> #[trigger] s.key@[j] == 0),
{
    let z = s.key@;
    if forall|j: int| 0 <= j < 16 ==> #[trigger] z[j] == 0 {
        assert(z =~= crate::slot_table::zero_key());
    }
}

/// The number of used slots counts the slots that are not empty.
pub proof fn law_used_counted(slots: Seq<Slot>)
    ensures
        ({
            let used = Set::new(
                |i: int|
                    0 <= i < slots.len() && !(slots[i].word == 0 && forall|j: int|
                        0 <= j < 16 ==> #[trigger] slots[i].key@[j] == 0),
            );
            used.finite() && count_used(slots) == used.len()
        }),
    decreases slots.len(),
{
    let used = Set::new(
        |i: int|
            0 <= i < slots.len() && !(slots[i].word == 0 && forall|j: int|
                0 <= j < 16 ==> #[trigger] slots[i].key@[j] == 0),
    );
    if slots.len() == 0 {
        assert(used =~= Set::empty());
    } else {
        let d = slots.drop_last();
        let n = slots.len() - 1;
        law_used_counted(d);
        let less = Set::new(
            |i: int|
                0 <= i < d.len() && !(d[i].word == 0 && forall|j: int|
                    0 <= j < 16 ==> #[trigger] d[i].key@[j] == 0),
        );
        assert(forall|i: int| 0 <= i < n ==> d[i] == slots[i]);
        let z = slots[n].key@;
        assert((forall|j: int| 0 <= j < 16 ==> #[trigger] z[j] == 0) <==> z
            == crate::slot_table::zero_key()) by {
            if forall|j: int| 0 <= j < 16 ==> #[trigger] z[j] == 0 {
                assert(z =~= crate::slot_table::zero_key());
            }
        }
        if slot_empty(slots[n]) {
            assert(used =~= less);
        } else {
            assert(used =~= less.insert(n));
        }
    }
}

/// A sealed head answers for a key with the word of its record, and for no other key.
pub proof fn law_sealed_word(recs: Seq<Slot>, key: Seq<u8>, w: u64)
    ensures
        keys_rise(recs) ==> (sealed_word(recs, key) == Some(w) <==> exists|i: int|
            0 <= i < recs.len() && (#[trigger] recs[i]).key@ == key && recs[i].word == w),
        sealed_word(recs, key) is None <==> forall|i: int|
            0 <= i < recs.len() ==> (#[trigger] recs[i]).key@ != key,
        sealed_word(recs, key) is Some ==> exists|i: int|
            0 <= i < recs.len() && (#[trigger] recs[i]).key@ == key && Some(recs[i].word)
                == sealed_word(recs, key),
    decreases recs.len(),
{
    if recs.len() > 0 {
        let d = recs.drop_last();
        let n = recs.len() - 1;
        law_sealed_word(d, key, w);
        assert(forall|i: int| 0 <= i < n ==> d[i] == recs[i]);
        if recs[n].key@ == key {
            if keys_rise(recs) {
                assert forall|i: int|
                    0 <= i < recs.len() && (#[trigger] recs[i]).key@ == key implies i == n by {
                    if i < n {
                        assert(recs[i].rank() < recs[n].rank());
                    }
                }
            }
        } else {
            if keys_rise(recs) {
                assert(keys_rise(d)) by {
                    assert forall|i: int, j: int| 0 <= i < j < d.len() implies (
                    #[trigger] d[i]).rank() < (#[trigger] d[j]).rank() by {
                        assert(recs[i].rank() < recs[j].rank());
                    }
                }
            }
            if sealed_word(recs, key) is Some {
                let i = choose|i: int|
                    0 <= i < d.len() && (#[trigger] d[i]).key@ == key && Some(d[i].word)
                        == sealed_word(d, key);
                assert(recs[i].key@ == key);
            }
            if exists|i: int|
                0 <= i < recs.len() && (#[trigger] recs[i]).key@ == key && recs[i].word == w {
                let i = choose|i: int|
                    0 <= i < recs.len() && (#[trigger] recs[i]).key@ == key && recs[i].word == w;
                assert(d[i].key@ == key);
            }
            if forall|i: int| 0 <= i < d.len() ==> (#[trigger] d[i]).key@ != key {
                assert forall|i: int| 0 <= i < recs.len() implies (#[trigger] recs[i]).key@
                    != key by {
                    if i < n {
                        assert(d[i].key@ != key);
                    }
                }
            }
        }
    }
}

/// Of several sealed heads the last one that has a key answers for it.
pub proof fn law_newest_word(heads: Seq<SealedHead>, key: Seq<u8>)
    ensures
        match newest_word(heads, key) {
            Some(w) => exists|i: int|
                0 <= i < heads.len() && (#[trigger] heads[i]).word(key) == Some(w) && forall|j: int|
                    i < j < heads.len() ==> (#[trigger] heads[j]).word(key) is None,
            None => forall|i: int| 0 <= i < heads.len() ==> (#[trigger] heads[i]).word(key) is None,
        },
    decreases heads.len(),
{
    if heads.len() > 0 {
        let d = heads.drop_last();
        let n = heads.len() - 1;
        law_newest_word(d, key);
        if heads[n].word(key) is None {
            match newest_word(d, key) {
                Some(w) => {
                    let i = choose|i: int|
                        0 <= i < d.len() && (#[trigger] d[i]).word(key) == Some(w) && forall|j: int|
                            i < j < d.len() ==> (#[trigger] d[j]).word(key) is None;
                    assert(heads[i] == d[i]);
                    assert forall|j: int| i < j < heads.len() implies (
                    #[trigger] heads[j]).word(key) is None by {
                        if j < n {
                            assert(d[j] == heads[j]);
                        }
                    }
                },
                None => {
                    assert forall|i: int| 0 <= i < heads.len() implies (
                    #[trigger] heads[i]).word(key) is None by {
                        if i < n {
                            assert(d[i] == heads[i]);
                        }
                    }
                },
            }
        }
    }
}

/// The records of several heads are those of each head, one head behind the other.
pub proof fn law_all_records(a: Seq<SealedHead>, b: Seq<SealedHead>, h: SealedHead)
    ensures
        all_records(a + b) == all_records(a) + all_records(b),
        all_records(seq![h]) == h.records(),
    decreases b.len(),
{
    let one = seq![h];
    assert(one.drop_last() =~= Seq::empty());
    assert(all_records(one.drop_last()) + h.records() =~= h.records());
    if b.len() == 0 {
        assert(a + b =~= a);
        assert(all_records(a) + all_records(b) =~= all_records(a));
    } else {
        law_all_records(a, b.drop_last(), h);
        assert((a + b).drop_last() =~= a + b.drop_last());
        assert(all_records(a + b) =~= all_records(a) + all_records(b));
    }
}

/// Entry `i` is the last one for a key with a value.
pub open spec fn last_value(entries: Seq<HeadEntry>, k: Seq<u8>, i: int) -> bool {
    &&& 0 <= i < entries.len()
    &&& key16(entries[i].0@) == k
    &&& !(entries[i].1 is Empty)
    &&& forall|j: int|
        i < j < entries.len() && key16((#[trigger] entries[j]).0@) == k ==> entries[j].1 is Empty
}

/// After entries were stored a key has the word of the last value that they give it, and else
/// what it had, unless one of them cleared it.
pub proof fn law_stored_entries(m: Map<Seq<u8>, u64>, entries: Seq<HeadEntry>, k: Seq<u8>)
    ensures
        cleared(m, entries).dom().contains(k) <==> m.dom().contains(k) && !(exists|i: int|
            0 <= i < entries.len() && key16((#[trigger] entries[i]).0@) == k && entries[i].1
                is Empty),
        cleared(m, entries).dom().contains(k) ==> cleared(m, entries)[k] == m[k],
        forall|i: int| #[trigger]
            last_value(entries, k, i) ==> upserted(m, entries).dom().contains(k) && upserted(
                m,
                entries,
            )[k] == pack8(entries[i].1)->Ok_0,
        (forall|i: int|
            0 <= i < entries.len() && key16((#[trigger] entries[i]).0@) == k ==> entries[i].1
                is Empty) ==> (upserted(m, entries).dom().contains(k) <==> m.dom().contains(k)) && (
        m.dom().contains(k) ==> upserted(m, entries)[k] == m[k]),
    decreases entries.len(),
{
    if entries.len() > 0 {
        let d = entries.drop_last();
        let n = entries.len() - 1;
        law_stored_entries(m, d, k);
        assert(forall|i: int| 0 <= i < n ==> d[i] == entries[i]);
        if exists|i: int|
            0 <= i < entries.len() && key16((#[trigger] entries[i]).0@) == k && entries[i].1
                is Empty {
            let i = choose|i: int|
                0 <= i < entries.len() && key16((#[trigger] entries[i]).0@) == k && entries[i].1
                    is Empty;
            if i < n {
                assert(key16(d[i].0@) == k && d[i].1 is Empty);
            }
        }
        if exists|i: int|
            0 <= i < d.len() && key16((#[trigger] d[i]).0@) == k && d[i].1 is Empty {
            let i = choose|i: int|
                0 <= i < d.len() && key16((#[trigger] d[i]).0@) == k && d[i].1 is Empty;
            assert(key16(entries[i].0@) == k && entries[i].1 is Empty);
        }
        if key16(entries[n].0@) == k && entries[n].1 is Empty {
            assert(key16(entries[n].0@) == k);
        }
        assert forall|i: int| #[trigger] last_value(entries, k, i) implies upserted(
            m,
            entries,
        ).dom().contains(k) && upserted(m, entries)[k] == pack8(entries[i].1)->Ok_0 by {
            if i < n {
                assert(last_value(d, k, i)) by {
                    assert forall|j: int|
                        i < j < d.len() && key16((#[trigger] d[j]).0@) == k implies d[j].1
                        is Empty by {
                        assert(key16(entries[j].0@) == k);
                    }
                }
                if key16(entries[n].0@) == k {
                    assert(entries[n].1 is Empty);
                }
            }
        }
        if forall|i: int|
            0 <= i < entries.len() && key16((#[trigger] entries[i]).0@) == k ==> entries[i].1
                is Empty {
            assert forall|i: int|
                0 <= i < d.len() && key16((#[trigger] d[i]).0@) == k implies d[i].1 is Empty by {
                assert(key16(entries[i].0@) == k);
            }
            if key16(entries[n].0@) == k {
                assert(entries[n].1 is Empty);
            }
        }
    }
}

/// The error of a batch is that of its first value that has no packed form.
pub proof fn law_first_pack_err(entries: Seq<HeadEntry>)
    ensures
        match first_pack_err(entries) {
            Some(e) => exists|i: int|
                0 <= i < entries.len() && pack8((#[trigger] entries[i]).1) == Err::<
                    u64,
                    StoreError,
                >(e) && forall|j: int| 0 <= j < i ==> pack8((#[trigger] entries[j]).1) is Ok,
            None => forall|j: int| 0 <= j < entries.len() ==> pack8((#[trigger] entries[j]).1) is Ok,
        },
    decreases entries.len(),
{
    if entries.len() > 0 {
        let d = entries.drop_last();
        let n = entries.len() - 1;
        law_first_pack_err(d);
        assert(forall|i: int| 0 <= i < n ==> d[i] == entries[i]);
        match first_pack_err(d) {
            Some(e) => {
                let i = choose|i: int|
                    0 <= i < d.len() && pack8((#[trigger] d[i]).1) == Err::<u64, StoreError>(e)
                        && forall|j: int| 0 <= j < i ==> pack8((#[trigger] d[j]).1) is Ok;
                assert(entries[i] == d[i]);
                assert forall|j: int| 0 <= j < i implies pack8((#[trigger] entries[j]).1)
                    is Ok by {
                    assert(pack8(d[j].1) is Ok);
                }
            },
            None => {
                assert forall|j: int| 0 <= j < n implies pack8((#[trigger] entries[j]).1) is Ok by {
                    assert(pack8(d[j].1) is Ok);
                }
                if pack8(entries[n].1) is Err {
                    assert(entries[n].1 == entries.last().1);
                }
            },
        }
    }
}

/// The live slots are those that hold a value, and the used ones those that are not empty, in
/// the order of the table.
pub proof fn law_slot_lists(slots: Seq<Slot>)
    ensures
        live_slots(slots) == slots.filter(|s: Slot| !slot_dead(s)),
        used_seq(slots) == slots.filter(|s: Slot| !slot_empty(s)),
    decreases slots.len(),
{
    reveal(Seq::filter);
    if slots.len() > 0 {
        law_slot_lists(slots.drop_last());
    }
}

/// What a table without room leaves over is the upserts whose key has no slot, in order.
pub proof fn law_without_slot(slots: Seq<Slot>, ups: Seq<Slot>, k: Seq<u8>)
    ensures
        without_slot(slots, ups) == ups.filter(|s: Slot| !has_slot(slots, s.key@)),
        match last_upsert(ups, k) {
            Some(s) => exists|i: int|
                0 <= i < ups.len() && #[trigger] ups[i] == s && s.key@ == k && forall|j: int|
                    i < j < ups.len() ==> (#[trigger] ups[j]).key@ != k,
            None => forall|i: int| 0 <= i < ups.len() ==> (#[trigger] ups[i]).key@ != k,
        },
    decreases ups.len(),
{
    reveal(Seq::filter);
    if ups.len() > 0 {
        let d = ups.drop_last();
        let n = ups.len() - 1;
        law_without_slot(slots, d, k);
        assert(forall|i: int| 0 <= i < n ==> d[i] == ups[i]);
        if ups[n].key@ == k {
            assert(ups[n] == ups.last());
        } else {
            match last_upsert(d, k) {
                Some(s) => {
                    let i = choose|i: int|
                        0 <= i < d.len() && #[trigger] d[i] == s && s.key@ == k && forall|j: int|
                            i < j < d.len() ==> (#[trigger] d[j]).key@ != k;
                    assert(ups[i] == s);
                    assert forall|j: int| i < j < ups.len() implies (#[trigger] ups[j]).key@
                        != k by {
                        if j < n {
                            assert(d[j].key@ != k);
                        }
                    }
                },
                None => {
                    assert forall|i: int| 0 <= i < ups.len() implies (#[trigger] ups[i]).key@
                        != k by {
                        if i < n {
                            assert(d[i].key@ != k);
                        }
                    }
                },
            }
        }
    }
}

/// A batch takes one new slot for each of its keys that has none.
pub proof fn law_fresh_keys(slots: Seq<Slot>, ups: Seq<(Seq<u8>, u64)>)
    ensures
        ({
            let keys = Set::new(|k: Seq<u8>| asks(ups, k) && !has_slot(slots, k));
            keys.finite() && fresh(slots, ups) == keys.len()
        }),
    decreases ups.len(),
{
    let keys = Set::new(|k: Seq<u8>| asks(ups, k) && !has_slot(slots, k));
    if ups.len() == 0 {
        assert(keys =~= Set::empty());
    } else {
        let d = ups.drop_last();
        let n = ups.len() - 1;
        let k0 = ups[n].0;
        law_fresh_keys(slots, d);
        let less = Set::new(|k: Seq<u8>| asks(d, k) && !has_slot(slots, k));
        assert forall|k: Seq<u8>| #[trigger] asks(ups, k) <==> k == k0 || asks(d, k) by {
            if asks(ups, k) {
                let j = choose|j: int| 0 <= j < ups.len() && (#[trigger] ups[j]).0 == k;
                if j < n {
                    assert(d[j].0 == k);
                }
            }
            if asks(d, k) {
                let j = choose|j: int| 0 <= j < d.len() && (#[trigger] d[j]).0 == k;
                assert(ups[j].0 == k);
            }
            if k == k0 {
                assert(ups[n].0 == k);
            }
        }
        if has_slot(slots, k0) || asks(d, k0) {
            assert(keys =~= less);
        } else {
            assert(keys =~= less.insert(k0));
        }
    }
}

/// The slots of a sharded head are those of its shards.
pub proof fn law_slots_in(a: Seq<ScriptHashHead>, b: Seq<ScriptHashHead>, h: ScriptHashHead)
    ensures
        slots_in(a + b) == slots_in(a) + slots_in(b),
        slots_in(seq![h]) == h.table().len(),
        slots_in(Seq::empty()) == 0,
    decreases b.len(),
{
    reveal_with_fuel(slots_in, 2);
    assert(seq![h].drop_last() =~= Seq::empty());
    assert(seq![h].last() == h);
    if b.len() == 0 {
        assert(a + b =~= a);
    } else {
        law_slots_in(a, b.drop_last(), h);
        assert((a + b).drop_last() =~= a + b.drop_last());
    }
}

/// The error of a batch of keys is that of its first value that has no packed form.
pub proof fn law_first_key_err(ups: Seq<KeyEntry>)
    ensures
        match first_key_err(ups) {
            Some(e) => exists|i: int|
                0 <= i < ups.len() && pack8((#[trigger] ups[i]).1) == Err::<u64, StoreError>(e)
                    && forall|j: int| 0 <= j < i ==> pack8((#[trigger] ups[j]).1) is Ok,
            None => forall|j: int| 0 <= j < ups.len() ==> pack8((#[trigger] ups[j]).1) is Ok,
        },
    decreases ups.len(),
{
    if ups.len() > 0 {
        let d = ups.drop_last();
        let n = ups.len() - 1;
        law_first_key_err(d);
        assert(forall|i: int| 0 <= i < n ==> d[i] == ups[i]);
        match first_key_err(d) {
            Some(e) => {
                let i = choose|i: int|
                    0 <= i < d.len() && pack8((#[trigger] d[i]).1) == Err::<u64, StoreError>(e)
                        && forall|j: int| 0 <= j < i ==> pack8((#[trigger] d[j]).1) is Ok;
                assert(ups[i] == d[i]);
                assert forall|j: int| 0 <= j < i implies pack8((#[trigger] ups[j]).1) is Ok by {
                    assert(pack8(d[j].1) is Ok);
                }
            },
            None => {
                assert forall|j: int| 0 <= j < n implies pack8((#[trigger] ups[j]).1) is Ok by {
                    assert(pack8(d[j].1) is Ok);
                }
                if pack8(ups[n].1) is Err {
                    assert(ups[n].1 == ups.last().1);
                }
            },
        }
    }
}

/// The first record with a key is the one that a load takes.
pub proof fn law_first_at(recs: Seq<Slot>, lists: Seq<Seq<Fk>>, k: Seq<u8>)
    ensures
        ({
            let f = first_at(recs, k);
            &&& 0 <= f <= recs.len()
            &&& forall|j: int| 0 <= j < f ==> (#[trigger] recs[j]).key@ != k
            &&& f < recs.len() ==> recs[f].key@ == k && first_word(recs, k) == Some(recs[f].word)
                && first_list(recs, lists, k) == lists[f]
            &&& f == recs.len() ==> first_word(recs, k) is None && first_list(
                recs,
                lists,
                k,
            ).len() == 0
        }),
    decreases recs.len(),
{
    if recs.len() > 0 {
        let d = recs.drop_last();
        law_first_at(d, lists, k);
        let f = first_at(recs, k);
        assert(forall|i: int| 0 <= i < d.len() ==> d[i] == recs[i]);
        assert forall|j: int| 0 <= j < f implies (#[trigger] recs[j]).key@ != k by {
            if j < d.len() {
                assert(d[j].key@ != k);
            }
        }
    }
}

/// Where the numbers of a key end up that were inserted in a row: behind those it had, each
/// once, in the order in which they first came.
pub open spec fn came_in_order(
    list: Seq<Fk>,
    entries: Seq<([u8; 32], Fk)>,
    word: u128,
    out: Seq<Fk>,
    src: Seq<int>,
) -> bool {
    &&& out.len() == list.len() + src.len()
    &&& out.subrange(0, list.len() as int) == list
    &&& forall|j: int|
        0 <= j < src.len() ==> {
            let i = #[trigger] src[j];
            &&& 0 <= i < entries.len()
            &&& prefix_word(entries[i].0@) == word
            &&& out[list.len() + j] == entries[i].1
            &&& !list.contains(entries[i].1)
            &&& forall|m: int|
                0 <= m < i && prefix_word((#[trigger] entries[m]).0@) == word ==> entries[m].1
                    != entries[i].1
        }
    &&& forall|a: int, b: int| 0 <= a < b < src.len() ==> #[trigger] src[a] < #[trigger] src[b]
    &&& forall|i: int|
        0 <= i < entries.len() && prefix_word((#[trigger] entries[i]).0@) == word ==> out.contains(
            entries[i].1,
        )
}

/// Inserting entries gives each key the numbers that the entries give it.
pub proof fn law_extended(list: Seq<Fk>, entries: Seq<([u8; 32], Fk)>, word: u128) -> (src: Seq<int>)
    ensures
        came_in_order(list, entries, word, extended(list, entries, word), src),
    decreases entries.len(),
{
    let out = extended(list, entries, word);
    if entries.len() == 0 {
        assert(out.subrange(0, list.len() as int) =~= list);
        Seq::empty()
    } else {
        let d = entries.drop_last();
        let n = entries.len() - 1;
        let s = law_extended(list, d, word);
        let p = extended(list, d, word);
        let e = entries[n];
        assert(forall|i: int| 0 <= i < n ==> d[i] == entries[i]);
        let adds = prefix_word(e.0@) == word && !p.contains(e.1);
        let t = if adds {
            s.push(n)
        } else {
            s
        };
        assert(out.subrange(0, list.len() as int) =~= list) by {
            assert forall|i: int| 0 <= i < list.len() implies out[i] == list[i] by {
                assert(p.subrange(0, list.len() as int)[i] == p[i]);
            }
        }
        assert forall|i: int|
            0 <= i < entries.len() && prefix_word(
                (#[trigger] entries[i]).0@,
            ) == word implies out.contains(entries[i].1) by {
            if i < n {
                assert(prefix_word(d[i].0@) == word);
                let q = choose|q: int| 0 <= q < p.len() && p[q] == d[i].1;
                assert(out[q] == entries[i].1);
            } else if adds {
                assert(out[p.len() as int] == e.1);
            }
        }
        assert forall|j: int| 0 <= j < t.len() implies {
            let i = #[trigger] t[j];
            &&& 0 <= i < entries.len()
            &&& prefix_word(entries[i].0@) == word
            &&& out[list.len() + j] == entries[i].1
            &&& !list.contains(entries[i].1)
            &&& forall|m: int|
                0 <= m < i && prefix_word((#[trigger] entries[m]).0@) == word ==> entries[m].1
                    != entries[i].1
        } by {
            if j < s.len() {
                assert(t[j] == s[j]);
                let i = s[j];
                assert(out[list.len() + j] == p[list.len() + j]);
                assert forall|m: int|
                    0 <= m < i && prefix_word((#[trigger] entries[m]).0@) == word implies entries[m].1
                    != entries[i].1 by {
                    assert(d[m].1 != d[i].1);
                }
            } else {
                if list.contains(e.1) {
                    let q = choose|q: int| 0 <= q < list.len() && list[q] == e.1;
                    assert(p.subrange(0, list.len() as int)[q] == p[q]);
                    assert(p.contains(e.1));
                }
                assert forall|m: int|
                    0 <= m < n && prefix_word((#[trigger] entries[m]).0@) == word implies entries[m].1
                    != e.1 by {
                    assert(p.contains(d[m].1));
                }
            }
        }
        assert forall|a: int, b: int| 0 <= a < b < t.len() implies #[trigger] t[a]
            < #[trigger] t[b] by {
            assert(t[a] == s[a]);
            if b < s.len() {
                assert(t[b] == s[b]);
            }
        }
        t
    }
}

/// The keys of a sharded head are those of its shards.
pub proof fn law_keys_in(a: Seq<HashHead>, b: Seq<HashHead>, h: HashHead)
    ensures
        keys_in(a + b) == keys_in(a) + keys_in(b),
        keys_in(seq![h]) == h.lists@.len(),
        keys_in(Seq::empty()) == 0,
    decreases b.len(),
{
    reveal_with_fuel(keys_in, 2);
    assert(seq![h].drop_last() =~= Seq::empty());
    assert(seq![h].last() == h);
    if b.len() == 0 {
        assert(a + b =~= a);
    } else {
        law_keys_in(a, b.drop_last(), h);
        assert((a + b).drop_last() =~= a + b.drop_last());
    }
}

/// The shard of a hash is the part of the range of its first byte that the byte lies in: each
/// of `n` shards covers `256 / n` values, in order.
pub proof fn law_shard_ranges(full: Seq<u8>, n: int)
    requires
        n >= 1,
        shard_count_ok(n),
        full.len() > 0,
    ensures
        0 <= prefix_shard(full, n) < n,
        256 * prefix_shard(full, n) <= full[0] * n < 256 * (prefix_shard(full, n) + 1),
{
    let b = full[0] as int;
    if n == 1 {
        assert(b * n == b);
    } else {
        assert(0 <= b * n <= 255 * n) by (nonlinear_arith)
            requires
                0 <= b <= 255,
                n >= 1,
        ;
    }
}

/// The slots for a number of keys are at least 64, keep the keys at seven eighths of the
/// slots, and are no more than that takes.
pub proof fn law_slots_needed(keys: int)
    requires
        0 <= keys <= 0x1fff_ffff_ffff_ffff,
    ensures
        slots_needed(keys) >= 64,
        8 * keys <= 7 * slots_needed(keys),
        slots_needed(keys) > 64 ==> 8 * keys > 7 * (slots_needed(keys) - 1),
{
}

/// The budget of a shard is a quarter more than an even share of the keys, rounded up.
pub proof fn law_shard_budget(hint: int, n: int)
    requires
        1 <= hint <= 0x0fff_ffff_ffff_ffff,
        1 <= n <= 0x0fff_ffff_ffff_ffff,
    ensures
        ({
            let share = (hint + n - 1) / n;
            &&& n * (share - 1) < hint <= n * share
            &&& 4 * (shard_budget(hint, n) - 1) < 5 * share <= 4 * shard_budget(hint, n)
        }),
{
    let share = (hint + n - 1) / n;
    vstd::arithmetic::div_mod::lemma_fundamental_div_mod(hint + n - 1, n);
    let m = (hint + n - 1) % n;
    assert(hint + n - 1 == n * share + m && 0 <= m < n);
    assert(n * (share - 1) == n * share - n) by (nonlinear_arith);
    assert(0 <= share <= hint) by (nonlinear_arith)
        requires
            hint + n - 1 == n * share + m,
            0 <= m < n,
            n >= 1,
            hint >= 1,
    ;
}

} // verus!
