//! Sealing of main shards: packed records become the head of a shard.

use vstd::prelude::*;
use crate::primitives::Fk;
use crate::scripthash::{head_word, l1_word, lemma_body_index, lemma_other_keys, lemma_view_holds, main_word, sealed_apart, sound_at, KeyHome, ScriptHashTable, ShBodyLayout};
use crate::scripthash_body::{kept, kept_but, ShBody};
use crate::scripthash_head::{full_from_key, prefix_shard};
use crate::scripthash_layout::ShHeadKey;
use crate::scripthash_pack8::unpack8;
use crate::scripthash_values::{holds_value, kept_except, lemma_holds_frame, lemma_value_owned};
use crate::sealed_head::{keys_rise, lemma_sealed_at, lemma_sealed_has, newest_word, sealed_word, SealedHead};
use crate::slot_table::{key_eq, Slot};
use crate::sorting::{lemma_be_injective, lemma_same_items, sort_ranked, sorted_by_rank, Ranked};

verus! {

/// The record names creates of its key in the body.
pub open spec fn rec_sound(b: &ShBody, s: Slot, fks: Seq<Fk>) -> bool {
    unpack8(s.word) is Ok && exists|pages: Seq<int>| #[trigger]
        holds_value(b, unpack8(s.word)->Ok_0, s.key@, pages, fks)
}

/// The records belong to one shard and name creates in its body.
pub open spec fn recs_sound(
    b: &ShBody,
    recs: Seq<Slot>,
    lists: Seq<Seq<Fk>>,
    n_shards: int,
    shard: int,
) -> bool {
    &&& recs.len() == lists.len()
    &&& forall|i: int|
        0 <= i < recs.len() ==> prefix_shard((#[trigger] recs[i]).key@, n_shards) == shard
            && rec_sound(b, recs[i], lists[i])
}

/// Records stay sound where the blocks that they name are kept.
pub proof fn lemma_recs_kept(
    a: &ShBody,
    b: &ShBody,
    recs: Seq<Slot>,
    lists: Seq<Seq<Fk>>,
    n_shards: int,
    shard: int,
)
    requires
        a.heap_ok(),
        b.heap_ok(),
        recs_sound(a, recs, lists, n_shards, shard),
        kept_but(a, b, -1),
    ensures
        recs_sound(b, recs, lists, n_shards, shard),
{
    assert forall|i: int| 0 <= i < recs.len() implies rec_sound(b, #[trigger] recs[i], lists[i]) by {
        let v = unpack8(recs[i].word)->Ok_0;
        assert(rec_sound(a, recs[i], lists[i]));
        let pages = choose|pages: Seq<int>| #[trigger]
            holds_value(a, v, recs[i].key@, pages, lists[i]);
        assert forall|j: int| 0 <= j < pages.len() implies kept(a, b, #[trigger] pages[j]) by {
            lemma_value_owned(a, v, recs[i].key@, pages, lists[i], j);
        }
        lemma_holds_frame(a, b, v, recs[i].key@, pages, lists[i]);
    }
}

/// Index of the body that a main shard uses.
pub open spec fn main_body(layout: ShBodyLayout, shard: int) -> int {
    match layout {
        ShBodyLayout::Shared => 0,
        ShBodyLayout::Sharded => shard,
    }
}

/// The key is in the ingest head or in an overflow head.
pub open spec fn in_ovf(t: &ScriptHashTable, k: Seq<u8>) -> bool {
    ||| t.ingest@.dom().contains(k)
    ||| newest_word(t.sealed_ovf@, k) is Some
    ||| l1_word(t.ovf_l1, k) is Some
}

/// The tables have the same ingest head and overflow heads.
pub open spec fn same_ovf(a: &ScriptHashTable, b: &ScriptHashTable) -> bool {
    &&& b.ingest == a.ingest
    &&& b.sealed_ovf@ == a.sealed_ovf@
    &&& b.ovf_l1 == a.ovf_l1
}

/// No record has a key of the overflow.
pub open spec fn recs_clear(t: &ScriptHashTable, recs: Seq<Slot>) -> bool {
    forall|i: int| 0 <= i < recs.len() ==> !in_ovf(t, (#[trigger] recs[i]).key@)
}

/// The tables have the same heads.
pub open spec fn same_heads(a: &ScriptHashTable, b: &ScriptHashTable) -> bool {
    &&& b.scale == a.scale
    &&& b.layout == a.layout
    &&& b.n_shards == a.n_shards
    &&& b.main@ == a.main@
    &&& b.ingest == a.ingest
    &&& b.sealed_ovf@ == a.sealed_ovf@
    &&& b.ovf_l1 == a.ovf_l1
    &&& b.include_hwm == a.include_hwm
}

/// Only one body differs.
pub open spec fn same_other_bodies(a: &ScriptHashTable, b: &ScriptHashTable, bi: int) -> bool {
    &&& b.bodies@.len() == a.bodies@.len()
    &&& forall|i: int| 0 <= i < a.bodies@.len() && i != bi ==> b.bodies@[i] == a.bodies@[i]
}

/// A body that keeps its owned blocks keeps every key.
pub proof fn lemma_table_kept(a: &ScriptHashTable, b: &ScriptHashTable, bi: int)
    requires
        a.wf(),
        same_heads(a, b),
        same_other_bodies(a, b, bi),
        0 <= bi < a.bodies@.len(),
        b.bodies@[bi].heap_ok(),
        kept_but(&a.bodies@[bi], &b.bodies@[bi], -1),
    ensures
        b.wf(),
        forall|k: Seq<u8>| #[trigger] b.located(k) == a.located(k),
        forall|k: Seq<u8>| k.len() == 16 ==> #[trigger] b.creates(k) == a.creates(k),
{
    assert forall|k: Seq<u8>| #[trigger] b.located(k) == a.located(k) by {}
    assert(b.parts_ok());
    assert(b.homes_apart());
    assert forall|o: int| #[trigger]
        a.bodies@[bi].blocks@.dom().contains(o) && a.bodies@[bi].blocks@[o].owner
            is Some implies kept(&a.bodies@[bi], &b.bodies@[bi], o) by {
        assert(o >= 4096);
    }
    assert forall|k: Seq<u8>| k.len() == 16 implies #[trigger] b.key_sound(k) && b.creates(k)
        == a.creates(k) by {
        assert(b.located(k) == a.located(k));
        let none = Seq::<int>::empty();
        assert(kept_except(&a.bodies@[bi], &b.bodies@[bi], none));
        lemma_other_keys(a, b, k.push(0), bi, none, k);
    }
    assert forall|k: Seq<u8>| k.len() == 16 implies #[trigger] b.creates(k) == a.creates(k) by {
        assert(b.key_sound(k));
    }
}

/// Records in key order, one for each key.
pub fn seal_recs(recs: &Vec<Slot>) -> (r: Vec<Slot>)
    ensures
        keys_rise(r@),
        forall|i: int| 0 <= i < r@.len() ==> recs@.contains(#[trigger] r@[i]),
        forall|i: int|
            0 <= i < recs@.len() ==> sealed_word(r@, (#[trigger] recs@[i]).key@) is Some,
        sorted_by_rank(recs@) ==> first_words(r@, recs@),
{
    let s = sort_ranked(recs);
    let mut out: Vec<Slot> = Vec::new();
    let mut i: usize = 0;
    while i < s.len()
        invariant
            i <= s@.len(),
            sorted_by_rank(s@),
            s@.to_multiset() == recs@.to_multiset(),
            keys_rise(out@),
            i == 0 ==> out@.len() == 0,
            i > 0 ==> out@.len() > 0 && out@.last().key@ == s@[i - 1].key@,
            forall|j: int| 0 <= j < out@.len() ==> s@.contains(#[trigger] out@[j]),
            forall|j: int|
                0 <= j < out@.len() ==> first_at(s@, (#[trigger] out@[j]).key@) < s@.len()
                    && out@[j] == s@[first_at(s@, out@[j].key@)],
            forall|j: int| 0 <= j < i ==> has_key(out@, (#[trigger] s@[j]).key@),
        decreases s@.len() - i,
    {
        let ghost before = out@;
        proof {
            if i > 0 {
                assert(s@[i - 1].rank() <= s@[i as int].rank());
            }
        }
        let n: usize = out.len();
        if n == 0 || !key_eq(&out[n - 1].key, &s[i].key) {
            out.push(s[i]);
            proof {
                assert(s@.contains(s@[i as int]));
                lemma_first_at(s@, s@[i as int].key@);
                assert(first_at(s@, s@[i as int].key@) == i) by {
                    let f = first_at(s@, s@[i as int].key@);
                    if f < i {
                        assert(s@[f].rank() <= s@[i - 1].rank());
                        lemma_be_injective(s@[i - 1].key@, s@[i as int].key@);
                    }
                }
                assert forall|a: int, b: int| 0 <= a < b < out@.len() implies (
                #[trigger] out@[a]).rank() < (#[trigger] out@[b]).rank() by {
                    if b == n {
                        if before.last().rank() == s@[i as int].rank() {
                            lemma_be_injective(before.last().key@, s@[i as int].key@);
                        }
                        if a < n - 1 {
                            assert(before[a].rank() < before[n - 1].rank());
                        }
                    } else {
                        assert(before[a].rank() < before[b].rank());
                    }
                }
            }
        }
        proof {
            assert forall|j: int| 0 <= j < i + 1 implies has_key(out@, (#[trigger] s@[j]).key@) by {
                if j < i {
                    assert(has_key(before, s@[j].key@));
                    let a = choose|a: int|
                        0 <= a < before.len() && (#[trigger] before[a]).key@ == s@[j].key@;
                    assert(out@[a].key@ == s@[j].key@);
                } else {
                    assert(out@[out@.len() - 1].key@ == s@[j].key@);
                }
            }
            assert forall|j: int| 0 <= j < out@.len() implies s@.contains(#[trigger] out@[j]) by {
                if j < before.len() {
                    assert(s@.contains(before[j]));
                }
            }
        }
        i += 1;
    }
    proof {
        assert forall|j: int| 0 <= j < out@.len() implies recs@.contains(#[trigger] out@[j]) by {
            let a = choose|a: int| 0 <= a < s@.len() && s@[a] == out@[j];
            let b = lemma_same_items(s@, recs@, a);
            assert(recs@[b] == out@[j]);
        }
        assert forall|j: int| 0 <= j < recs@.len() implies sealed_word(
            out@,
            (#[trigger] recs@[j]).key@,
        ) is Some by {
            let a = lemma_same_items(recs@, s@, j);
            assert(has_key(out@, s@[a].key@));
            let c = choose|c: int| 0 <= c < out@.len() && (#[trigger] out@[c]).key@ == s@[a].key@;
            lemma_sealed_at(out@, c);
        }
        if sorted_by_rank(recs@) {
            assert forall|k: Seq<u8>| #[trigger] sealed_word(out@, k) == first_word(recs@, k) by {
                lemma_first_at(recs@, k);
                if sealed_word(out@, k) is Some {
                    let c = lemma_sealed_has(out@, k);
                    assert(out@[c] == s@[first_at(s@, out@[c].key@)]);
                } else if first_at(recs@, k) < recs@.len() {
                    assert(sealed_word(out@, recs@[first_at(recs@, k)].key@) is Some);
                }
            }
        }
    }
    out
}

/// Place of the first record with this key (the length if there is none).
pub open spec fn first_at(recs: Seq<Slot>, k: Seq<u8>) -> int
    decreases recs.len(),
{
    if recs.len() == 0 {
        0
    } else {
        let f = first_at(recs.drop_last(), k);
        if f < recs.len() - 1 {
            f
        } else if recs.last().key@ == k {
            recs.len() - 1
        } else {
            recs.len() as int
        }
    }
}

/// Word of the first record with this key.
pub open spec fn first_word(recs: Seq<Slot>, k: Seq<u8>) -> Option<u64> {
    if first_at(recs, k) < recs.len() {
        Some(recs[first_at(recs, k)].word)
    } else {
        None
    }
}

/// The creates of the first record with this key.
pub open spec fn first_list(recs: Seq<Slot>, lists: Seq<Seq<Fk>>, k: Seq<u8>) -> Seq<Fk> {
    if first_at(recs, k) < recs.len() {
        lists[first_at(recs, k)]
    } else {
        Seq::empty()
    }
}

/// Sealed records answer with the first record of a key.
pub open spec fn first_words(sealed: Seq<Slot>, recs: Seq<Slot>) -> bool {
    forall|k: Seq<u8>| #[trigger] sealed_word(sealed, k) == first_word(recs, k)
}

pub(crate) proof fn lemma_first_at(recs: Seq<Slot>, k: Seq<u8>)
    ensures
        0 <= first_at(recs, k) <= recs.len(),
        first_at(recs, k) < recs.len() ==> recs[first_at(recs, k)].key@ == k,
        forall|i: int| 0 <= i < first_at(recs, k) ==> (#[trigger] recs[i]).key@ != k,
        has_key(recs, k) <==> first_at(recs, k) < recs.len(),
    decreases recs.len(),
{
    if recs.len() > 0 {
        let d = recs.drop_last();
        lemma_first_at(d, k);
        assert forall|i: int| 0 <= i < first_at(recs, k) implies (#[trigger] recs[i]).key@ != k by {
            if i < d.len() {
                assert(d[i] == recs[i]);
            }
        }
        if has_key(recs, k) {
            let i = choose|i: int| 0 <= i < recs.len() && (#[trigger] recs[i]).key@ == k;
            if i < first_at(recs, k) {
                assert(recs[i].key@ != k);
            }
        }
    }
}

/// A sealed shard has the creates of the first record of each key.
pub open spec fn installed_first(
    a: &ScriptHashTable,
    b: &ScriptHashTable,
    shard: int,
    recs: Seq<Slot>,
    lists: Seq<Seq<Fk>>,
) -> bool {
    forall|k: Seq<u8>|
        k.len() == 16 && prefix_shard(k, a.n_shards as int) == shard && !in_ovf(a, k)
            ==> #[trigger] b.creates(k) == first_list(recs, lists, k)
}

/// Some record has this key.
pub open spec fn has_key(recs: Seq<Slot>, k: Seq<u8>) -> bool {
    exists|i: int| 0 <= i < recs.len() && (#[trigger] recs[i]).key@ == k
}

/// The creates of the keys of a sealed shard are those of its records, and keys without a
/// record have none. The overflow masks its keys: they, and the keys of other shards, stay
/// as they were.
pub open spec fn installed(
    a: &ScriptHashTable,
    b: &ScriptHashTable,
    shard: int,
    recs: Seq<Slot>,
    lists: Seq<Seq<Fk>>,
) -> bool {
    &&& forall|k: Seq<u8>|
        #![trigger b.creates(k)]
        k.len() == 16 && prefix_shard(k, a.n_shards as int) == shard ==> if in_ovf(a, k) {
            b.creates(k) == a.creates(k)
        } else if has_key(recs, k) {
            exists|i: int|
                0 <= i < recs.len() && (#[trigger] recs[i]).key@ == k && b.creates(k) == lists[i]
        } else {
            b.creates(k) == Seq::<Fk>::empty()
        }
    &&& forall|k: Seq<u8>|
        #![trigger b.creates(k)]
        k.len() == 16 && prefix_shard(k, a.n_shards as int) != shard ==> b.creates(k)
            == a.creates(k)
}

/// A new head without keys of the overflow keeps the heads apart.
proof fn lemma_install_apart(
    a: &ScriptHashTable,
    b: &ScriptHashTable,
    shard: int,
    h: SealedHead,
    recs: Seq<Slot>,
)
    requires
        a.homes_apart(),
        recs_clear(a, recs),
        0 <= shard < a.main@.len(),
        forall|i: int| 0 <= i < h.records().len() ==> recs.contains(#[trigger] h.records()[i]),
        forall|i: int|
            0 <= i < recs.len() ==> prefix_shard((#[trigger] recs[i]).key@, a.n_shards as int)
                == shard,
        b.n_shards == a.n_shards,
        b.main@ == a.main@.update(shard, Some(h)),
        same_ovf(a, b),
    ensures
        b.homes_apart(),
{
    let n = a.n_shards as int;
    assert forall|k: Seq<u8>| in_ovf(a, k) implies main_word(b.main@, n, k) == main_word(
        a.main@,
        n,
        k,
    ) || main_word(b.main@, n, k) is None by {
        if main_word(b.main@, n, k) is Some && main_word(b.main@, n, k) != main_word(
            a.main@,
            n,
            k,
        ) {
            assert(prefix_shard(k, n) == shard);
            let j = lemma_sealed_has(h.records(), k);
            assert(recs.contains(h.records()[j]));
            let i = choose|i: int| 0 <= i < recs.len() && recs[i] == h.records()[j];
            assert(!in_ovf(a, recs[i].key@));
        }
    }
    assert forall|k: Seq<u8>| #[trigger] b.ingest@.dom().contains(k) implies newest_word(
        b.sealed_ovf@,
        k,
    ) is None && l1_word(b.ovf_l1, k) is None && main_word(b.main@, n, k) is None by {
        assert(a.ingest@.dom().contains(k));
        assert(in_ovf(a, k));
    }
    assert(sealed_apart(b.sealed_ovf@, b.ovf_l1, b.main@, n)) by {
        reveal(sealed_apart);
        assert forall|s: int, k: Seq<u8>|
            0 <= s < b.main@.len() && #[trigger] head_word(b.main@[s], k)
                is Some implies prefix_shard(k, n) == s by {
            if s == shard {
                let j = lemma_sealed_has(h.records(), k);
                assert(recs.contains(h.records()[j]));
                let i = choose|i: int| 0 <= i < recs.len() && recs[i] == h.records()[j];
                assert(prefix_shard(recs[i].key@, n) == shard);
            } else {
                assert(head_word(a.main@[s], k) is Some);
            }
        }
        assert forall|k: Seq<u8>| (#[trigger] newest_word(b.sealed_ovf@, k)) is Some implies l1_word(
            b.ovf_l1,
            k,
        ) is None && main_word(b.main@, n, k) is None by {
            assert(newest_word(a.sealed_ovf@, k) is Some);
            assert(in_ovf(a, k));
        }
        assert forall|k: Seq<u8>| (#[trigger] l1_word(b.ovf_l1, k)) is Some implies main_word(
            b.main@,
            n,
            k,
        ) is None by {
            assert(l1_word(a.ovf_l1, k) is Some);
            assert(in_ovf(a, k));
        }
    }
}

/// The first `n` records without those of the overflow.
spec fn clear_part(t: &ScriptHashTable, recs: Seq<Slot>, n: int) -> Seq<Slot>
    decreases n,
{
    if n <= 0 {
        Seq::empty()
    } else if in_ovf(t, recs[n - 1].key@) {
        clear_part(t, recs, n - 1)
    } else {
        clear_part(t, recs, n - 1).push(recs[n - 1])
    }
}

/// Their creates.
spec fn clear_lists(t: &ScriptHashTable, recs: Seq<Slot>, lists: Seq<Seq<Fk>>, n: int) -> Seq<
    Seq<Fk>,
>
    decreases n,
{
    if n <= 0 {
        Seq::empty()
    } else if in_ovf(t, recs[n - 1].key@) {
        clear_lists(t, recs, lists, n - 1)
    } else {
        clear_lists(t, recs, lists, n - 1).push(lists[n - 1])
    }
}

/// Leaving out masked records keeps the order and the first record of every other key.
proof fn lemma_clear_part(
    t: &ScriptHashTable,
    recs: Seq<Slot>,
    lists: Seq<Seq<Fk>>,
    n: int,
    k: Seq<u8>,
)
    requires
        0 <= n <= recs.len(),
    ensures
        clear_part(t, recs, n).len() == clear_lists(t, recs, lists, n).len(),
        sorted_by_rank(recs) ==> sorted_by_rank(clear_part(t, recs, n)),
        clear_part(t, recs, n).len() > 0 && sorted_by_rank(recs) && n < recs.len()
            ==> clear_part(t, recs, n).last().rank() <= recs[n].rank(),
        !in_ovf(t, k) ==> first_list(clear_part(t, recs, n), clear_lists(t, recs, lists, n), k)
            == first_list(recs.subrange(0, n), lists, k),
    decreases n,
{
    let c = clear_part(t, recs, n);
    let p = recs.subrange(0, n);
    if n > 0 {
        lemma_clear_part(t, recs, lists, n - 1, k);
        let d = clear_part(t, recs, n - 1);
        let l = clear_lists(t, recs, lists, n - 1);
        assert(p.drop_last() =~= recs.subrange(0, n - 1));
        lemma_first_at(d, k);
        lemma_first_at(p.drop_last(), k);
        if !in_ovf(t, recs[n - 1].key@) {
            assert(c.drop_last() =~= d);
            if sorted_by_rank(recs) {
                assert forall|i: int, j: int| 0 <= i < j < c.len() implies (#[trigger] c[i]).rank()
                    <= (#[trigger] c[j]).rank() by {
                    if j < d.len() {
                        assert(d[i].rank() <= d[j].rank());
                    } else if i < d.len() - 1 {
                        assert(d[i].rank() <= d[d.len() - 1].rank());
                    }
                }
            }
            if !in_ovf(t, k) {
                lemma_clear_has(t, recs, n - 1, k);
            }
        } else if !in_ovf(t, k) {
            assert(recs[n - 1].key@ != k);
            lemma_clear_has(t, recs, n - 1, k);
        }
        if sorted_by_rank(recs) && n < recs.len() {
            assert(recs[n - 1].rank() <= recs[n].rank());
        }
    } else {
        assert(p =~= Seq::empty());
    }
}

proof fn lemma_clear_has(t: &ScriptHashTable, recs: Seq<Slot>, n: int, k: Seq<u8>)
    requires
        0 <= n <= recs.len(),
        !in_ovf(t, k),
    ensures
        has_key(clear_part(t, recs, n), k) <==> has_key(recs.subrange(0, n), k),
    decreases n,
{
    let c = clear_part(t, recs, n);
    let p = recs.subrange(0, n);
    if n > 0 {
        lemma_clear_has(t, recs, n - 1, k);
        let d = clear_part(t, recs, n - 1);
        let q = recs.subrange(0, n - 1);
        if has_key(d, k) {
            let i = choose|i: int| 0 <= i < d.len() && (#[trigger] d[i]).key@ == k;
            assert(c[i] == d[i]);
        }
        if has_key(q, k) {
            let i = choose|i: int| 0 <= i < q.len() && (#[trigger] q[i]).key@ == k;
            assert(p[i] == q[i]);
        }
        if has_key(c, k) {
            let i = choose|i: int| 0 <= i < c.len() && (#[trigger] c[i]).key@ == k;
            if i < d.len() {
                assert(d[i] == c[i]);
            } else {
                assert(p[n - 1].key@ == k);
            }
        }
        if has_key(p, k) {
            let i = choose|i: int| 0 <= i < p.len() && (#[trigger] p[i]).key@ == k;
            if i < n - 1 {
                assert(q[i] == p[i]);
            } else {
                assert(c[c.len() - 1].key@ == k);
            }
        }
    }
}

/// The records without those of the overflow.
spec fn is_unmasked(
    t: &ScriptHashTable,
    recs: Seq<Slot>,
    lists: Seq<Seq<Fk>>,
    out: Seq<Slot>,
    kept: Seq<Seq<Fk>>,
) -> bool {
    &&& out.len() == kept.len()
    &&& forall|j: int|
        0 <= j < out.len() ==> !in_ovf(t, (#[trigger] out[j]).key@) && exists|m: int|
            0 <= m < recs.len() && #[trigger] recs[m] == out[j] && lists[m] == kept[j]
    &&& forall|m: int|
        0 <= m < recs.len() && !in_ovf(t, (#[trigger] recs[m]).key@) ==> has_key(
            out,
            recs[m].key@,
        )
}

/// Masked records do not show.
proof fn lemma_unmasked(
    a: &ScriptHashTable,
    b: &ScriptHashTable,
    shard: int,
    recs: Seq<Slot>,
    lists: Seq<Seq<Fk>>,
    out: Seq<Slot>,
    kept: Seq<Seq<Fk>>,
)
    requires
        is_unmasked(a, recs, lists, out, kept),
        installed(a, b, shard, out, kept),
    ensures
        installed(a, b, shard, recs, lists),
{
    assert forall|k: Seq<u8>|
        #![trigger b.creates(k)]
        k.len() == 16 && prefix_shard(k, a.n_shards as int) == shard implies if in_ovf(a, k) {
        b.creates(k) == a.creates(k)
    } else if has_key(recs, k) {
        exists|i: int|
            0 <= i < recs.len() && (#[trigger] recs[i]).key@ == k && b.creates(k) == lists[i]
    } else {
        b.creates(k) == Seq::<Fk>::empty()
    } by {
        if !in_ovf(a, k) {
            if has_key(recs, k) {
                let m = choose|m: int| 0 <= m < recs.len() && (#[trigger] recs[m]).key@ == k;
                assert(has_key(out, recs[m].key@));
                let c = b.creates(k);
                let j = choose|j: int|
                    0 <= j < out.len() && (#[trigger] out[j]).key@ == k && c == kept[j];
                let i = choose|i: int|
                    0 <= i < recs.len() && #[trigger] recs[i] == out[j] && lists[i] == kept[j];
                assert(recs[i].key@ == k && c == lists[i]);
            } else if has_key(out, k) {
                let j = choose|j: int| 0 <= j < out.len() && (#[trigger] out[j]).key@ == k;
                let i = choose|i: int|
                    0 <= i < recs.len() && #[trigger] recs[i] == out[j] && lists[i] == kept[j];
                assert(recs[i].key@ == k);
            }
        }
    }
}

/// A table with another head for one shard.
proof fn lemma_install(
    a: &ScriptHashTable,
    b: &ScriptHashTable,
    shard: int,
    h: SealedHead,
    recs: Seq<Slot>,
    lists: Seq<Seq<Fk>>,
)
    requires
        a.wf(),
        recs_clear(a, recs),
        0 <= shard < a.n_shards,
        recs_sound(
            &a.bodies@[main_body(a.layout, shard)],
            recs,
            lists,
            a.n_shards as int,
            shard,
        ),
        h.inv(),
        forall|i: int| 0 <= i < h.records().len() ==> recs.contains(#[trigger] h.records()[i]),
        forall|i: int|
            0 <= i < recs.len() ==> sealed_word(h.records(), (#[trigger] recs[i]).key@) is Some,
        b.scale == a.scale,
        b.layout == a.layout,
        b.n_shards == a.n_shards,
        b.main@ == a.main@.update(shard, Some(h)),
        b.ingest == a.ingest,
        b.sealed_ovf@ == a.sealed_ovf@,
        b.ovf_l1 == a.ovf_l1,
        b.bodies@ == a.bodies@,
    ensures
        b.wf(),
        installed(a, b, shard, recs, lists),
        first_words(h.records(), recs) ==> installed_first(a, b, shard, recs, lists),
{
    assert(b.parts_ok()) by {
        assert forall|i: int| 0 <= i < b.main@.len() implies ((#[trigger] b.main@[i]) matches Some(
            g,
        ) ==> g.inv()) by {
            if i != shard {
                assert(b.main@[i] == a.main@[i]);
            }
        }
    }
    lemma_install_apart(a, b, shard, h, recs);
    assert forall|k: Seq<u8>| k.len() == 16 implies #[trigger] b.key_sound(k) && (if prefix_shard(
        k,
        a.n_shards as int,
    ) == shard {
        if in_ovf(a, k) {
            b.creates(k) == a.creates(k)
        } else if has_key(recs, k) {
            exists|i: int|
                0 <= i < recs.len() && (#[trigger] recs[i]).key@ == k && b.creates(k) == lists[i]
        } else {
            b.creates(k) == Seq::<Fk>::empty()
        }
    } else {
        b.creates(k) == a.creates(k)
    }) by {
        lemma_install_key(a, b, shard, h, recs, lists, k);
    }
    assert forall|k: Seq<u8>|
        #![trigger b.creates(k)]
        k.len() == 16 && prefix_shard(k, a.n_shards as int) == shard implies if in_ovf(a, k) {
        b.creates(k) == a.creates(k)
    } else if has_key(recs, k) {
        exists|i: int|
            0 <= i < recs.len() && (#[trigger] recs[i]).key@ == k && b.creates(k) == lists[i]
    } else {
        b.creates(k) == Seq::<Fk>::empty()
    } by {
        assert(b.key_sound(k));
    }
    assert forall|k: Seq<u8>|
        #![trigger b.creates(k)]
        k.len() == 16 && prefix_shard(k, a.n_shards as int) != shard implies b.creates(k)
        == a.creates(k) by {
        assert(b.key_sound(k));
    }
    if first_words(h.records(), recs) {
        assert forall|k: Seq<u8>|
            k.len() == 16 && prefix_shard(k, a.n_shards as int) == shard && !in_ovf(
                a,
                k,
            ) implies #[trigger] b.creates(k) == first_list(recs, lists, k) by {
            lemma_install_first(a, b, shard, h, recs, lists, k);
        }
    }
}

proof fn lemma_install_first(
    a: &ScriptHashTable,
    b: &ScriptHashTable,
    shard: int,
    h: SealedHead,
    recs: Seq<Slot>,
    lists: Seq<Seq<Fk>>,
    k: Seq<u8>,
)
    requires
        a.wf(),
        0 <= shard < a.n_shards,
        k.len() == 16,
        prefix_shard(k, a.n_shards as int) == shard,
        !in_ovf(a, k),
        recs_sound(
            &a.bodies@[main_body(a.layout, shard)],
            recs,
            lists,
            a.n_shards as int,
            shard,
        ),
        first_words(h.records(), recs),
        b.layout == a.layout,
        b.n_shards == a.n_shards,
        b.main@ == a.main@.update(shard, Some(h)),
        b.ingest == a.ingest,
        b.sealed_ovf@ == a.sealed_ovf@,
        b.ovf_l1 == a.ovf_l1,
        b.bodies@ == a.bodies@,
    ensures
        b.creates(k) == first_list(recs, lists, k),
{
    lemma_body_index(a, k, KeyHome::Main);
    let bi = main_body(a.layout, shard);
    lemma_first_at(recs, k);
    assert(b.main@[shard] == Some(h));
    assert(h.word(k) == first_word(recs, k));
    let i = first_at(recs, k);
    if i < recs.len() {
        assert(b.located(k) == Some((recs[i].word, KeyHome::Main)));
        let v = unpack8(recs[i].word)->Ok_0;
        assert(rec_sound(&a.bodies@[bi], recs[i], lists[i]));
        let pages = choose|pages: Seq<int>| #[trigger]
            holds_value(&a.bodies@[bi], v, k, pages, lists[i]);
        assert(holds_value(&b.bodies@[bi], v, k, pages, lists[i]));
        lemma_view_holds(&b.bodies@[bi], v, k, pages, lists[i]);
    } else {
        assert(b.located(k) is None);
    }
}

proof fn lemma_install_key(
    a: &ScriptHashTable,
    b: &ScriptHashTable,
    shard: int,
    h: SealedHead,
    recs: Seq<Slot>,
    lists: Seq<Seq<Fk>>,
    k: Seq<u8>,
)
    requires
        a.wf(),
        b.parts_ok(),
        recs_clear(a, recs),
        0 <= shard < a.n_shards,
        k.len() == 16,
        recs_sound(
            &a.bodies@[main_body(a.layout, shard)],
            recs,
            lists,
            a.n_shards as int,
            shard,
        ),
        h.inv(),
        forall|i: int| 0 <= i < h.records().len() ==> recs.contains(#[trigger] h.records()[i]),
        forall|i: int|
            0 <= i < recs.len() ==> sealed_word(h.records(), (#[trigger] recs[i]).key@) is Some,
        b.layout == a.layout,
        b.n_shards == a.n_shards,
        b.main@ == a.main@.update(shard, Some(h)),
        b.ingest == a.ingest,
        b.sealed_ovf@ == a.sealed_ovf@,
        b.ovf_l1 == a.ovf_l1,
        b.bodies@ == a.bodies@,
    ensures
        b.key_sound(k),
        prefix_shard(k, a.n_shards as int) == shard ==> if in_ovf(a, k) {
            b.creates(k) == a.creates(k)
        } else if has_key(recs, k) {
            exists|i: int|
                0 <= i < recs.len() && (#[trigger] recs[i]).key@ == k && b.creates(k) == lists[i]
        } else {
            b.creates(k) == Seq::<Fk>::empty()
        },
        prefix_shard(k, a.n_shards as int) != shard ==> b.creates(k) == a.creates(k),
{
    lemma_body_index(a, k, KeyHome::Main);
    let n = a.n_shards as int;
    let bi = main_body(a.layout, shard);
    assert(a.key_sound(k));
    if in_ovf(a, k) {
        assert(b.located(k) == a.located(k));
    } else if prefix_shard(k, n) == shard {
        assert(b.main@[shard] == Some(h));
        if h.word(k) is Some {
            let j = lemma_sealed_has(h.records(), k);
            assert(recs.contains(h.records()[j]));
            let i = choose|i: int| 0 <= i < recs.len() && recs[i] == h.records()[j];
            assert(recs[i].key@ == k);
            assert(b.located(k) == Some((recs[i].word, KeyHome::Main)));
            let v = unpack8(recs[i].word)->Ok_0;
            assert(rec_sound(&a.bodies@[bi], recs[i], lists[i]));
            let pages = choose|pages: Seq<int>| #[trigger]
                holds_value(&a.bodies@[bi], v, k, pages, lists[i]);
            assert(holds_value(&b.bodies@[bi], v, k, pages, lists[i]));
            assert(sound_at(&b.bodies@[bi], v, k));
            lemma_view_holds(&b.bodies@[bi], v, k, pages, lists[i]);
            assert(b.creates(k) == lists[i]);
            assert(has_key(recs, k));
        } else {
            assert(b.located(k) is None);
            if has_key(recs, k) {
                let i = choose|i: int| 0 <= i < recs.len() && (#[trigger] recs[i]).key@ == k;
                assert(sealed_word(h.records(), recs[i].key@) is Some);
            }
        }
    } else {
        assert(b.located(k) == a.located(k));
    }
}

impl ScriptHashTable {
    /// True if the key is in the ingest head or in an overflow head.
    pub(crate) fn key_in_overflow(&self, key: &ShHeadKey) -> (r: bool)
        requires
            self.wf(),
        ensures
            r == in_ovf(self, key@),
    {
        match self.key_home(&full_from_key(key)) {
            KeyHome::Ingest => true,
            KeyHome::SealedOvf => true,
            _ => false,
        }
    }

    /// Index of the body that a main shard uses.
    pub(crate) fn main_body_index(&self, shard: usize) -> (r: usize)
        ensures
            r == main_body(self.layout, shard as int),
    {
        match self.layout {
            ShBodyLayout::Shared => 0,
            ShBodyLayout::Sharded => shard,
        }
    }

    /// The records that the overflow does not mask.
    fn unmasked(&self, shard: usize, recs: &Vec<Slot>, Ghost(lists): Ghost<Seq<Seq<Fk>>>) -> (r: (
        Vec<Slot>,
        Ghost<Seq<Seq<Fk>>>,
    ))
        requires
            self.wf(),
            shard < self.n_shards,
            recs_sound(
                &self.bodies@[main_body(self.layout, shard as int)],
                recs@,
                lists,
                self.n_shards as int,
                shard as int,
            ),
        ensures
            is_unmasked(self, recs@, lists, r.0@, r.1@),
            r.0@ == clear_part(self, recs@, recs@.len() as int),
            r.1@ == clear_lists(self, recs@, lists, recs@.len() as int),
            recs_sound(
                &self.bodies@[main_body(self.layout, shard as int)],
                r.0@,
                r.1@,
                self.n_shards as int,
                shard as int,
            ),
    {
        let ghost b = &self.bodies@[main_body(self.layout, shard as int)];
        let ghost n = self.n_shards as int;
        let mut out: Vec<Slot> = Vec::new();
        let ghost mut kept: Seq<Seq<Fk>> = Seq::empty();
        let mut i: usize = 0;
        proof {
            assert(recs@.subrange(0, 0) =~= Seq::empty());
        }
        while i < recs.len()
            invariant
                i <= recs@.len(),
                self.wf(),
                recs_sound(b, recs@, lists, n, shard as int),
                recs_sound(b, out@, kept, n, shard as int),
                is_unmasked(self, recs@.subrange(0, i as int), lists, out@, kept),
                out@ == clear_part(self, recs@, i as int),
                kept == clear_lists(self, recs@, lists, i as int),
            decreases recs@.len() - i,
        {
            let s: Slot = recs[i];
            let ghost (out0, kept0) = (out@, kept);
            let ghost p = recs@.subrange(0, i as int);
            let ghost q = recs@.subrange(0, i + 1);
            if !self.key_in_overflow(&s.key) {
                out.push(s);
                proof {
                    kept = kept.push(lists[i as int]);
                    assert forall|j: int| 0 <= j < out@.len() implies prefix_shard(
                        (#[trigger] out@[j]).key@,
                        n,
                    ) == shard && rec_sound(b, out@[j], kept[j]) by {
                        if j < out0.len() {
                            assert(out@[j] == out0[j]);
                        } else {
                            assert(out@[j] == recs@[i as int]);
                        }
                    }
                }
            }
            proof {
                assert forall|j: int| 0 <= j < out@.len() implies !in_ovf(
                    self,
                    (#[trigger] out@[j]).key@,
                ) && exists|m: int|
                    0 <= m < q.len() && #[trigger] q[m] == out@[j] && lists[m] == kept[j] by {
                    if j < out0.len() {
                        assert(out@[j] == out0[j]);
                        let m = choose|m: int|
                            0 <= m < p.len() && #[trigger] p[m] == out0[j] && lists[m] == kept0[j];
                        assert(q[m] == out@[j]);
                    } else {
                        assert(q[i as int] == out@[j]);
                    }
                }
                assert forall|m: int|
                    0 <= m < q.len() && !in_ovf(self, (#[trigger] q[m]).key@) implies has_key(
                    out@,
                    q[m].key@,
                ) by {
                    if m < i {
                        assert(p[m] == q[m]);
                        assert(has_key(out0, p[m].key@));
                        let j = choose|j: int|
                            0 <= j < out0.len() && (#[trigger] out0[j]).key@ == p[m].key@;
                        assert(out@[j] == out0[j]);
                    } else {
                        assert(out@[out@.len() - 1].key@ == q[m].key@);
                    }
                }
            }
            i += 1;
        }
        proof {
            assert(recs@.subrange(0, i as int) =~= recs@);
        }
        (out, Ghost(kept))
    }

    /// Makes the records the head of a main shard. Records that the overflow masks are left
    /// out.
    pub(crate) fn install_sorted_main(
        &mut self,
        shard: usize,
        recs: &Vec<Slot>,
        Ghost(lists): Ghost<Seq<Seq<Fk>>>,
    )
        requires
            old(self).wf(),
            shard < old(self).n_shards,
            recs_sound(
                &old(self).bodies@[main_body(old(self).layout, shard as int)],
                recs@,
                lists,
                old(self).n_shards as int,
                shard as int,
            ),
        ensures
            final(self).wf(),
            same_ovf(old(self), final(self)),
            final(self).bodies@ == old(self).bodies@,
            final(self).shape() == old(self).shape(),
            final(self).hwm() == old(self).hwm(),
            final(self).main@.len() == old(self).main@.len(),
            final(self).main@[shard as int] is Some,
            forall|i: int|
                0 <= i < old(self).main@.len() && i != shard ==> final(self).main@[i] == old(
                    self,
                ).main@[i],
            installed(old(self), final(self), shard as int, recs@, lists),
            sorted_by_rank(recs@) ==> installed_first(
                old(self),
                final(self),
                shard as int,
                recs@,
                lists,
            ),
            forall|k: Seq<u8>|
                k.len() == 16 && prefix_shard(k, old(self).n_shards as int) != shard
                    ==> #[trigger] final(self).located(k) == old(self).located(k),
    {
        let (clear, Ghost(kept)) = self.unmasked(shard, recs, Ghost(lists));
        let sorted = seal_recs(&clear);
        let ghost a = *self;
        let h = SealedHead::seal(0, sorted);
        let ghost gh = h;
        self.main.set(shard, Some(h));
        proof {
            lemma_install(&a, self, shard as int, gh, clear@, kept);
            lemma_unmasked(&a, self, shard as int, recs@, lists, clear@, kept);
            assert(recs@.subrange(0, recs@.len() as int) =~= recs@);
            if sorted_by_rank(recs@) {
                lemma_clear_part(&a, recs@, lists, recs@.len() as int, Seq::empty());
                assert forall|k: Seq<u8>|
                    k.len() == 16 && prefix_shard(k, a.n_shards as int) == shard && !in_ovf(
                        &a,
                        k,
                    ) implies #[trigger] self.creates(k) == first_list(recs@, lists, k) by {
                    lemma_clear_part(&a, recs@, lists, recs@.len() as int, k);
                }
            }
            assert forall|k: Seq<u8>|
                k.len() == 16 && prefix_shard(k, a.n_shards as int) != shard implies #[trigger] self.located(
                k,
            ) == a.located(k) by {
                lemma_body_index(&a, k, KeyHome::Main);
            }
        }
    }
}

} // verus!
