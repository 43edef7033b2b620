//! The list of all live creates names each create of each key once.

use vstd::prelude::*;
use crate::error::StoreError;
use crate::primitives::Fk;
use crate::scripthash::{body_index, head_word, l1_word, lemma_body_index, lemma_sound_read, main_word, sealed_apart, KeyHome, ScriptHashTable};
use crate::scripthash_cold::{ingest_recs, joined, l1_fks, main_fks, ovf_bytes, recs_fks, sealed_fks};
use crate::scripthash_head::prefix_shard;
use crate::scripthash_install::main_body;
use crate::sealed_head::{keys_rise, lemma_newest_at, lemma_newest_none, lemma_newest_some, lemma_sealed_at, lemma_sealed_has, newest_word, sealed_word};
use crate::slot_table::{lookup, Slot};
use crate::sorting::Ranked;

verus! {

/// The creates of the keys, one key after the other.
pub open spec fn creates_of(t: &ScriptHashTable, keys: Seq<Seq<u8>>) -> Seq<Fk>
    decreases keys.len(),
{
    if keys.len() == 0 {
        Seq::empty()
    } else {
        creates_of(t, keys.drop_last()) + t.creates(keys.last())
    }
}

/// Keys of records.
spec fn rec_keys(recs: Seq<Slot>) -> Seq<Seq<u8>> {
    recs.map_values(|s: Slot| s.key@)
}

/// The keys are distinct and have these creates.
spec fn gathered(t: &ScriptHashTable, keys: Seq<Seq<u8>>, fks: Seq<Fk>) -> bool {
    &&& keys.no_duplicates()
    &&& creates_of(t, keys) == fks
    &&& forall|i: int| 0 <= i < keys.len() ==> (#[trigger] keys[i]).len() == 16
}

proof fn lemma_creates_concat(t: &ScriptHashTable, a: Seq<Seq<u8>>, b: Seq<Seq<u8>>)
    ensures
        creates_of(t, a + b) == creates_of(t, a) + creates_of(t, b),
    decreases b.len(),
{
    if b.len() == 0 {
        assert(a + b =~= a);
        assert(creates_of(t, a) + creates_of(t, b) =~= creates_of(t, a));
    } else {
        lemma_creates_concat(t, a, b.drop_last());
        assert((a + b).drop_last() =~= a + b.drop_last());
        assert((a + b).last() == b.last());
        assert(creates_of(t, a + b) =~= creates_of(t, a) + creates_of(t, b));
    }
}

/// The head of this kind answers for the keys of the records.
spec fn answers(t: &ScriptHashTable, recs: Seq<Slot>, home: KeyHome, bytes: Seq<u8>) -> bool {
    forall|i: int|
        0 <= i < recs.len() ==> t.located((#[trigger] recs[i]).key@) == Some((recs[i].word, home))
            && t.body_at(recs[i].key@, home).bytes@ == bytes
}

/// The creates that records name are those of their keys.
proof fn lemma_recs_creates(t: &ScriptHashTable, recs: Seq<Slot>, home: KeyHome, bytes: Seq<u8>)
    requires
        t.wf(),
        answers(t, recs, home, bytes),
        recs_fks(recs, bytes) is Ok,
    ensures
        recs_fks(recs, bytes)->Ok_0 == creates_of(t, rec_keys(recs)),
    decreases recs.len(),
{
    if recs.len() > 0 {
        let d = recs.drop_last();
        assert forall|i: int| 0 <= i < d.len() implies t.located((#[trigger] d[i]).key@) == Some(
            (d[i].word, home),
        ) && t.body_at(d[i].key@, home).bytes@ == bytes by {
            assert(d[i] == recs[i]);
        }
        lemma_recs_creates(t, d, home, bytes);
        let s = recs.last();
        assert(recs[recs.len() - 1] == s);
        lemma_sound_read(t, s.key@);
        assert(rec_keys(recs).drop_last() =~= rec_keys(d));
        assert(rec_keys(recs).last() == s.key@);
    }
}

/// One head more.
proof fn lemma_add_head(
    t: &ScriptHashTable,
    keys: Seq<Seq<u8>>,
    fks: Seq<Fk>,
    recs: Seq<Slot>,
    home: KeyHome,
    bytes: Seq<u8>,
)
    requires
        t.wf(),
        gathered(t, keys, fks),
        keys_rise(recs),
        answers(t, recs, home, bytes),
        recs_fks(recs, bytes) is Ok,
        forall|k: Seq<u8>| #[trigger] keys.contains(k) ==> sealed_word(recs, k) is None,
    ensures
        gathered(t, keys + rec_keys(recs), fks + recs_fks(recs, bytes)->Ok_0),
        forall|k: Seq<u8>| #[trigger]
            (keys + rec_keys(recs)).contains(k) <==> keys.contains(k) || sealed_word(recs, k)
                is Some,
{
    let more = rec_keys(recs);
    let all = keys + more;
    lemma_recs_creates(t, recs, home, bytes);
    lemma_creates_concat(t, keys, more);
    assert forall|i: int| 0 <= i < recs.len() implies sealed_word(recs, (#[trigger] recs[i]).key@)
        == Some(recs[i].word) by {
        lemma_sealed_at(recs, i);
    }
    assert forall|i: int, j: int| 0 <= i < all.len() && 0 <= j < all.len() && i != j implies all[i]
        != all[j] by {
        let n = keys.len() as int;
        if i < n && j < n {
        } else if i < n {
            assert(keys.contains(keys[i]));
            assert(sealed_word(recs, recs[j - n].key@) is Some);
        } else if j < n {
            assert(keys.contains(keys[j]));
            assert(sealed_word(recs, recs[i - n].key@) is Some);
        } else if i < j {
            assert(recs[i - n].rank() < recs[j - n].rank());
        } else {
            assert(recs[j - n].rank() < recs[i - n].rank());
        }
    }
    assert forall|k: Seq<u8>| #[trigger] all.contains(k) <==> keys.contains(k) || sealed_word(
        recs,
        k,
    ) is Some by {
        if all.contains(k) {
            let i = choose|i: int| 0 <= i < all.len() && all[i] == k;
            if i < keys.len() {
                assert(keys[i] == k);
            } else {
                assert(recs[i - keys.len()].key@ == k);
            }
        }
        if keys.contains(k) {
            let i = choose|i: int| 0 <= i < keys.len() && keys[i] == k;
            assert(all[i] == k);
        }
        if sealed_word(recs, k) is Some {
            let i = lemma_sealed_has(recs, k);
            assert(all[keys.len() + i] == k);
        }
    }
}

/// One of the first `n` main heads holds the key.
spec fn in_main(t: &ScriptHashTable, n: int, k: Seq<u8>) -> bool {
    exists|s: int| 0 <= s < n && head_word(#[trigger] t.main@[s], k) is Some
}

/// One of the first `n` overflow heads holds the key.
spec fn in_sealed(t: &ScriptHashTable, n: int, k: Seq<u8>) -> bool {
    exists|s: int| 0 <= s < n && (#[trigger] t.sealed_ovf@[s]).word(k) is Some
}

/// A main head answers for its keys.
proof fn lemma_main_answers(t: &ScriptHashTable, s: int)
    requires
        t.wf(),
        0 <= s < t.main@.len(),
        t.main@[s] is Some,
    ensures
        answers(
            t,
            t.main@[s]->0.records(),
            KeyHome::Main,
            t.bodies@[main_body(t.layout, s)].bytes@,
        ),
        forall|r: int, k: Seq<u8>|
            0 <= r < t.main@.len() && r != s && head_word(#[trigger] t.main@[r], k) is Some
                ==> #[trigger] t.main@[s]->0.word(k) is None,
{
    reveal(sealed_apart);
    let h = t.main@[s]->0;
    let recs = h.records();
    let n = t.n_shards as int;
    assert forall|i: int| 0 <= i < recs.len() implies t.located((#[trigger] recs[i]).key@) == Some(
        (recs[i].word, KeyHome::Main),
    ) && t.body_at(recs[i].key@, KeyHome::Main).bytes@ == t.bodies@[main_body(
        t.layout,
        s,
    )].bytes@ by {
        let k = recs[i].key@;
        lemma_sealed_at(recs, i);
        assert(head_word(t.main@[s], k) is Some);
        assert(prefix_shard(k, n) == s);
        assert(main_word(t.main@, n, k) == Some(recs[i].word));
        assert(newest_word(t.sealed_ovf@, k) is None);
        assert(l1_word(t.ovf_l1, k) is None);
        assert(!t.ingest@.dom().contains(k));
    }
    assert forall|r: int, k: Seq<u8>|
        0 <= r < t.main@.len() && r != s && head_word(#[trigger] t.main@[r], k)
            is Some implies #[trigger] t.main@[s]->0.word(k) is None by {
        if h.word(k) is Some {
            assert(head_word(t.main@[s], k) is Some);
        }
    }
}

/// The keys of the first `n` main heads.
proof fn lemma_main_keys(t: &ScriptHashTable, n: int) -> (keys: Seq<Seq<u8>>)
    requires
        t.wf(),
        0 <= n <= t.main@.len(),
        main_fks(t, n) is Ok,
    ensures
        gathered(t, keys, main_fks(t, n)->Ok_0),
        forall|k: Seq<u8>| #[trigger] keys.contains(k) <==> in_main(t, n, k),
    decreases n,
{
    if n == 0 {
        let keys = Seq::<Seq<u8>>::empty();
        assert(creates_of(t, keys) =~= Seq::empty());
        keys
    } else {
        let keys = lemma_main_keys(t, n - 1);
        match t.main@[n - 1] {
            None => {
                assert forall|k: Seq<u8>| #[trigger] keys.contains(k) <==> in_main(t, n, k) by {
                    lemma_in_main(t, n, k);
                }
                keys
            },
            Some(h) => {
                let bytes = t.bodies@[main_body(t.layout, n - 1)].bytes@;
                lemma_main_answers(t, n - 1);
                assert forall|k: Seq<u8>| #[trigger] keys.contains(k) implies sealed_word(
                    h.records(),
                    k,
                ) is None by {
                    let s = choose|s: int| 0 <= s < n - 1 && head_word(#[trigger] t.main@[s], k) is Some;
                    assert(t.main@[n - 1]->0.word(k) is None);
                }
                lemma_add_head(
                    t,
                    keys,
                    main_fks(t, n - 1)->Ok_0,
                    h.records(),
                    KeyHome::Main,
                    bytes,
                );
                let all = keys + rec_keys(h.records());
                assert forall|k: Seq<u8>| #[trigger] all.contains(k) <==> in_main(t, n, k) by {
                    lemma_in_main(t, n, k);
                }
                all
            },
        }
    }
}

proof fn lemma_in_main(t: &ScriptHashTable, n: int, k: Seq<u8>)
    requires
        0 < n <= t.main@.len(),
    ensures
        in_main(t, n, k) <==> in_main(t, n - 1, k) || head_word(t.main@[n - 1], k) is Some,
{
    if in_main(t, n - 1, k) {
        let s = choose|s: int| 0 <= s < n - 1 && head_word(#[trigger] t.main@[s], k) is Some;
        assert(0 <= s < n && head_word(t.main@[s], k) is Some);
    }
    if head_word(t.main@[n - 1], k) is Some {
        assert(in_main(t, n, k));
    }
}

proof fn lemma_in_sealed(t: &ScriptHashTable, n: int, k: Seq<u8>)
    requires
        0 < n <= t.sealed_ovf@.len(),
    ensures
        in_sealed(t, n, k) <==> in_sealed(t, n - 1, k) || t.sealed_ovf@[n - 1].word(k) is Some,
{
    if in_sealed(t, n - 1, k) {
        let s = choose|s: int| 0 <= s < n - 1 && (#[trigger] t.sealed_ovf@[s]).word(k) is Some;
        assert(0 <= s < n && t.sealed_ovf@[s].word(k) is Some);
    }
}

/// A key of a main head is in no overflow head.
proof fn lemma_main_only(t: &ScriptHashTable, k: Seq<u8>)
    requires
        t.wf(),
        in_main(t, t.main@.len() as int, k),
    ensures
        main_word(t.main@, t.n_shards as int, k) is Some,
        newest_word(t.sealed_ovf@, k) is None,
        l1_word(t.ovf_l1, k) is None,
        !t.ingest@.dom().contains(k),
{
    reveal(sealed_apart);
    let s = choose|s: int|
        0 <= s < t.main@.len() && head_word(#[trigger] t.main@[s], k) is Some;
    assert(head_word(t.main@[s], k) is Some);
    assert(prefix_shard(k, t.n_shards as int) == s);
}

/// The overflow heads answer for their keys.
proof fn lemma_ovf_answers(t: &ScriptHashTable, recs: Seq<Slot>, home: KeyHome)
    requires
        t.wf(),
        home != KeyHome::Main,
        keys_rise(recs),
        forall|i: int|
            0 <= i < recs.len() ==> t.located((#[trigger] recs[i]).key@) == Some(
                (recs[i].word, home),
            ),
    ensures
        answers(t, recs, home, ovf_bytes(t)),
{
    assert forall|i: int| 0 <= i < recs.len() implies t.body_at((#[trigger] recs[i]).key@, home).bytes@
        == ovf_bytes(t) by {
        assert(body_index(t.layout, t.n_shards as int, recs[i].key@, home) == t.bodies@.len() - 1);
    }
}

/// The keys of the main heads and of the first `n` overflow heads.
proof fn lemma_sealed_keys(t: &ScriptHashTable, n: int) -> (keys: Seq<Seq<u8>>)
    requires
        t.wf(),
        0 <= n <= t.sealed_ovf@.len(),
        sealed_fks(t, n) is Ok,
    ensures
        gathered(t, keys, sealed_fks(t, n)->Ok_0),
        forall|k: Seq<u8>| #[trigger]
            keys.contains(k) <==> in_main(t, t.main@.len() as int, k) || in_sealed(t, n, k),
    decreases n,
{
    if n == 0 {
        lemma_main_keys(t, t.main@.len() as int)
    } else {
        let keys = lemma_sealed_keys(t, n - 1);
        let heads = t.sealed_ovf@;
        let h = heads[n - 1];
        let recs = h.records();
        assert(h.inv());
        assert forall|i: int| 0 <= i < recs.len() implies t.located((#[trigger] recs[i]).key@)
            == Some((recs[i].word, KeyHome::SealedOvf)) by {
            let k = recs[i].key@;
            lemma_sealed_at(recs, i);
            assert forall|j: int| n - 1 < j < heads.len() implies (#[trigger] heads[j]).word(k)
                is None by {
                assert(heads[n - 1].word(k) is Some);
            }
            lemma_newest_at(heads, k, n - 1);
            assert(!t.ingest@.dom().contains(k));
        }
        lemma_ovf_answers(t, recs, KeyHome::SealedOvf);
        assert forall|k: Seq<u8>| #[trigger] keys.contains(k) implies sealed_word(recs, k)
            is None by {
            if in_main(t, t.main@.len() as int, k) {
                lemma_main_only(t, k);
                lemma_newest_none(heads, k, n - 1);
            } else {
                let s = choose|s: int| 0 <= s < n - 1 && (#[trigger] heads[s]).word(k) is Some;
                assert(heads[s].word(k) is Some);
                assert(heads[n - 1].word(k) is None);
            }
        }
        lemma_add_head(
            t,
            keys,
            sealed_fks(t, n - 1)->Ok_0,
            recs,
            KeyHome::SealedOvf,
            ovf_bytes(t),
        );
        let all = keys + rec_keys(recs);
        assert forall|k: Seq<u8>| #[trigger] all.contains(k) <==> in_main(
            t,
            t.main@.len() as int,
            k,
        ) || in_sealed(t, n, k) by {
            lemma_in_sealed(t, n, k);
        }
        all
    }
}

/// A key of an overflow head has its newest word there.
proof fn lemma_in_newest(t: &ScriptHashTable, k: Seq<u8>)
    ensures
        in_sealed(t, t.sealed_ovf@.len() as int, k) <==> newest_word(t.sealed_ovf@, k) is Some,
{
    let heads = t.sealed_ovf@;
    if newest_word(heads, k) is Some {
        let s = lemma_newest_some(heads, k);
        assert(heads[s].word(k) is Some);
    } else if in_sealed(t, heads.len() as int, k) {
        let s = choose|s: int| 0 <= s < heads.len() && (#[trigger] heads[s]).word(k) is Some;
        lemma_newest_none(heads, k, s);
    }
}

/// The keys of all sealed heads.
proof fn lemma_l1_keys(t: &ScriptHashTable) -> (keys: Seq<Seq<u8>>)
    requires
        t.wf(),
        l1_fks(t) is Ok,
    ensures
        gathered(t, keys, l1_fks(t)->Ok_0),
        forall|k: Seq<u8>| #[trigger]
            keys.contains(k) <==> in_main(t, t.main@.len() as int, k) || newest_word(
                t.sealed_ovf@,
                k,
            ) is Some || l1_word(t.ovf_l1, k) is Some,
{
    let n = t.sealed_ovf@.len() as int;
    let m = t.main@.len() as int;
    let keys = lemma_sealed_keys(t, n);
    assert forall|k: Seq<u8>| #[trigger] keys.contains(k) <==> in_main(t, m, k) || newest_word(
        t.sealed_ovf@,
        k,
    ) is Some by {
        lemma_in_newest(t, k);
    }
    match t.ovf_l1 {
        None => keys,
        Some(h) => {
            let recs = h.records();
            assert forall|k: Seq<u8>| #[trigger] keys.contains(k) implies sealed_word(recs, k)
                is None by {
                if in_main(t, m, k) {
                    lemma_main_only(t, k);
                } else {
                    reveal(sealed_apart);
                    assert(newest_word(t.sealed_ovf@, k) is Some);
                }
            }
            assert forall|i: int| 0 <= i < recs.len() implies t.located((#[trigger] recs[i]).key@)
                == Some((recs[i].word, KeyHome::SealedOvf)) by {
                let k = recs[i].key@;
                lemma_sealed_at(recs, i);
                assert(l1_word(t.ovf_l1, k) == Some(recs[i].word));
                assert(!keys.contains(k));
                assert(!t.ingest@.dom().contains(k));
            }
            lemma_ovf_answers(t, recs, KeyHome::SealedOvf);
            lemma_add_head(t, keys, sealed_fks(t, n)->Ok_0, recs, KeyHome::SealedOvf, ovf_bytes(t));
            keys + rec_keys(recs)
        },
    }
}

/// The list of all live creates is made of the creates of all keys that have some, each
/// key once.
pub proof fn law_live_creates_once(t: &ScriptHashTable, recs: Seq<Slot>, out: Seq<Fk>) -> (keys:
    Seq<Seq<u8>>)
    requires
        t.wf(),
        ingest_recs(t, recs),
        joined(l1_fks(t), recs_fks(recs, ovf_bytes(t))) == Ok::<Seq<Fk>, StoreError>(out),
    ensures
        keys.no_duplicates(),
        forall|i: int| 0 <= i < keys.len() ==> (#[trigger] keys[i]).len() == 16,
        out == creates_of(t, keys),
        forall|k: Seq<u8>|
            k.len() == 16 && t.creates(k).len() > 0 ==> #[trigger] keys.contains(k),
{
    let keys = lemma_l1_keys(t);
    assert forall|k: Seq<u8>| #[trigger] t.ingest@.dom().contains(k) <==> sealed_word(recs, k)
        is Some by {
        assert(sealed_word(recs, k) == lookup(t.ingest.table(), k));
    }
    assert forall|k: Seq<u8>| #[trigger] keys.contains(k) implies sealed_word(recs, k) is None by {
        if t.ingest@.dom().contains(k) && in_main(t, t.main@.len() as int, k) {
            lemma_main_only(t, k);
        }
    }
    assert forall|i: int| 0 <= i < recs.len() implies t.located((#[trigger] recs[i]).key@) == Some(
        (recs[i].word, KeyHome::Ingest),
    ) by {
        lemma_sealed_at(recs, i);
        assert(t.ingest@.dom().contains(recs[i].key@));
    }
    lemma_ovf_answers(t, recs, KeyHome::Ingest);
    lemma_add_head(t, keys, l1_fks(t)->Ok_0, recs, KeyHome::Ingest, ovf_bytes(t));
    let all = keys + rec_keys(recs);
    assert forall|k: Seq<u8>| k.len() == 16 && t.creates(k).len() > 0 implies #[trigger] all.contains(
        k,
    ) by {
        lemma_body_index(t, k, KeyHome::Main);
        if main_word(t.main@, t.n_shards as int, k) is Some {
            assert(head_word(t.main@[prefix_shard(k, t.n_shards as int)], k) is Some);
            assert(in_main(t, t.main@.len() as int, k));
        }
        assert(all.contains(k) <==> keys.contains(k) || sealed_word(recs, k) is Some);
        assert(t.located(k) is Some);
    }
    all
}

} // verus!
