//! Check of a table that was opened from files of unknown origin.
//!
//! A table whose files were saved from a table is in order. Other files may give one that can
//! be searched and read, but not written to: two keys may share a block, or a free list may
//! run into a page. The check finds the blocks of all bodies again and tells whether keys
//! lead to creates of their own.

use vstd::prelude::*;
use crate::primitives::Fk;
use crate::scripthash::{body_index, head_word, l1_word, lemma_body_index, main_word, sealed_apart, sound_at, KeyHome, ScriptHashTable, ShBodyLayout};
use crate::scripthash_body::{Block, ShBody};
use crate::scripthash_cold::head_recs;
use crate::scripthash_head::{full_from_key, prefix_shard, prefix_shard_of};
use crate::scripthash_heap::{has_heap, heap_fits, recs_sound_in, with_heap};
use crate::scripthash_layout::ShHeadKey;
use crate::scripthash_pack8::unpack8;
use crate::scripthash_values::holds_value;
use crate::sealed_head::{keys_rise, lemma_newest_at, lemma_newest_some, lemma_sealed_at, lemma_sealed_has, newest_get, newest_word, sealed_word};
use crate::slot_table::{lookup, Slot};

verus! {

/// The record is among them.
spec fn has_rec(recs: Seq<Slot>, k: Seq<u8>, w: u64) -> bool {
    exists|i: int| 0 <= i < recs.len() && (#[trigger] recs[i]).key@ == k && recs[i].word == w
}

fn add_recs(out: &mut Vec<Slot>, more: &Vec<Slot>)
    ensures
        forall|k: Seq<u8>, w: u64| #[trigger]
            has_rec(old(out)@, k, w) ==> has_rec(final(out)@, k, w),
        forall|k: Seq<u8>, w: u64| #[trigger]
            has_rec(more@, k, w) ==> has_rec(final(out)@, k, w),
        forall|k: Seq<u8>, w: u64| #[trigger]
            has_rec(final(out)@, k, w) ==> has_rec(old(out)@, k, w) || has_rec(more@, k, w),
{
    let ghost start = out@;
    let mut i: usize = 0;
    while i < more.len()
        invariant
            i <= more@.len(),
            out@ == start + more@.subrange(0, i as int),
        decreases more@.len() - i,
    {
        out.push(more[i]);
        proof {
            assert(more@.subrange(0, i + 1) =~= more@.subrange(0, i as int).push(more@[i as int]));
            assert(out@ =~= start + more@.subrange(0, i + 1));
        }
        i += 1;
    }
    proof {
        assert(more@.subrange(0, i as int) =~= more@);
        assert forall|k: Seq<u8>, w: u64| #[trigger] has_rec(start, k, w) implies has_rec(
            out@,
            k,
            w,
        ) by {
            let j = choose|j: int|
                0 <= j < start.len() && (#[trigger] start[j]).key@ == k && start[j].word == w;
            assert(out@[j] == start[j]);
        }
        assert forall|k: Seq<u8>, w: u64| #[trigger] has_rec(more@, k, w) implies has_rec(
            out@,
            k,
            w,
        ) by {
            let j = choose|j: int|
                0 <= j < more@.len() && (#[trigger] more@[j]).key@ == k && more@[j].word == w;
            assert(out@[start.len() + j] == more@[j]);
        }
        assert forall|k: Seq<u8>, w: u64| #[trigger] has_rec(out@, k, w) implies has_rec(start, k, w)
            || has_rec(more@, k, w) by {
            let j = choose|j: int|
                0 <= j < out@.len() && (#[trigger] out@[j]).key@ == k && out@[j].word == w;
            if j < start.len() {
                assert(start[j] == out@[j]);
            } else {
                assert(more@[j - start.len()] == out@[j]);
            }
        }
    }
}

/// What a table holds but for the blocks that were found.
pub open spec fn same_data(a: &ScriptHashTable, b: &ScriptHashTable) -> bool {
    &&& b.scale == a.scale
    &&& b.layout == a.layout
    &&& b.n_shards == a.n_shards
    &&& b.main == a.main
    &&& b.ingest == a.ingest
    &&& b.sealed_ovf == a.sealed_ovf
    &&& b.ovf_l1 == a.ovf_l1
    &&& b.include_hwm == a.include_hwm
    &&& b.bodies@.len() == a.bodies@.len()
    &&& forall|i: int| 0 <= i < a.bodies@.len() ==> same_bytes(&a.bodies@[i], &#[trigger] b.bodies@[i])
}

/// The bodies have the same bytes, counters and free lists.
pub open spec fn same_bytes(a: &ShBody, b: &ShBody) -> bool {
    &&& b.bytes@ == a.bytes@
    &&& b.live_count == a.live_count
    &&& b.bump == a.bump
    &&& b.free_head@ == a.free_head@
}

impl ScriptHashTable {
    /// The word of a key in the main heads.
    fn main_get(&self, key: &ShHeadKey) -> (r: Option<u64>)
        requires
            self.readable(),
        ensures
            r == main_word(self.main@, self.n_shards as int, key@),
    {
        let full = full_from_key(key);
        let si: usize = prefix_shard_of(&full, self.n_shards);
        proof {
            lemma_body_index(self, key@, KeyHome::Main);
            assert(full@[0] == key@[0]);
        }
        match &self.main[si] {
            Some(h) => h.get(key),
            None => None,
        }
    }

    /// The word of a key in the merged overflow head.
    fn l1_get(&self, key: &ShHeadKey) -> (r: Option<u64>)
        requires
            self.readable(),
        ensures
            r == l1_word(self.ovf_l1, key@),
    {
        match &self.ovf_l1 {
            Some(h) => h.get(key),
            None => None,
        }
    }

    /// True if the main heads hold the keys of their shards.
    fn main_in_place(&self) -> (r: bool)
        requires
            self.readable(),
        ensures
            r == forall|s: int, k: Seq<u8>|
                0 <= s < self.main@.len() && #[trigger] head_word(self.main@[s], k) is Some
                    ==> prefix_shard(k, self.n_shards as int) == s,
    {
        let mut s: usize = 0;
        while s < self.main.len()
            invariant
                s <= self.main@.len(),
                self.readable(),
                forall|q: int, k: Seq<u8>|
                    0 <= q < s && #[trigger] head_word(self.main@[q], k) is Some ==> prefix_shard(
                        k,
                        self.n_shards as int,
                    ) == q,
            decreases self.main@.len() - s,
        {
            if let Some(h) = &self.main[s] {
                let recs = head_recs(h);
                let mut i: usize = 0;
                while i < recs.len()
                    invariant
                        i <= recs@.len(),
                        self.readable(),
                        0 <= s < self.main@.len(),
                        keys_rise(recs@),
                        forall|k: Seq<u8>| #[trigger]
                            head_word(self.main@[s as int], k) == sealed_word(recs@, k),
                        forall|j: int|
                            0 <= j < i ==> prefix_shard(
                                (#[trigger] recs@[j]).key@,
                                self.n_shards as int,
                            ) == s,
                    decreases recs@.len() - i,
                {
                    let full = full_from_key(&recs[i].key);
                    proof {
                        assert(full@[0] == recs@[i as int].key@[0]);
                        lemma_sealed_at(recs@, i as int);
                        assert(head_word(self.main@[s as int], recs@[i as int].key@) is Some);
                    }
                    if prefix_shard_of(&full, self.n_shards) != s {
                        return false;
                    }
                    i += 1;
                }
                proof {
                    assert forall|k: Seq<u8>| #[trigger] head_word(self.main@[s as int], k)
                        is Some implies prefix_shard(k, self.n_shards as int) == s by {
                        let j = lemma_sealed_has(recs@, k);
                        assert(prefix_shard(recs@[j].key@, self.n_shards as int) == s);
                    }
                }
            }
            s += 1;
        }
        true
    }

    /// True if none of the records is in the merged overflow head or in a main head.
    fn not_below(&self, recs: &Vec<Slot>) -> (r: bool)
        requires
            self.readable(),
            keys_rise(recs@),
        ensures
            r == forall|k: Seq<u8>|
                (#[trigger] sealed_word(recs@, k)) is Some ==> l1_word(self.ovf_l1, k) is None
                    && main_word(self.main@, self.n_shards as int, k) is None,
    {
        let mut i: usize = 0;
        while i < recs.len()
            invariant
                i <= recs@.len(),
                self.readable(),
                keys_rise(recs@),
                forall|j: int|
                    0 <= j < i ==> l1_word(self.ovf_l1, (#[trigger] recs@[j]).key@) is None
                        && main_word(self.main@, self.n_shards as int, recs@[j].key@) is None,
            decreases recs@.len() - i,
        {
            proof {
                lemma_sealed_at(recs@, i as int);
            }
            if self.l1_get(&recs[i].key).is_some() || self.main_get(&recs[i].key).is_some() {
                return false;
            }
            i += 1;
        }
        proof {
            assert forall|k: Seq<u8>| (#[trigger] sealed_word(recs@, k)) is Some implies l1_word(
                self.ovf_l1,
                k,
            ) is None && main_word(self.main@, self.n_shards as int, k) is None by {
                let j = lemma_sealed_has(recs@, k);
                assert(recs@[j].key@ == k);
            }
        }
        true
    }

    /// True if none of the records of a sealed overflow head is in a later one.
    fn not_later(&self, from: usize) -> (r: bool)
        requires
            self.readable(),
            from < self.sealed_ovf@.len(),
        ensures
            r == forall|j: int, k: Seq<u8>|
                from < j < self.sealed_ovf@.len() && self.sealed_ovf@[from as int].word(k) is Some
                    ==> (#[trigger] self.sealed_ovf@[j].word(k)) is None,
    {
        let recs = head_recs(&self.sealed_ovf[from]);
        let n: usize = self.sealed_ovf.len();
        let mut q: usize = from + 1;
        while q < n
            invariant
                n == self.sealed_ovf@.len(),
                from < q <= n,
                self.readable(),
                recs@ == self.sealed_ovf@[from as int].records(),
                forall|j: int, k: Seq<u8>|
                    from < j < q && self.sealed_ovf@[from as int].word(k) is Some ==> (
                    #[trigger] self.sealed_ovf@[j].word(k)) is None,
            decreases n - q,
        {
            let mut i: usize = 0;
            while i < recs.len()
                invariant
                    i <= recs@.len(),
                    self.readable(),
                    from < q < self.sealed_ovf@.len(),
                    recs@ == self.sealed_ovf@[from as int].records(),
                    forall|j: int|
                        0 <= j < i ==> self.sealed_ovf@[q as int].word((#[trigger] recs@[j]).key@)
                            is None,
                decreases recs@.len() - i,
            {
                proof {
                    assert(self.sealed_ovf@[from as int].inv());
                    lemma_sealed_at(recs@, i as int);
                    assert(self.sealed_ovf@[from as int].word(recs@[i as int].key@) is Some);
                }
                if self.sealed_ovf[q].get(&recs[i].key).is_some() {
                    assert(self.sealed_ovf@[q as int].word(recs@[i as int].key@) is Some);
                    return false;
                }
                i += 1;
            }
            proof {
                assert forall|k: Seq<u8>|
                    self.sealed_ovf@[from as int].word(k) is Some implies (
                #[trigger] self.sealed_ovf@[q as int].word(k)) is None by {
                    let j = lemma_sealed_has(recs@, k);
                    assert(self.sealed_ovf@[q as int].word(recs@[j].key@) is None);
                }
            }
            q += 1;
        }
        true
    }

    /// True if every key has one place, and the heads can be written to.
    #[verifier::rlimit(40)]
    fn heads_in_order(&self) -> (r: bool)
        requires
            self.readable(),
        ensures
            r == (self.ingest.inv() && self.ingest.used_slots() is Some && self.homes_apart()),
    {
        proof {
            reveal(sealed_apart);
        }
        if !self.ingest.check() || !self.main_in_place() {
            return false;
        }
        if let Some(h) = &self.ovf_l1 {
            let recs = head_recs(h);
            let mut i: usize = 0;
            while i < recs.len()
                invariant
                    i <= recs@.len(),
                    self.readable(),
                    keys_rise(recs@),
                    forall|k: Seq<u8>| #[trigger]
                        l1_word(self.ovf_l1, k) == sealed_word(recs@, k),
                    forall|j: int|
                        0 <= j < i ==> main_word(
                            self.main@,
                            self.n_shards as int,
                            (#[trigger] recs@[j]).key@,
                        ) is None,
                decreases recs@.len() - i,
            {
                if self.main_get(&recs[i].key).is_some() {
                    proof {
                        reveal(sealed_apart);
                        lemma_sealed_at(recs@, i as int);
                        assert(l1_word(self.ovf_l1, recs@[i as int].key@) is Some);
                    }
                    return false;
                }
                i += 1;
            }
            proof {
                assert forall|k: Seq<u8>| (#[trigger] l1_word(self.ovf_l1, k))
                    is Some implies main_word(self.main@, self.n_shards as int, k) is None by {
                    let j = lemma_sealed_has(recs@, k);
                    assert(recs@[j].key@ == k);
                }
            }
        }
        let mut i: usize = 0;
        while i < self.sealed_ovf.len()
            invariant
                i <= self.sealed_ovf@.len(),
                self.readable(),
                forall|j: int, k: Seq<u8>|
                    0 <= j < i && (#[trigger] self.sealed_ovf@[j].word(k)) is Some ==> l1_word(
                        self.ovf_l1,
                        k,
                    ) is None && main_word(self.main@, self.n_shards as int, k) is None,
                forall|a: int, b: int, k: Seq<u8>|
                    0 <= a < i && a < b < self.sealed_ovf@.len() && (
                    #[trigger] self.sealed_ovf@[a].word(k)) is Some ==> (
                    #[trigger] self.sealed_ovf@[b].word(k)) is None,
            decreases self.sealed_ovf@.len() - i,
        {
            let recs = head_recs(&self.sealed_ovf[i]);
            proof {
                assert(self.sealed_ovf@[i as int].inv());
                if self.homes_apart() {
                    self.lemma_sealed_clear(i as int);
                    assert forall|k: Seq<u8>| (#[trigger] sealed_word(recs@, k))
                        is Some implies l1_word(self.ovf_l1, k) is None && main_word(
                        self.main@,
                        self.n_shards as int,
                        k,
                    ) is None by {
                        assert(self.sealed_ovf@[i as int].word(k) is Some);
                    }
                }
            }
            if !self.not_below(&recs) || !self.not_later(i) {
                return false;
            }
            i += 1;
        }
        let recs = self.ingest.sealed_records();
        proof {
            assert forall|k: Seq<u8>| #[trigger] sealed_word(recs@, k) is Some
                == self.ingest@.dom().contains(k) by {
                assert(sealed_word(recs@, k) == lookup(self.ingest.table(), k));
            }
            if self.homes_apart() {
                assert forall|k: Seq<u8>| (#[trigger] sealed_word(recs@, k))
                    is Some implies l1_word(self.ovf_l1, k) is None && main_word(
                    self.main@,
                    self.n_shards as int,
                    k,
                ) is None by {
                    assert(self.ingest@.dom().contains(k));
                }
            }
        }
        if !self.not_below(&recs) {
            return false;
        }
        let mut m: usize = 0;
        while m < recs.len()
            invariant
                m <= recs@.len(),
                self.readable(),
                keys_rise(recs@),
                forall|k: Seq<u8>| #[trigger] sealed_word(recs@, k) is Some
                    == self.ingest@.dom().contains(k),
                forall|j: int|
                    0 <= j < m ==> newest_word(self.sealed_ovf@, (#[trigger] recs@[j]).key@)
                        is None,
            decreases recs@.len() - m,
        {
            if newest_get(&self.sealed_ovf, &recs[m].key).is_some() {
                proof {
                    lemma_sealed_at(recs@, m as int);
                    assert(self.ingest@.dom().contains(recs@[m as int].key@));
                }
                return false;
            }
            m += 1;
        }
        proof {
            assert forall|k: Seq<u8>| #[trigger] self.ingest@.dom().contains(k) implies newest_word(
                self.sealed_ovf@,
                k,
            ) is None && l1_word(self.ovf_l1, k) is None && main_word(
                self.main@,
                self.n_shards as int,
                k,
            ) is None by {
                assert(sealed_word(recs@, k) == lookup(self.ingest.table(), k));
                let j = lemma_sealed_has(recs@, k);
                assert(newest_word(self.sealed_ovf@, recs@[j].key@) is None);
            }
            assert(sealed_apart(self.sealed_ovf@, self.ovf_l1, self.main@, self.n_shards as int)) by {
                reveal(sealed_apart);
                assert forall|k: Seq<u8>| (#[trigger] newest_word(self.sealed_ovf@, k))
                    is Some implies l1_word(self.ovf_l1, k) is None && main_word(
                    self.main@,
                    self.n_shards as int,
                    k,
                ) is None by {
                    let j = lemma_newest_some(self.sealed_ovf@, k);
                    assert(self.sealed_ovf@[j].word(k) is Some);
                }
            }
        }
        true
    }

    /// Heads with one place for each key: the records of a sealed overflow head are in no other
    /// head.
    proof fn lemma_sealed_clear(&self, i: int)
        requires
            self.readable(),
            self.homes_apart(),
            0 <= i < self.sealed_ovf@.len(),
        ensures
            forall|k: Seq<u8>|
                (#[trigger] self.sealed_ovf@[i].word(k)) is Some ==> l1_word(self.ovf_l1, k) is None
                    && main_word(self.main@, self.n_shards as int, k) is None && newest_word(
                    self.sealed_ovf@,
                    k,
                ) == self.sealed_ovf@[i].word(k) && !self.ingest@.dom().contains(k),
            forall|j: int, k: Seq<u8>|
                i < j < self.sealed_ovf@.len() && self.sealed_ovf@[i].word(k) is Some ==> (
                #[trigger] self.sealed_ovf@[j].word(k)) is None,
    {
        reveal(sealed_apart);
        assert forall|j: int, k: Seq<u8>|
            i < j < self.sealed_ovf@.len() && self.sealed_ovf@[i].word(k) is Some implies (
        #[trigger] self.sealed_ovf@[j].word(k)) is None by {
            assert(self.sealed_ovf@[i].word(k) is Some);
        }
        assert forall|k: Seq<u8>| (#[trigger] self.sealed_ovf@[i].word(k)) is Some implies l1_word(
            self.ovf_l1,
            k,
        ) is None && main_word(self.main@, self.n_shards as int, k) is None && newest_word(
            self.sealed_ovf@,
            k,
        ) == self.sealed_ovf@[i].word(k) && !self.ingest@.dom().contains(k) by {
            lemma_newest_at(self.sealed_ovf@, k, i);
        }
    }

    /// The records of main heads.
    fn main_recs(&self, lo: usize, hi: usize) -> (r: Vec<Slot>)
        requires
            self.readable(),
            lo <= hi <= self.main@.len(),
        ensures
            forall|k: Seq<u8>, w: u64| #[trigger]
                has_rec(r@, k, w) ==> exists|s: int|
                    lo <= s < hi && #[trigger] head_word(self.main@[s], k) == Some(w),
            forall|s: int, k: Seq<u8>|
                lo <= s < hi && (#[trigger] head_word(self.main@[s], k)) is Some ==> has_rec(
                    r@,
                    k,
                    head_word(self.main@[s], k)->0,
                ),
    {
        let mut out: Vec<Slot> = Vec::new();
        let mut i: usize = lo;
        while i < hi
            invariant
                lo <= i <= hi <= self.main@.len(),
                self.readable(),
                forall|k: Seq<u8>, w: u64| #[trigger]
                    has_rec(out@, k, w) ==> exists|s: int|
                        lo <= s < i && #[trigger] head_word(self.main@[s], k) == Some(w),
                forall|s: int, k: Seq<u8>|
                    lo <= s < i && (#[trigger] head_word(self.main@[s], k)) is Some ==> has_rec(
                        out@,
                        k,
                        head_word(self.main@[s], k)->0,
                    ),
            decreases hi - i,
        {
            let ghost before = out@;
            if let Some(h) = &self.main[i] {
                let recs = head_recs(h);
                add_recs(&mut out, &recs);
                proof {
                    assert forall|k: Seq<u8>, w: u64| #[trigger] has_rec(out@, k, w) implies exists|
                        s: int,
                    |
                        lo <= s < i + 1 && #[trigger] head_word(self.main@[s], k) == Some(w) by {
                        if has_rec(before, k, w) {
                            let s = choose|s: int|
                                lo <= s < i && #[trigger] head_word(self.main@[s], k) == Some(w);
                            assert(head_word(self.main@[s], k) == Some(w));
                        } else {
                            assert(has_rec(recs@, k, w));
                            let j = choose|j: int|
                                0 <= j < recs@.len() && (#[trigger] recs@[j]).key@ == k
                                    && recs@[j].word == w;
                            lemma_sealed_at(recs@, j);
                            assert(head_word(self.main@[i as int], k) == Some(w));
                        }
                    }
                    assert forall|s: int, k: Seq<u8>|
                        lo <= s < i + 1 && (#[trigger] head_word(self.main@[s], k))
                            is Some implies has_rec(out@, k, head_word(self.main@[s], k)->0) by {
                        let w = head_word(self.main@[s], k)->0;
                        if s == i {
                            let j = lemma_sealed_has(recs@, k);
                            assert(recs@[j].key@ == k && recs@[j].word == w);
                            assert(has_rec(recs@, k, w));
                        } else {
                            assert(has_rec(before, k, w));
                        }
                    }
                }
            }
            i += 1;
        }
        out
    }

    /// The records of the ingest head and of the overflow heads.
    fn ovf_recs(&self) -> (r: Vec<Slot>)
        requires
            self.readable(),
            self.ingest.inv(),
        ensures
            forall|k: Seq<u8>, w: u64| #[trigger]
                has_rec(r@, k, w) ==> ovf_holds(self, self.sealed_ovf@.len() as int, k, w)
                    || l1_word(self.ovf_l1, k) == Some(w),
            forall|k: Seq<u8>|
                (#[trigger] lookup(self.ingest.table(), k)) is Some ==> has_rec(
                    r@,
                    k,
                    lookup(self.ingest.table(), k)->0,
                ),
            forall|k: Seq<u8>|
                (#[trigger] newest_word(self.sealed_ovf@, k)) is Some ==> has_rec(
                    r@,
                    k,
                    newest_word(self.sealed_ovf@, k)->0,
                ),
            forall|k: Seq<u8>|
                (#[trigger] l1_word(self.ovf_l1, k)) is Some ==> has_rec(
                    r@,
                    k,
                    l1_word(self.ovf_l1, k)->0,
                ),
    {
        let mut out = self.ingest.sealed_records();
        proof {
            assert forall|k: Seq<u8>, w: u64| #[trigger] has_rec(out@, k, w) implies ovf_holds(
                self,
                0,
                k,
                w,
            ) by {
                let j = choose|j: int|
                    0 <= j < out@.len() && (#[trigger] out@[j]).key@ == k && out@[j].word == w;
                lemma_sealed_at(out@, j);
                assert(sealed_word(out@, k) == lookup(self.ingest.table(), k));
            }
            assert forall|k: Seq<u8>| (#[trigger] lookup(self.ingest.table(), k)) is Some implies
                has_rec(out@, k, lookup(self.ingest.table(), k)->0) by {
                assert(sealed_word(out@, k) == lookup(self.ingest.table(), k));
                let j = lemma_sealed_has(out@, k);
                assert(out@[j].key@ == k);
            }
        }
        let mut i: usize = 0;
        while i < self.sealed_ovf.len()
            invariant
                i <= self.sealed_ovf@.len(),
                self.readable(),
                forall|k: Seq<u8>, w: u64| #[trigger]
                    has_rec(out@, k, w) ==> ovf_holds(self, i as int, k, w),
                forall|k: Seq<u8>|
                    (#[trigger] lookup(self.ingest.table(), k)) is Some ==> has_rec(
                        out@,
                        k,
                        lookup(self.ingest.table(), k)->0,
                    ),
                forall|s: int, k: Seq<u8>|
                    0 <= s < i && (#[trigger] self.sealed_ovf@[s].word(k)) is Some ==> has_rec(
                        out@,
                        k,
                        self.sealed_ovf@[s].word(k)->0,
                    ),
            decreases self.sealed_ovf@.len() - i,
        {
            let ghost before = out@;
            let recs = head_recs(&self.sealed_ovf[i]);
            add_recs(&mut out, &recs);
            proof {
                assert forall|k: Seq<u8>, w: u64| #[trigger] has_rec(out@, k, w) implies ovf_holds(
                    self,
                    i + 1,
                    k,
                    w,
                ) by {
                    if has_rec(before, k, w) {
                        assert(ovf_holds(self, i as int, k, w));
                        if lookup(self.ingest.table(), k) != Some(w) {
                            let s = choose|s: int|
                                0 <= s < i && #[trigger] self.sealed_ovf@[s].word(k) == Some(w);
                            assert(self.sealed_ovf@[s].word(k) == Some(w));
                        }
                    } else {
                        assert(has_rec(recs@, k, w));
                        let j = choose|j: int|
                            0 <= j < recs@.len() && (#[trigger] recs@[j]).key@ == k
                                && recs@[j].word == w;
                        assert(self.sealed_ovf@[i as int].inv());
                        lemma_sealed_at(recs@, j);
                        assert(self.sealed_ovf@[i as int].word(k) == Some(w));
                    }
                }
                assert forall|s: int, k: Seq<u8>|
                    0 <= s < i + 1 && (#[trigger] self.sealed_ovf@[s].word(k)) is Some implies
                    has_rec(out@, k, self.sealed_ovf@[s].word(k)->0) by {
                    let w = self.sealed_ovf@[s].word(k)->0;
                    if s == i {
                        let j = lemma_sealed_has(recs@, k);
                        assert(recs@[j].key@ == k && recs@[j].word == w);
                        assert(has_rec(recs@, k, w));
                    } else {
                        assert(has_rec(before, k, w));
                    }
                }
            }
            i += 1;
        }
        proof {
            assert forall|k: Seq<u8>| (#[trigger] newest_word(self.sealed_ovf@, k))
                is Some implies has_rec(out@, k, newest_word(self.sealed_ovf@, k)->0) by {
                let s = lemma_newest_some(self.sealed_ovf@, k);
                assert(self.sealed_ovf@[s].word(k) is Some);
            }
        }
        if let Some(h) = &self.ovf_l1 {
            let ghost before = out@;
            let recs = head_recs(h);
            add_recs(&mut out, &recs);
            proof {
                assert forall|k: Seq<u8>, w: u64| #[trigger] has_rec(out@, k, w) implies ovf_holds(
                    self,
                    self.sealed_ovf@.len() as int,
                    k,
                    w,
                ) || l1_word(self.ovf_l1, k) == Some(w) by {
                    if !has_rec(before, k, w) {
                        assert(has_rec(recs@, k, w));
                        let j = choose|j: int|
                            0 <= j < recs@.len() && (#[trigger] recs@[j]).key@ == k
                                && recs@[j].word == w;
                        lemma_sealed_at(recs@, j);
                    }
                }
                assert forall|k: Seq<u8>| (#[trigger] l1_word(self.ovf_l1, k)) is Some implies
                    has_rec(out@, k, l1_word(self.ovf_l1, k)->0) by {
                    let w = l1_word(self.ovf_l1, k)->0;
                    let j = lemma_sealed_has(recs@, k);
                    assert(recs@[j].key@ == k && recs@[j].word == w);
                    assert(has_rec(recs@, k, w));
                }
            }
        }
        out
    }

    /// The records that lead into a body.
    fn body_recs(&self, bi: usize) -> (r: Vec<Slot>)
        requires
            self.readable(),
            self.ingest.inv(),
            self.homes_apart(),
            bi < self.bodies@.len(),
        ensures
            forall|k: Seq<u8>, w: u64| #[trigger]
                has_rec(r@, k, w) ==> (self.located(k) matches Some((x, h)) && x == w && body_index(
                    self.layout,
                    self.n_shards as int,
                    k,
                    h,
                ) == bi),
            forall|k: Seq<u8>|
                k.len() == 16 && ((#[trigger] self.located(k)) matches Some((_, h)) && body_index(
                    self.layout,
                    self.n_shards as int,
                    k,
                    h,
                ) == bi) ==> has_rec(r@, k, (self.located(k)->0).0),
    {
        let n: usize = self.n_shards;
        let r = match self.layout {
            ShBodyLayout::Shared => {
                let mut out = self.ovf_recs();
                let more = self.main_recs(0, n);
                add_recs(&mut out, &more);
                out
            },
            ShBodyLayout::Sharded => if bi < n {
                self.main_recs(bi, bi + 1)
            } else {
                self.ovf_recs()
            },
        };
        proof {
            assert forall|k: Seq<u8>, w: u64| #[trigger] has_rec(r@, k, w) implies (self.located(
                k,
            ) matches Some((x, h)) && x == w && body_index(
                self.layout,
                self.n_shards as int,
                k,
                h,
            ) == bi) by {
                let j = choose|j: int|
                    0 <= j < r@.len() && (#[trigger] r@[j]).key@ == k && r@[j].word == w;
                lemma_body_index(self, k, KeyHome::Main);
                self.lemma_one_place(k, w);
                if exists|s: int|
                    0 <= s < self.main@.len() && #[trigger] head_word(self.main@[s], k) == Some(
                        w,
                    ) {
                    let s = choose|s: int|
                        0 <= s < self.main@.len() && #[trigger] head_word(self.main@[s], k) == Some(
                            w,
                        );
                    assert(self.located(k) == Some((w, KeyHome::Main)));
                }
            }
            assert forall|k: Seq<u8>|
                k.len() == 16 && ((#[trigger] self.located(k)) matches Some((_, h)) && body_index(
                    self.layout,
                    self.n_shards as int,
                    k,
                    h,
                ) == bi) implies has_rec(r@, k, (self.located(k)->0).0) by {
                lemma_body_index(self, k, KeyHome::Main);
                let si = prefix_shard(k, self.n_shards as int);
                assert(main_word(self.main@, self.n_shards as int, k) == head_word(
                    self.main@[si],
                    k,
                ));
                assert(self.ingest@.dom().contains(k) <==> lookup(self.ingest.table(), k) is Some);
            }
        }
        r
    }

    /// A record is what its key is found with.
    proof fn lemma_one_place(&self, k: Seq<u8>, w: u64)
        requires
            self.readable(),
            self.homes_apart(),
            k.len() == 16,
        ensures
            forall|s: int|
                0 <= s < self.main@.len() && #[trigger] head_word(self.main@[s], k) == Some(w)
                    ==> self.located(k) == Some((w, KeyHome::Main)) && prefix_shard(
                    k,
                    self.n_shards as int,
                ) == s,
            ovf_holds(self, self.sealed_ovf@.len() as int, k, w) || l1_word(self.ovf_l1, k) == Some(
                w,
            ) ==> (self.located(k) matches Some((x, h)) && x == w && h != KeyHome::Main),
    {
        reveal(sealed_apart);
        lemma_body_index(self, k, KeyHome::Main);
        assert(self.ingest@.dom().contains(k) <==> lookup(self.ingest.table(), k) is Some);
        assert forall|s: int|
            0 <= s < self.main@.len() && #[trigger] head_word(self.main@[s], k) == Some(
                w,
            ) implies self.located(k) == Some((w, KeyHome::Main)) && prefix_shard(
            k,
            self.n_shards as int,
        ) == s by {
            assert(main_word(self.main@, self.n_shards as int, k) == Some(w));
        }
        if ovf_holds(self, self.sealed_ovf@.len() as int, k, w) && lookup(self.ingest.table(), k)
            != Some(w) {
            let s = choose|s: int|
                0 <= s < self.sealed_ovf@.len() && #[trigger] self.sealed_ovf@[s].word(k) == Some(
                    w,
                );
            self.lemma_sealed_clear(s);
            assert(self.sealed_ovf@[s].word(k) is Some);
        }
    }

    /// Tells whether every key has one place and leads to creates of its own, and finds the
    /// blocks of the bodies again. A table that passes can be written to.
    #[verifier::rlimit(40)]
    pub fn check(&mut self) -> (r: bool)
        requires
            old(self).readable(),
        ensures
            same_data(old(self), final(self)),
            r ==> final(self).wf(),
            r == can_be_sound(old(self)),
            old(self).wf() ==> r,
            forall|k: Seq<u8>|
                k.len() == 16 ==> #[trigger] final(self).creates(k) == old(self).creates(k),
    {
        let ghost t0 = *self;
        proof {
            assert(same_data(&t0, &t0));
        }
        let ghost u = choose|u: ScriptHashTable| #[trigger] same_data(&t0, &u) && u.wf();
        if !self.heads_in_order() {
            proof {
                if can_be_sound(&t0) {
                    assert(u.homes_apart());
                    assert(t0.homes_apart());
                }
            }
            return false;
        }
        let ghost mut bl: Seq<Ghost<Map<int, Block>>> = Seq::empty();
        let ghost mut ll: Seq<Ghost<Seq<Seq<int>>>> = Seq::empty();
        let mut bi: usize = 0;
        while bi < self.bodies.len()
            invariant
                bi <= self.bodies@.len(),
                *self == t0,
                self.readable(),
                self.ingest.inv(),
                self.ingest.used_slots() is Some,
                self.homes_apart(),
                u == (choose|u: ScriptHashTable| #[trigger] same_data(&t0, &u) && u.wf()),
                bl.len() == bi,
                ll.len() == bi,
                forall|j: int|
                    0 <= j < bi ==> body_found(&t0, j, &with_heap(&t0.bodies@[j], #[trigger] bl[j], ll[j])),
            decreases self.bodies@.len() - bi,
        {
            let recs = self.body_recs(bi);
            let (ok, b, l) = self.bodies[bi].find_blocks(&recs);
            if !ok {
                proof {
                    if can_be_sound(&t0) {
                        lemma_fits(&t0, &u, bi as int, recs@);
                    }
                }
                return false;
            }
            proof {
                let ghost (b0, l0) = (bl, ll);
                bl = bl.push(b);
                ll = ll.push(l);
                let body = with_heap(&t0.bodies@[bi as int], b, l);
                assert(body_found(&t0, bi as int, &body)) by {
                    assert forall|k: Seq<u8>|
                        k.len() == 16 && ((#[trigger] t0.located(k)) matches Some((_, h))
                            && body_index(t0.layout, t0.n_shards as int, k, h) == bi) implies
                        value_found(&body, k, (t0.located(k)->0).0) by {
                        let w = (t0.located(k)->0).0;
                        assert(has_rec(recs@, k, w));
                        let i = choose|i: int|
                            0 <= i < recs@.len() && (#[trigger] recs@[i]).key@ == k
                                && recs@[i].word == w;
                        assert(recs_sound_in(&body, recs@));
                    }
                }
                assert forall|j: int| 0 <= j < bi + 1 implies body_found(
                    &t0,
                    j,
                    &with_heap(&t0.bodies@[j], #[trigger] bl[j], ll[j]),
                ) by {
                    if j < bi {
                        assert(bl[j] == b0[j]);
                        assert(ll[j] == l0[j]);
                    }
                }
            }
            bi += 1;
        }
        let mut i: usize = 0;
        while i < self.bodies.len()
            invariant
                i <= self.bodies@.len(),
                self.bodies@.len() == t0.bodies@.len(),
                bl.len() == t0.bodies@.len(),
                ll.len() == t0.bodies@.len(),
                self.scale == t0.scale,
                self.layout == t0.layout,
                self.n_shards == t0.n_shards,
                self.main == t0.main,
                self.ingest == t0.ingest,
                self.sealed_ovf == t0.sealed_ovf,
                self.ovf_l1 == t0.ovf_l1,
                self.include_hwm == t0.include_hwm,
                forall|j: int|
                    0 <= j < i ==> #[trigger] self.bodies@[j] == with_heap(
                        &t0.bodies@[j],
                        bl[j],
                        ll[j],
                    ),
                forall|j: int|
                    i <= j < t0.bodies@.len() ==> #[trigger] self.bodies@[j] == t0.bodies@[j],
            decreases self.bodies@.len() - i,
        {
            let body = &mut self.bodies[i];
            body.blocks = Ghost(bl[i as int]@);
            body.lists = Ghost(ll[i as int]@);
            i += 1;
        }
        proof {
            assert forall|j: int| 0 <= j < self.bodies@.len() implies body_found(
                &t0,
                j,
                &#[trigger] self.bodies@[j],
            ) && same_bytes(&t0.bodies@[j], &self.bodies@[j]) by {
                assert(body_found(&t0, j, &with_heap(&t0.bodies@[j], bl[j], ll[j])));
            }
            assert forall|k: Seq<u8>| #[trigger] self.located(k) == t0.located(k) by {}
            assert forall|k: Seq<u8>| k.len() == 16 implies #[trigger] self.key_sound(k)
                && self.creates(k) == t0.creates(k) by {
                assert(self.located(k) == t0.located(k));
                if let Some((w, h)) = t0.located(k) {
                    lemma_body_index(&t0, k, h);
                    let j = body_index(t0.layout, t0.n_shards as int, k, h);
                    assert(body_found(&t0, j, &self.bodies@[j]));
                    assert(value_found(&self.bodies@[j], k, w));
                }
            }
            assert forall|k: Seq<u8>| k.len() == 16 implies #[trigger] self.creates(k)
                == t0.creates(k) by {
                assert(self.key_sound(k));
            }
            assert(self.homes_apart());
            assert(same_data(&t0, self) && self.wf());
        }
        true
    }
}

/// There are blocks with which the table is in order.
pub open spec fn can_be_sound(t: &ScriptHashTable) -> bool {
    exists|u: ScriptHashTable| #[trigger] same_data(t, &u) && u.wf()
}

/// The ingest head or one of the first `n` sealed overflow heads holds the record.
spec fn ovf_holds(t: &ScriptHashTable, n: int, k: Seq<u8>, w: u64) -> bool {
    ||| lookup(t.ingest.table(), k) == Some(w)
    ||| exists|s: int| 0 <= s < n && #[trigger] t.sealed_ovf@[s].word(k) == Some(w)
}

/// The blocks of a table in order fit the same bytes.
proof fn lemma_fits(t: &ScriptHashTable, u: &ScriptHashTable, bi: int, recs: Seq<Slot>)
    requires
        same_data(t, u),
        u.wf(),
        0 <= bi < t.bodies@.len(),
        forall|k: Seq<u8>, w: u64| #[trigger]
            has_rec(recs, k, w) ==> (t.located(k) matches Some((x, h)) && x == w && body_index(
                t.layout,
                t.n_shards as int,
                k,
                h,
            ) == bi),
    ensures
        has_heap(&t.bodies@[bi], recs),
{
    let x = u.bodies@[bi];
    let b = with_heap(&t.bodies@[bi], x.blocks, x.lists);
    assert(same_bytes(&t.bodies@[bi], &u.bodies@[bi]));
    assert(x.heap_ok());
    assert(b.heap_ok());
    assert forall|i: int| 0 <= i < recs.len() implies unpack8((#[trigger] recs[i]).word) is Ok
        && sound_at(&b, unpack8(recs[i].word)->Ok_0, recs[i].key@) by {
        let (k, w) = (recs[i].key@, recs[i].word);
        assert(has_rec(recs, k, w));
        assert(u.located(k) == t.located(k));
        assert(u.key_sound(k));
        let v = unpack8(w)->Ok_0;
        assert(sound_at(&x, v, k));
        let (p, f) = choose|p: Seq<int>, f: Seq<Fk>| holds_value(&x, v, k, p, f);
        assert(holds_value(&b, v, k, p, f)) by {
            reveal(holds_value);
        }
    }
    assert(heap_fits(&t.bodies@[bi], recs, x.blocks, x.lists));
}

/// The word leads to creates of the key in the body.
spec fn value_found(b: &ShBody, k: Seq<u8>, w: u64) -> bool {
    unpack8(w) is Ok && sound_at(
        b,
        unpack8(w)->Ok_0,
        k,
    )
}

/// The keys that lead into the body find their creates there.
spec fn body_found(t: &ScriptHashTable, bi: int, b: &ShBody) -> bool {
    &&& b.heap_ok()
    &&& forall|k: Seq<u8>|
        k.len() == 16 && ((#[trigger] t.located(k)) matches Some((_, h)) && body_index(
            t.layout,
            t.n_shards as int,
            k,
            h,
        ) == bi) ==> value_found(b, k, (t.located(k)->0).0)
}

} // verus!
