//! Scripthash multimap: hash of a script to the keys of the transactions that
//! pay to it, oldest first.
//!
//! A head maps the first 16 bytes of the hash to a value; the value holds one
//! key, or names a slab or a chain of pages in a body. Sealed main shards hold
//! the keys of a cold load. Keys that come later go to the ingest head, which
//! is sealed into overflow heads when it is full; eight of those are merged.

use vstd::prelude::*;
use std::collections::HashMap;
use crate::error::StoreError;
use crate::hashhead::{key_word, law_prefix_word, least_pow2, prefix_word, HeadScale};
use crate::primitives::Fk;
use crate::scripthash_count::{counts_exact, law_counter_covers, lemma_count_same, lemma_count_step, place};
use crate::scripthash_body::{extent_read, kept, page_at, same_fks, value_fks, value_last, ShBody};
use crate::scripthash_head::{full_from_key, key16, prefix_shard, prefix_shard_of, shard_count_ok, ScriptHashHead};
use crate::scripthash_layout::{head_key_from_full, ShEntry, ShHeadKey, ShHeadValue};
use crate::scripthash_pack8::{pack8, pack8_word, unpack8, unpack8_word};
use crate::scripthash_pages::page_extent;
use crate::scripthash_values::{can_hold, can_put, fks_small, holds_value, is_packing, kept_except, lemma_extent_read, lemma_holds_frame, lemma_holds_read, lemma_value_owned, rewritten, sat_add_u64, sat_sub, span_too_long, used_at_most};
use crate::sealed_head::{all_sealed, collect_records, heads_apart, keys_rise, lemma_all_records, lemma_newest_none, lemma_sort_distinct, newest_get, newest_update, newest_word, sealed_word, SealedHead};
use crate::slot_table::{slots_shape, zero_key};
use crate::sorting::{be_nat, bytes_order, lemma_be_injective, lemma_same_items, sort_ranked, sorted_by_rank, Cmp3, Ranked};

verus! {

/// One create of a scripthash.
#[derive(Clone, Copy, Debug, PartialEq, Eq)]
pub struct ScriptHashRecord {
    pub scripthash: [u8; 32],
    pub create_tx_fk: Fk,
}

impl ScriptHashRecord {
    pub fn entry(&self) -> (r: ShEntry)
        ensures
            r == (ShEntry { create_tx_fk: self.create_tx_fk }),
    {
        ShEntry::new(self.create_tx_fk)
    }

    pub fn from_entry(scripthash: [u8; 32], e: ShEntry) -> (r: Self)
        ensures
            r == (ScriptHashRecord { scripthash, create_tx_fk: e.create_tx_fk }),
    {
        ScriptHashRecord { scripthash, create_tx_fk: e.create_tx_fk }
    }

    pub fn from_fk(scripthash: [u8; 32], create_tx_fk: Fk) -> (r: Self)
        ensures
            r == (ScriptHashRecord { scripthash, create_tx_fk }),
    {
        ScriptHashRecord::from_entry(scripthash, ShEntry::new(create_tx_fk))
    }

    /// The record names no transaction.
    pub fn is_tombstone(&self) -> (r: bool)
        ensures
            r == (self.create_tx_fk.0 == 0),
    {
        self.create_tx_fk.is_null()
    }
}

/// How the body is laid out.
#[derive(Clone, Copy, Debug, PartialEq, Eq, Structural)]
pub enum ShBodyLayout {
    /// One body for all keys.
    Shared,
    /// One body per main shard and one for the overflow.
    Sharded,
}

/// Which head holds a key.
#[derive(Clone, Copy, Debug, PartialEq, Eq, Structural)]
pub enum KeyHome {
    /// A sealed main shard.
    Main,
    /// A sealed overflow head.
    SealedOvf,
    /// The ingest head.
    Ingest,
    /// None.
    Absent,
}

/// The body that the blocks of a key lie in.
pub open spec fn body_index(layout: ShBodyLayout, n_shards: int, k: Seq<u8>, home: KeyHome) -> int {
    match layout {
        ShBodyLayout::Shared => 0,
        ShBodyLayout::Sharded => if home == KeyHome::Main {
            prefix_shard(k, n_shards)
        } else {
            n_shards
        },
    }
}

/// The keys that a sound value stands for.
pub open spec fn value_view(bytes: Seq<u8>, v: ShHeadValue) -> Seq<Fk> {
    match v {
        ShHeadValue::Extent { last_page } => extent_read(
            bytes,
            last_page as int,
            bytes.len() as int,
        )->Ok_0,
        _ => value_fks(bytes, v)->Ok_0,
    }
}

pub proof fn lemma_view_holds(b: &ShBody, v: ShHeadValue, k: Seq<u8>, pages: Seq<int>, fks: Seq<Fk>)
    requires
        b.heap_ok(),
        holds_value(b, v, k, pages, fks),
    ensures
        value_view(b.bytes@, v) == fks,
{
    reveal(holds_value);
    match v {
        ShHeadValue::Extent { last_page } => {
            lemma_extent_read(b.bytes@, last_page as int, pages, b.bytes@.len() as int);
            let n = (page_extent(page_at(b.bytes@, last_page as int))->0).1;
            assert(crate::scripthash_values::link_ok(b.bytes@, pages, n - 1));
            assert(pages[n - 1] == pages[0] + 4096 * (n - 1));
        },
        _ => {
            lemma_holds_read(b, v, k, pages, fks);
        },
    }
}

/// Some blocks and keys make the value sound.
pub open spec fn sound_at(b: &ShBody, v: ShHeadValue, k: Seq<u8>) -> bool {
    exists|pages: Seq<int>, fks: Seq<Fk>| holds_value(b, v, k, pages, fks)
}

/// Sum of the create counters.
pub open spec fn sum_live(bodies: Seq<ShBody>) -> nat
    decreases bodies.len(),
{
    if bodies.len() == 0 {
        0
    } else {
        sum_live(bodies.drop_last()) + bodies.last().live_count as nat
    }
}

pub(crate) proof fn lemma_sum_update(bodies: Seq<ShBody>, i: int, b: ShBody)
    requires
        0 <= i < bodies.len(),
    ensures
        sum_live(bodies.update(i, b)) == sum_live(bodies) - bodies[i].live_count + b.live_count,
        sum_live(bodies) >= bodies[i].live_count,
    decreases bodies.len(),
{
    let t = bodies.update(i, b);
    if i == bodies.len() - 1 {
        assert(t.drop_last() =~= bodies.drop_last());
    } else {
        assert(t.drop_last() =~= bodies.drop_last().update(i, b));
        lemma_sum_update(bodies.drop_last(), i, b);
    }
}

/// Keys of `add` that are larger than all of `have`.
pub open spec fn above(have: Seq<Fk>, add: Seq<Fk>) -> Seq<Fk>
    decreases add.len(),
{
    if add.len() == 0 {
        Seq::empty()
    } else {
        let rest = above(have, add.drop_last());
        if have.len() == 0 || add.last().0 > have.last().0 {
            rest.push(add.last())
        } else {
            rest
        }
    }
}

/// Scripthash index.
pub struct ScriptHashTable {
    pub scale: HeadScale,
    pub layout: ShBodyLayout,
    pub n_shards: usize,
    pub bodies: Vec<ShBody>,
    pub main: Vec<Option<SealedHead>>,
    pub ingest: ScriptHashHead,
    pub sealed_ovf: Vec<SealedHead>,
    pub ovf_l1: Option<SealedHead>,
    pub include_hwm: u64,
}

/// The word of a key in its main shard.
pub open spec fn main_word(main: Seq<Option<SealedHead>>, n_shards: int, k: Seq<u8>) -> Option<u64> {
    let si = prefix_shard(k, n_shards);
    if 0 <= si < main.len() {
        match main[si] {
            Some(h) => h.word(k),
            None => None,
        }
    } else {
        None
    }
}

/// No key of an overflow head is in a head of another kind, and main heads hold the keys
/// of their shards.
#[verifier::opaque]
pub open spec fn sealed_apart(
    sealed: Seq<SealedHead>,
    l1: Option<SealedHead>,
    main: Seq<Option<SealedHead>>,
    n_shards: int,
) -> bool {
    &&& forall|k: Seq<u8>|
        (#[trigger] newest_word(sealed, k)) is Some ==> l1_word(l1, k) is None && main_word(
            main,
            n_shards,
            k,
        ) is None
    &&& forall|k: Seq<u8>|
        (#[trigger] l1_word(l1, k)) is Some ==> main_word(main, n_shards, k) is None
    &&& forall|s: int, k: Seq<u8>|
        0 <= s < main.len() && #[trigger] head_word(main[s], k) is Some ==> prefix_shard(
            k,
            n_shards,
        ) == s
}

/// The word of a key in a main head, if there is one.
pub open spec fn head_word(h: Option<SealedHead>, k: Seq<u8>) -> Option<u64> {
    match h {
        Some(h) => h.word(k),
        None => None,
    }
}

/// Heads with the same keys are apart alike.
pub(crate) proof fn lemma_apart_same(
    sealed: Seq<SealedHead>,
    l1: Option<SealedHead>,
    main: Seq<Option<SealedHead>>,
    sealed2: Seq<SealedHead>,
    l12: Option<SealedHead>,
    main2: Seq<Option<SealedHead>>,
    n: int,
)
    requires
        sealed_apart(sealed, l1, main, n),
        forall|k: Seq<u8>|
            (#[trigger] newest_word(sealed2, k)) is Some ==> newest_word(sealed, k) is Some,
        forall|k: Seq<u8>| (#[trigger] l1_word(l12, k)) is Some ==> l1_word(l1, k) is Some,
        main2.len() == main.len(),
        forall|s: int, k: Seq<u8>|
            0 <= s < main.len() && #[trigger] head_word(main2[s], k) is Some ==> head_word(
                main[s],
                k,
            ) is Some,
    ensures
        sealed_apart(sealed2, l12, main2, n),
{
    reveal(sealed_apart);
    assert forall|k: Seq<u8>| (#[trigger] main_word(main2, n, k)) is Some implies main_word(
        main,
        n,
        k,
    ) is Some by {
        assert(head_word(main2[prefix_shard(k, n)], k) is Some);
    }
    assert forall|s: int, k: Seq<u8>|
        0 <= s < main2.len() && #[trigger] head_word(main2[s], k) is Some implies prefix_shard(k, n)
        == s by {
        assert(head_word(main[s], k) is Some);
    }
    assert forall|k: Seq<u8>| (#[trigger] newest_word(sealed2, k)) is Some implies l1_word(l12, k)
        is None && main_word(main2, n, k) is None by {
        assert(newest_word(sealed, k) is Some);
    }
    assert forall|k: Seq<u8>| (#[trigger] l1_word(l12, k)) is Some implies main_word(main2, n, k)
        is None by {
        assert(l1_word(l1, k) is Some);
    }
}

/// The word of a key in the merged overflow head.
pub open spec fn l1_word(l1: Option<SealedHead>, k: Seq<u8>) -> Option<u64> {
    match l1 {
        Some(h) => h.word(k),
        None => None,
    }
}

impl ScriptHashTable {
    /// Where a key is found and the word stored for it.
    pub open spec fn located(&self, k: Seq<u8>) -> Option<(u64, KeyHome)> {
        if self.ingest@.dom().contains(k) {
            Some((self.ingest@[k], KeyHome::Ingest))
        } else if newest_word(self.sealed_ovf@, k) is Some {
            Some((newest_word(self.sealed_ovf@, k)->0, KeyHome::SealedOvf))
        } else if l1_word(self.ovf_l1, k) is Some {
            Some((l1_word(self.ovf_l1, k)->0, KeyHome::SealedOvf))
        } else if main_word(self.main@, self.n_shards as int, k) is Some {
            Some((main_word(self.main@, self.n_shards as int, k)->0, KeyHome::Main))
        } else {
            None
        }
    }

    /// The body of a key.
    pub open spec fn body_at(&self, k: Seq<u8>, home: KeyHome) -> ShBody {
        self.bodies@[body_index(self.layout, self.n_shards as int, k, home)]
    }

    /// The head value of a key.
    pub open spec fn value_of(&self, k: Seq<u8>) -> Option<ShHeadValue> {
        match self.located(k) {
            None => None,
            Some((w, _)) => Some(unpack8(w)->Ok_0),
        }
    }

    /// The creates of a key, oldest first.
    pub open spec fn creates(&self, k: Seq<u8>) -> Seq<Fk> {
        match self.located(k) {
            None => Seq::empty(),
            Some((w, h)) => value_view(self.body_at(k, h).bytes@, unpack8(w)->Ok_0),
        }
    }

    /// The head value of a key is sound.
    pub open spec fn key_sound(&self, k: Seq<u8>) -> bool {
        self.located(k) matches Some((w, h)) ==> unpack8(w) is Ok && sound_at(
            &self.body_at(k, h),
            unpack8(w)->Ok_0,
            k,
        )
    }

    /// Number of creates that the counters say.
    pub open spec fn live(&self) -> nat {
        sum_live(self.bodies@)
    }

    /// Heads and bodies have their places and are in order by themselves.
    pub open spec fn parts_ok(&self) -> bool {
        &&& self.n_shards >= 1
        &&& shard_count_ok(self.n_shards as int)
        &&& self.bodies@.len() == (match self.layout {
            ShBodyLayout::Shared => 1int,
            ShBodyLayout::Sharded => self.n_shards + 1,
        })
        &&& forall|i: int| 0 <= i < self.bodies@.len() ==> (#[trigger] self.bodies@[i]).heap_ok()
        &&& self.main@.len() == self.n_shards
        &&& forall|i: int|
            0 <= i < self.main@.len() ==> ((#[trigger] self.main@[i]) matches Some(h) ==> h.inv())
        &&& self.ingest.inv()
        &&& self.ingest.used_slots() is Some
        &&& all_sealed(self.sealed_ovf@)
        &&& self.ovf_l1 matches Some(h) ==> h.inv()
    }

    /// Heads and bodies have their places, and the heads can be searched.
    pub open spec fn readable(&self) -> bool {
        &&& self.n_shards >= 1
        &&& shard_count_ok(self.n_shards as int)
        &&& self.bodies@.len() == (match self.layout {
            ShBodyLayout::Shared => 1int,
            ShBodyLayout::Sharded => self.n_shards + 1,
        })
        &&& self.main@.len() == self.n_shards
        &&& forall|i: int|
            0 <= i < self.main@.len() ==> ((#[trigger] self.main@[i]) matches Some(h) ==> h.inv())
        &&& slots_shape(self.ingest.table())
        &&& all_sealed(self.sealed_ovf@)
        &&& self.ovf_l1 matches Some(h) ==> h.inv()
    }

    /// What reading the creates of a key gives, whatever the bodies hold.
    pub open spec fn read_of(&self, k: Seq<u8>) -> Result<Seq<Fk>, StoreError> {
        match self.located(k) {
            None => Ok(Seq::empty()),
            Some((w, h)) => match unpack8(w) {
                Err(e) => Err(e),
                Ok(v) => value_fks(self.body_at(k, h).bytes@, v),
            },
        }
    }

    /// What reading the last create of a key gives, whatever the bodies hold.
    pub open spec fn last_of(&self, k: Seq<u8>) -> Result<Option<Fk>, StoreError> {
        match self.located(k) {
            None => Ok(None),
            Some((w, h)) => match unpack8(w) {
                Err(e) => Err(e),
                Ok(v) => value_last(self.body_at(k, h).bytes@, v),
            },
        }
    }

    /// No key is in two heads.
    pub open spec fn homes_apart(&self) -> bool {
        &&& forall|k: Seq<u8>| #[trigger]
            self.ingest@.dom().contains(k) ==> newest_word(self.sealed_ovf@, k) is None && l1_word(
                self.ovf_l1,
                k,
            ) is None && main_word(self.main@, self.n_shards as int, k) is None
        &&& heads_apart(self.sealed_ovf@)
        &&& sealed_apart(self.sealed_ovf@, self.ovf_l1, self.main@, self.n_shards as int)
    }

    /// Every key leads to its creates.
    pub open spec fn wf(&self) -> bool {
        &&& self.parts_ok()
        &&& self.homes_apart()
        &&& forall|k: Seq<u8>| k.len() == 16 ==> #[trigger] self.key_sound(k)
    }
}

pub(crate) proof fn lemma_pick(b: &ShBody, v: ShHeadValue, k: Seq<u8>) -> (r: (Seq<int>, Seq<Fk>))
    requires
        sound_at(b, v, k),
    ensures
        holds_value(b, v, k, r.0, r.1),
{
    choose|pages: Seq<int>, fks: Seq<Fk>| holds_value(b, v, k, pages, fks)
}

/// One body changed, for one key: every other key is found and reads as before.
pub(crate) proof fn lemma_other_keys(
    a: &ScriptHashTable,
    b: &ScriptHashTable,
    key: Seq<u8>,
    bi: int,
    pages: Seq<int>,
    k: Seq<u8>,
)
    requires
        a.wf(),
        b.layout == a.layout,
        b.n_shards == a.n_shards,
        0 <= bi < a.bodies@.len(),
        b.bodies@.len() == a.bodies@.len(),
        forall|i: int| 0 <= i < a.bodies@.len() && i != bi ==> b.bodies@[i] == a.bodies@[i],
        b.bodies@[bi].heap_ok(),
        kept_except(&a.bodies@[bi], &b.bodies@[bi], pages),
        forall|i: int|
            0 <= i < pages.len() ==> a.bodies@[bi].blocks@.dom().contains(#[trigger] pages[i])
                && a.bodies@[bi].blocks@[pages[i]].owner == Some(key),
        k != key,
        k.len() == 16,
        b.located(k) == a.located(k),
    ensures
        b.key_sound(k),
        b.creates(k) == a.creates(k),
{
    assert(a.key_sound(k));
    if let Some((w, h)) = a.located(k) {
        let idx = body_index(a.layout, a.n_shards as int, k, h);
        lemma_body_index(a, k, h);
        let v = unpack8(w)->Ok_0;
        let (p, f) = lemma_pick(&a.bodies@[idx], v, k);
        if idx == bi {
            assert forall|i: int| 0 <= i < p.len() implies kept(
                &a.bodies@[bi],
                &b.bodies@[bi],
                #[trigger] p[i],
            ) by {
                lemma_value_owned(&a.bodies@[bi], v, k, p, f, i);
                if pages.contains(p[i]) {
                    let j = choose|j: int| 0 <= j < pages.len() && pages[j] == p[i];
                    assert(a.bodies@[bi].blocks@[pages[j]].owner == Some(key));
                }
            }
            lemma_holds_frame(&a.bodies@[bi], &b.bodies@[bi], v, k, p, f);
        }
        assert(holds_value(&b.bodies@[idx], v, k, p, f));
        lemma_view_holds(&a.bodies@[idx], v, k, p, f);
        lemma_view_holds(&b.bodies@[idx], v, k, p, f);
    }
}

pub(crate) proof fn lemma_body_index(t: &ScriptHashTable, k: Seq<u8>, home: KeyHome)
    requires
        t.readable(),
        k.len() == 16,
    ensures
        0 <= body_index(t.layout, t.n_shards as int, k, home) < t.bodies@.len(),
        0 <= prefix_shard(k, t.n_shards as int) < t.n_shards,
{
    let f = k + zero_key();
    assert(f[0] == k[0]);
    crate::scripthash_head::law_prefix_shard_monotone(f, f, t.n_shards as int);
}

impl ScriptHashTable {
    fn shard_of_key(&self, key: &ShHeadKey) -> (r: usize)
        requires
            self.readable(),
        ensures
            r == prefix_shard(key@, self.n_shards as int),
            r < self.n_shards,
    {
        proof {
            lemma_body_index(self, key@, KeyHome::Main);
        }
        let full = full_from_key(key);
        assert(full@[0] == key@[0]);
        prefix_shard_of(&full, self.n_shards)
    }

    /// Index of the body that holds a key's blocks.
    fn body_for(&self, key: &ShHeadKey, home: KeyHome) -> (r: usize)
        requires
            self.readable(),
        ensures
            r == body_index(self.layout, self.n_shards as int, key@, home),
            r < self.bodies@.len(),
    {
        proof {
            lemma_body_index(self, key@, home);
        }
        match self.layout {
            ShBodyLayout::Shared => 0,
            ShBodyLayout::Sharded => if home == KeyHome::Main {
                self.shard_of_key(key)
            } else {
                self.n_shards
            },
        }
    }

    /// Word and home of a key: ingest, then overflow from the newest on, then main.
    fn locate_word(&self, key: &ShHeadKey) -> (r: Result<Option<(u64, KeyHome)>, StoreError>)
        requires
            self.readable(),
        ensures
            match r {
                Ok(x) => x == self.located(key@),
                Err(e) => self.located(key@) matches Some((w, h)) && h == KeyHome::Ingest
                    && unpack8(w) == Err::<ShHeadValue, StoreError>(e),
            },
    {
        let full = full_from_key(key);
        match self.ingest.get(&full) {
            Err(e) => return Err(e),
            Ok(Some(v)) => {
                let w: u64 = self.ingest.word_of(key);
                return Ok(Some((w, KeyHome::Ingest)));
            },
            Ok(None) => {},
        }
        if let Some(w) = newest_get(&self.sealed_ovf, key) {
            return Ok(Some((w, KeyHome::SealedOvf)));
        }
        if let Some(h) = &self.ovf_l1 {
            if let Some(w) = h.get(key) {
                return Ok(Some((w, KeyHome::SealedOvf)));
            }
        }
        let si: usize = self.shard_of_key(key);
        if let Some(h) = &self.main[si] {
            if let Some(w) = h.get(key) {
                return Ok(Some((w, KeyHome::Main)));
            }
        }
        Ok(None)
    }

    /// Value and home of a key.
    fn locate_head(&self, key: &ShHeadKey) -> (r: Result<
        Option<(ShHeadValue, KeyHome)>,
        StoreError,
    >)
        requires
            self.readable(),
        ensures
            match self.located(key@) {
                None => r == Ok::<Option<(ShHeadValue, KeyHome)>, StoreError>(None),
                Some((w, h)) => match unpack8(w) {
                    Ok(v) => r == Ok::<Option<(ShHeadValue, KeyHome)>, StoreError>(Some((v, h))),
                    Err(e) => r == Err::<Option<(ShHeadValue, KeyHome)>, StoreError>(e),
                },
            },
    {
        match self.locate_word(key) {
            Err(e) => Err(e),
            Ok(None) => Ok(None),
            Ok(Some((w, h))) => match unpack8_word(w) {
                Ok(v) => Ok(Some((v, h))),
                Err(e) => Err(e),
            },
        }
    }

    /// Head value of a scripthash.
    pub fn head_value(&self, scripthash: &[u8; 32]) -> (r: Result<Option<ShHeadValue>, StoreError>)
        requires
            self.readable(),
        ensures
            match self.located(key16(scripthash@)) {
                None => r == Ok::<Option<ShHeadValue>, StoreError>(None),
                Some((w, _)) => match unpack8(w) {
                    Ok(v) => r == Ok::<Option<ShHeadValue>, StoreError>(Some(v)),
                    Err(e) => r == Err::<Option<ShHeadValue>, StoreError>(e),
                },
            },
            self.wf() ==> r == Ok::<Option<ShHeadValue>, StoreError>(
                self.value_of(key16(scripthash@)),
            ),
    {
        let key = head_key_from_full(scripthash);
        proof {
            if self.wf() {
                assert(self.key_sound(key@));
            }
        }
        match self.locate_head(&key) {
            Ok(Some((v, _))) => Ok(Some(v)),
            Ok(None) => Ok(None),
            Err(e) => Err(e),
        }
    }

    /// Which head holds a scripthash.
    pub fn key_home(&self, scripthash: &[u8; 32]) -> (r: KeyHome)
        requires
            self.wf(),
        ensures
            r == (match self.located(key16(scripthash@)) {
                Some((_, h)) => h,
                None => KeyHome::Absent,
            }),
    {
        let key = head_key_from_full(scripthash);
        proof {
            assert(self.key_sound(key@));
        }
        match self.locate_head(&key) {
            Ok(Some((_, h))) => h,
            _ => KeyHome::Absent,
        }
    }
}

/// Everything but the heads is the same.
pub open spec fn same_bodies(a: &ScriptHashTable, b: &ScriptHashTable) -> bool {
    b.bodies@ == a.bodies@ && b.layout == a.layout && b.n_shards == a.n_shards && b.scale == a.scale
        && b.include_hwm == a.include_hwm
}

impl ScriptHashTable {
    /// Stores the value of a key in its home; a new key goes to the ingest head.
    fn upsert_head(&mut self, key: &ShHeadKey, val: &ShHeadValue, home: KeyHome)
        requires
            old(self).parts_ok(),
            old(self).homes_apart(),
            home == (match old(self).located(key@) {
                Some((_, h)) => h,
                None => KeyHome::Absent,
            }),
            pack8(*val) is Ok,
            home == KeyHome::Ingest || home == KeyHome::Absent ==> !(*val is Empty) && old(
                self,
            ).ingest.can_take(1),
        ensures
            final(self).parts_ok(),
            final(self).homes_apart(),
            same_bodies(old(self), final(self)),
            final(self).located(key@) == Some(
                (
                    pack8(*val)->Ok_0,
                    if home == KeyHome::Absent {
                        KeyHome::Ingest
                    } else {
                        home
                    },
                ),
            ),
            forall|k: Seq<u8>|
                k != key@ ==> #[trigger] final(self).located(k) == old(self).located(k),
            ingest_grew(&old(self).ingest, &final(self).ingest, 1),
    {
        let ghost s0 = *self;
        let word: u64 = match pack8_word(val) {
            Ok(w) => w,
            Err(_) => 0,
        };
        match home {
            KeyHome::Ingest | KeyHome::Absent => {
                let full = full_from_key(key);
                let _r = self.ingest.insert(&full, val);
                proof {
                    assert(self.ingest@ == s0.ingest@.insert(key@, word));
                    assert(newest_word(self.sealed_ovf@, key@) is None);
                    assert forall|k: Seq<u8>| #[trigger]
                        self.ingest@.dom().contains(k) implies newest_word(
                        self.sealed_ovf@,
                        k,
                    ) is None && l1_word(self.ovf_l1, k) is None && main_word(
                        self.main@,
                        self.n_shards as int,
                        k,
                    ) is None by {
                        if k != key@ {
                            assert(s0.ingest@.dom().contains(k));
                        }
                    }
                }
            },
            KeyHome::SealedOvf => {
                let hit: bool = newest_update(&mut self.sealed_ovf, key, word);
                if !hit {
                    if let Some(h) = &mut self.ovf_l1 {
                        let _u: bool = h.update_value(key, word);
                    }
                }
                proof {
                    assert forall|k: Seq<u8>| #[trigger]
                        self.ingest@.dom().contains(k) implies newest_word(
                        self.sealed_ovf@,
                        k,
                    ) is None && l1_word(self.ovf_l1, k) is None && main_word(
                        self.main@,
                        self.n_shards as int,
                        k,
                    ) is None by {
                        if k == key@ {
                            assert(s0.ingest@.dom().contains(k));
                        }
                    }
                    assert forall|i: int, j: int, k: Seq<u8>|
                        0 <= i < j < self.sealed_ovf@.len() && (
                        #[trigger] self.sealed_ovf@[i].word(k)) is Some implies (
                    #[trigger] self.sealed_ovf@[j].word(k)) is None by {
                        assert(s0.sealed_ovf@[i].word(k) is Some);
                        assert(s0.sealed_ovf@[j].word(k) is None);
                    }
                    lemma_apart_same(
                        s0.sealed_ovf@,
                        s0.ovf_l1,
                        s0.main@,
                        self.sealed_ovf@,
                        self.ovf_l1,
                        self.main@,
                        self.n_shards as int,
                    );
                }
            },
            KeyHome::Main => {
                let si: usize = self.shard_of_key(key);
                let slot = &mut self.main[si];
                if let Some(h) = slot {
                    let _u: bool = h.update_value(key, word);
                }
                proof {
                    assert forall|k: Seq<u8>| k != key@ implies main_word(
                        self.main@,
                        self.n_shards as int,
                        k,
                    ) == main_word(s0.main@, self.n_shards as int, k) by {}
                    assert(!s0.ingest@.dom().contains(key@));
                    lemma_apart_same(
                        s0.sealed_ovf@,
                        s0.ovf_l1,
                        s0.main@,
                        self.sealed_ovf@,
                        self.ovf_l1,
                        self.main@,
                        self.n_shards as int,
                    );
                }
            },
        }
    }
}

/// Valid keys above a valid list go on behind it.
proof fn lemma_above_ok(have: Seq<Fk>, add: Seq<Fk>)
    requires
        fks_small(have),
        fks_small(add),
    ensures
        fks_small(have + above(have, add)),
        above(have, add).len() <= add.len(),
        forall|i: int|
            0 <= i < above(have, add).len() ==> add.contains(#[trigger] above(have, add)[i]) && (
            have.len() > 0 ==> above(have, add)[i].0 > have.last().0),
        forall|i: int|
            0 <= i < add.len() && (have.len() == 0 || (#[trigger] add[i]).0 > have.last().0)
                ==> above(have, add).contains(add[i]),
    decreases add.len(),
{
    let up = above(have, add);
    if add.len() == 0 {
        assert(have + up =~= have);
    } else {
        let d = add.drop_last();
        crate::scripthash_values::lemma_small_prefix(add, d);
        lemma_above_ok(have, d);
        let rest = above(have, d);
        let x = add.last();
        assert(add[add.len() - 1] == x);
        assert forall|i: int| 0 <= i < up.len() implies add.contains(#[trigger] up[i]) && (
        have.len() > 0 ==> up[i].0 > have.last().0) by {
            if i < rest.len() {
                assert(up[i] == rest[i]);
                assert(d.contains(rest[i]));
                let j = choose|j: int| 0 <= j < d.len() && d[j] == rest[i];
                assert(add[j] == rest[i]);
            } else {
                assert(add.contains(x));
            }
        }
        assert forall|i: int|
            0 <= i < add.len() && (have.len() == 0 || (#[trigger] add[i]).0
                > have.last().0) implies up.contains(add[i]) by {
            if i < d.len() {
                assert(d[i] == add[i]);
                assert(rest.contains(d[i]));
                let j = choose|j: int| 0 <= j < rest.len() && rest[j] == d[i];
                assert(up[j] == add[i]);
            } else {
                assert(up[up.len() - 1] == x);
            }
        }
        if have.len() == 0 || x.0 > have.last().0 {
            let s = have + rest;
            let t = have + up;
            assert(t =~= s.push(x));
            assert forall|i: int| 0 <= i < s.len() implies (#[trigger] s[i]).0 < x.0 by {
                if i < have.len() {
                    assert(s[i] == have[i]);
                    if i < have.len() - 1 {
                        assert(have[i].0 < have[have.len() - 1].0);
                    }
                } else {
                    let y = rest[i - have.len()];
                    assert(s[i] == y);
                    assert(d.contains(y));
                    let j = choose|j: int| 0 <= j < d.len() && d[j] == y;
                    assert(add[j].0 < add[add.len() - 1].0);
                }
            }
            assert forall|i: int, j: int| 0 <= i < j < t.len() implies (#[trigger] t[i]).0 < (
            #[trigger] t[j]).0 by {
                assert(t[i] == s[i]);
                if j < s.len() {
                    assert(t[j] == s[j]);
                    assert(s[i].0 < s[j].0);
                }
            }
            assert forall|i: int| 0 <= i < t.len() implies !crate::scripthash_pages::flagged(
                (#[trigger] t[i]).0,
            ) && t[i].0 < 0x8000_0000_0000_0000 by {
                if i < s.len() {
                    assert(t[i] == s[i]);
                }
            }
            if s.len() > 0 {
                assert(t[0] == s[0]);
            } else {
                assert(add[0].0 > 0);
                if add.len() > 1 {
                    assert(add[0].0 < add[add.len() - 1].0);
                }
            }
        }
    }
}

/// Keys of `add` that are larger than `max`.
fn keys_above(max: Option<Fk>, add: &Vec<Fk>, Ghost(have): Ghost<Seq<Fk>>) -> (r: Vec<Fk>)
    requires
        max == crate::scripthash_body::last_opt(have),
    ensures
        r@ == above(have, add@),
{
    let mut out: Vec<Fk> = Vec::new();
    let mut i: usize = 0;
    proof {
        assert(add@.subrange(0, 0) =~= Seq::empty());
    }
    while i < add.len()
        invariant
            i <= add@.len(),
            max == crate::scripthash_body::last_opt(have),
            out@ == above(have, add@.subrange(0, i as int)),
        decreases add@.len() - i,
    {
        proof {
            let p = add@.subrange(0, i + 1);
            assert(p.drop_last() =~= add@.subrange(0, i as int));
            assert(p.last() == add@[i as int]);
        }
        let take: bool = match max {
            None => true,
            Some(m) => add[i].0 > m.0,
        };
        if take {
            out.push(add[i]);
        }
        i += 1;
    }
    proof {
        assert(add@.subrange(0, i as int) =~= add@);
    }
    out
}

/// A limit of the machine or of the format stops a write.
pub open spec fn limit_error(e: StoreError) -> bool {
    e == StoreError::Io("scripthash body cannot grow") || e == StoreError::Io(
        "scripthash ingest cannot grow",
    )
}

/// The larger of two numbers.
pub open spec fn most(a: int, b: int) -> int {
    if a > b {
        a
    } else {
        b
    }
}

/// An ingest head with a known count took at most `n` more keys.
pub open spec fn ingest_grew(a: &ScriptHashHead, b: &ScriptHashHead, n: int) -> bool {
    a.used_slots() matches Some(u) ==> {
        &&& b.used_slots() matches Some(v) && v <= u + n
        &&& b.table().len() <= most(a.table().len() as int, 4 * (u + n) + 128)
    }
}

/// What a write of at most `n` creates takes of the bodies and of the ingest head.
pub open spec fn grew(a: &ScriptHashTable, b: &ScriptHashTable, n: int) -> bool {
    &&& b.shape() == a.shape()
    &&& b.bodies@.len() == a.bodies@.len()
    &&& forall|i: int|
        0 <= i < a.bodies@.len() ==> used_at_most(
            &a.bodies@[i],
            &#[trigger] b.bodies@[i],
            16_809_984 * n,
        )
    &&& ingest_grew(&a.ingest, &b.ingest, n)
}

/// As `grew`; the ingest head may have been sealed and started anew.
pub open spec fn grew_sealed(a: &ScriptHashTable, b: &ScriptHashTable, n: int) -> bool {
    &&& b.shape() == a.shape()
    &&& b.bodies@.len() == a.bodies@.len()
    &&& forall|i: int|
        0 <= i < a.bodies@.len() ==> used_at_most(
            &a.bodies@[i],
            &#[trigger] b.bodies@[i],
            16_809_984 * n,
        )
    &&& a.ingest.used_slots() matches Some(u) ==> {
        &&& b.ingest.used_slots() matches Some(v) && v <= u + n
        &&& b.ingest.table().len() <= most(
            most(a.ingest.table().len() as int, 4 * (u + n) + 128),
            2 * ingest_slots(a.scale),
        )
    }
}

proof fn lemma_grew_trans(
    a: &ScriptHashTable,
    b: &ScriptHashTable,
    c: &ScriptHashTable,
    m: int,
    n: int,
)
    requires
        0 <= m,
        0 <= n,
        grew(a, b, m),
        grew(b, c, n),
    ensures
        grew(a, c, m + n),
{
    assert forall|i: int| 0 <= i < a.bodies@.len() implies used_at_most(
        &a.bodies@[i],
        &#[trigger] c.bodies@[i],
        16_809_984 * (m + n),
    ) by {
        assert(used_at_most(&a.bodies@[i], &b.bodies@[i], 16_809_984 * m));
    }
}

/// A write of fewer creates takes no more.
proof fn lemma_grew_more(a: &ScriptHashTable, b: &ScriptHashTable, m: int, n: int)
    requires
        0 <= m <= n,
        grew(a, b, m),
    ensures
        grew(a, b, n),
{
    assert forall|i: int| 0 <= i < a.bodies@.len() implies used_at_most(
        &a.bodies@[i],
        &#[trigger] b.bodies@[i],
        16_809_984 * n,
    ) by {
        assert(used_at_most(&a.bodies@[i], &b.bodies@[i], 16_809_984 * m));
    }
}

/// A table with room for `n` creates has room for a group of them when the others are
/// written.
proof fn lemma_room_left(a: &ScriptHashTable, b: &ScriptHashTable, m: int, g: int, n: int)
    requires
        grew(a, b, m),
        0 <= m,
        1 <= g,
        m + g <= n,
        b.at_limit(g),
    ensures
        !a.room_for(n),
{
    if a.room_for(n) {
        if b.ingest.can_take(1) {
            let i = choose|i: int|
                0 <= i < b.bodies@.len() && !(#[trigger] b.bodies@[i]).has_space(
                    8192 * (g + 2053),
                );
            assert(used_at_most(&a.bodies@[i], &b.bodies@[i], 16_809_984 * m));
            assert(a.bodies@[i].has_space(16_818_176 * (n + 1)));
        }
    }
}

impl ScriptHashTable {
    /// All bodies and the ingest head have room for `n` more creates.
    pub open spec fn room_for(&self, n: int) -> bool {
        &&& forall|i: int|
            0 <= i < self.bodies@.len() ==> (#[trigger] self.bodies@[i]).has_space(
                16_818_176 * (n + 1),
            )
        &&& self.ingest.used_slots() matches Some(u) && most(
            self.ingest.table().len() as int,
            4 * (u + n) + 128,
        ) < usize::MAX / 16
    }

    /// The table cannot take a write of `n` creates of one key.
    pub open spec fn at_limit(&self, n: int) -> bool {
        ||| exists|i: int|
            0 <= i < self.bodies@.len() && !(#[trigger] self.bodies@[i]).has_space(
                8192 * (n + 2053),
            )
        ||| !self.ingest.can_take(1)
    }

    /// Value, home and body of a key, and what they stand for.
    fn resolve(&self, key: &ShHeadKey) -> (r: (
        ShHeadValue,
        KeyHome,
        usize,
        Ghost<Seq<int>>,
        Ghost<Seq<Fk>>,
    ))
        requires
            self.wf(),
        ensures
            r.1 == (match self.located(key@) {
                Some((_, h)) => h,
                None => KeyHome::Absent,
            }),
            r.1 != KeyHome::Absent ==> self.value_of(key@) == Some(r.0),
            r.1 == KeyHome::Absent ==> r.0 is Empty && self.value_of(key@) is None,
            r.2 == body_index(self.layout, self.n_shards as int, key@, r.1),
            r.2 < self.bodies@.len(),
            self.bodies@[r.2 as int].heap_ok(),
            holds_value(&self.bodies@[r.2 as int], r.0, key@, r.3@, r.4@),
            r.4@ == self.creates(key@),
            fks_small(r.4@),
            r.0 matches ShHeadValue::Inline { used, .. } ==> used == 1,
    {
        proof {
            assert(self.key_sound(key@));
        }
        let (val, home) = match self.locate_head(key) {
            Ok(Some(x)) => x,
            _ => (ShHeadValue::Empty, KeyHome::Absent),
        };
        let bi: usize = self.body_for(key, home);
        let ghost mut pages: Seq<int> = Seq::empty();
        let ghost mut have: Seq<Fk> = Seq::empty();
        proof {
            let b = &self.bodies@[bi as int];
            if home != KeyHome::Absent {
                let (p, f) = lemma_pick(b, val, key@);
                pages = p;
                have = f;
            } else {
                crate::scripthash_values::lemma_holds_empty(b, key@);
            }
            lemma_view_holds(b, val, key@, pages, have);
            crate::scripthash_values::lemma_holds_small(b, val, key@, pages, have);
        }
        (val, home, bi, Ghost(pages), Ghost(have))
    }

    /// Appends the keys that are larger than all creates of a key.
    ///
    /// Gives the number of keys written and the head value.
    fn put_key(&mut self, key: &ShHeadKey, fks: &Vec<Fk>) -> (r: Result<
        (usize, ShHeadValue),
        StoreError,
    >)
        requires
            old(self).wf(),
            fks_small(fks@),
            fks@.len() > 0,
        ensures
            final(self).wf(),
            match r {
                Ok((n, v)) => {
                    let add = above(old(self).creates(key@), fks@);
                    &&& n == add.len()
                    &&& final(self).creates(key@) == old(self).creates(key@) + add
                    &&& final(self).value_of(key@) == Some(v)
                    &&& others_same(old(self), final(self), key@)
                    &&& old(self).live() + n <= u64::MAX ==> final(self).live() == old(self).live()
                        + n
                    &&& grew(old(self), final(self), fks@.len() as int)
                },
                Err(e) => limit_error(e) && *final(self) == *old(self) && old(self).at_limit(
                    fks@.len() as int,
                ),
            },
            counts_exact(old(self)) && old(self).live() + fks@.len() <= u64::MAX ==> counts_exact(
                final(self),
            ),
            put_forms(old(self), final(self)),
            same_marks(old(self), final(self)),
    {
        proof {
            lemma_forms_same(self, self);
        }
        let (val, home, bi, Ghost(pages), Ghost(have)) = self.resolve(key);
        proof {
            crate::scripthash_values::lemma_holds_last(
                &self.bodies@[bi as int],
                val,
                key@,
                pages,
                have,
            );
            lemma_above_ok(have, fks@);
        }
        let max: Option<Fk> = match self.bodies[bi].last_create_fk_on(&val) {
            Ok(m) => m,
            Err(_) => None,
        };
        let add = keys_above(max, fks, Ghost(have));
        if add.len() == 0 && home != KeyHome::Absent {
            proof {
                assert(have + add@ =~= have);
            }
            return Ok((0, val));
        }
        proof {
            if home == KeyHome::Absent {
                let (p, f) = (pages, have);
                lemma_absent_none(self, key@);
                assert(above(have, fks@).contains(fks@[0]));
            }
        }
        if fks.len() as u64 > 0xffff_ffff_ffff || !self.bodies[bi].has_space_for(
            8192 * (fks.len() as u64 + 2053),
        ) {
            return Err(StoreError::Io("scripthash body cannot grow"));
        }
        if self.ingest.slots() >= (usize::MAX / 16) as u64 {
            return Err(StoreError::Io("scripthash ingest cannot grow"));
        }
        let ghost s0 = *self;
        let nv = self.write_key(key, &val, home, bi, &add, Ghost(pages), Ghost(have));
        proof {
            lemma_above_len(have, fks@);
            lemma_grew_more(&s0, self, add@.len() as int, fks@.len() as int);
        }
        Ok((add.len(), nv))
    }

    /// Appends keys to the value of a key and stores the new value in its head.
    fn write_key(
        &mut self,
        key: &ShHeadKey,
        val: &ShHeadValue,
        home: KeyHome,
        bi: usize,
        add: &Vec<Fk>,
        Ghost(pages): Ghost<Seq<int>>,
        Ghost(have): Ghost<Seq<Fk>>,
    ) -> (nv: ShHeadValue)
        requires
            old(self).wf(),
            home == (match old(self).located(key@) {
                Some((_, h)) => h,
                None => KeyHome::Absent,
            }),
            bi == body_index(old(self).layout, old(self).n_shards as int, key@, home),
            bi < old(self).bodies@.len(),
            holds_value(&old(self).bodies@[bi as int], *val, key@, pages, have),
            have == old(self).creates(key@),
            home != KeyHome::Absent ==> old(self).value_of(key@) == Some(*val),
            home == KeyHome::Absent ==> *val is Empty && old(self).value_of(key@) is None,
            fks_small(have + add@),
            add@.len() > 0,
            can_put(&old(self).bodies@[bi as int], add@.len() as int),
            old(self).ingest.can_take(1),
        ensures
            final(self).wf(),
            final(self).creates(key@) == have + add@,
            final(self).value_of(key@) == Some(nv),
            others_same(old(self), final(self), key@),
            put_forms(old(self), final(self)),
            same_marks(old(self), final(self)),
            old(self).live() + add@.len() <= u64::MAX ==> final(self).live() == old(self).live()
                + add@.len(),
            counts_exact(old(self)) && old(self).live() + add@.len() <= u64::MAX ==> counts_exact(
                final(self),
            ),
            grew(old(self), final(self), add@.len() as int),
    {
        let ghost s0 = *self;
        let body = &mut self.bodies[bi];
        let (nv, Ghost(npages)) = body.append_sorted_creates(
            val,
            add,
            Ghost(key@),
            Ghost(pages),
            Ghost(have),
        );
        let ghost s1 = *self;
        proof {
            lemma_sum_update(s0.bodies@, bi as int, s1.bodies@[bi as int]);
            assert(s1.bodies@ =~= s0.bodies@.update(bi as int, s1.bodies@[bi as int]));
            crate::scripthash_values::lemma_packable(
                &s1.bodies@[bi as int],
                nv,
                key@,
                npages,
                have + add@,
            );
            assert forall|k: Seq<u8>| #[trigger] s1.located(k) == s0.located(k) by {}
        }
        self.upsert_head(key, &nv, home);
        proof {
            lemma_key_changed(
                &s0,
                &s1,
                self,
                key@,
                home,
                if home == KeyHome::Absent {
                    KeyHome::Ingest
                } else {
                    home
                },
                bi as int,
                *val,
                pages,
                have,
                nv,
                npages,
                have + add@,
            );
            if counts_exact(&s0) && s0.live() + add@.len() <= u64::MAX {
                lemma_count_step(&s0, self, key@, bi as int);
            }
            lemma_put_forms(&s0, self, key@, nv, add@);
        }
        nv
    }
}

/// One key was written and the others stayed.
proof fn lemma_put_forms(
    a: &ScriptHashTable,
    b: &ScriptHashTable,
    key: Seq<u8>,
    nv: ShHeadValue,
    add: Seq<Fk>,
)
    requires
        others_same(a, b, key),
        add.len() > 0,
        b.creates(key) == a.creates(key) + add,
        b.value_of(key) == Some(nv),
        if a.value_of(key) matches Some(v) && v is Extent {
            nv is Extent
        } else {
            is_packing(nv, a.creates(key) + add, true, 257)
        },
    ensures
        put_forms(a, b),
{
    assert(b.creates(key).len() == a.creates(key).len() + add.len());
    assert forall|k: Seq<u8>| k.len() == 16 implies #[trigger] put_form(a, b, k) by {
        reveal(put_form);
        if k != key {
            assert(b.creates(k) == a.creates(k));
        }
    }
}

/// Nothing was written.
proof fn lemma_forms_same(a: &ScriptHashTable, b: &ScriptHashTable)
    requires
        same_answers(a, b),
    ensures
        put_forms(a, b),
{
    assert forall|k: Seq<u8>| k.len() == 16 implies #[trigger] put_form(a, b, k) by {
        reveal(put_form);
        assert(b.creates(k) == a.creates(k));
    }
}

/// Forms after one key more, which was as at the start.
proof fn lemma_forms_step(
    a: &ScriptHashTable,
    b: &ScriptHashTable,
    c: &ScriptHashTable,
    key: Seq<u8>,
)
    requires
        put_forms(a, b),
        put_forms(b, c),
        b.creates(key) == a.creates(key),
        others_same(b, c, key),
    ensures
        put_forms(a, c),
{
    assert forall|k: Seq<u8>| k.len() == 16 implies #[trigger] put_form(a, c, k) by {
        reveal(put_form);
        assert(put_form(a, b, k));
        assert(put_form(b, c, k));
        if k != key {
            assert(c.creates(k) == b.creates(k));
        }
    }
}

/// A key that has no home has no creates.
proof fn lemma_absent_none(t: &ScriptHashTable, k: Seq<u8>)
    requires
        t.located(k) is None,
    ensures
        t.creates(k) == Seq::<Fk>::empty(),
{
}

/// The form of a key's value after creates were appended: an unchanged key keeps its value,
/// pages stay pages, and else all creates are packed anew, with room for one more.
#[verifier::opaque]
pub open spec fn put_form(a: &ScriptHashTable, b: &ScriptHashTable, k: Seq<u8>) -> bool {
    if b.creates(k) == a.creates(k) {
        b.value_of(k) == a.value_of(k)
    } else if a.value_of(k) matches Some(v) && v is Extent {
        b.value_of(k) matches Some(v) && v is Extent
    } else {
        b.value_of(k) matches Some(v) && is_packing(v, b.creates(k), true, 257)
    }
}

/// Every key has the form that appending gives it.
pub open spec fn put_forms(a: &ScriptHashTable, b: &ScriptHashTable) -> bool {
    forall|k: Seq<u8>| k.len() == 16 ==> #[trigger] put_form(a, b, k)
}

/// The form of a key's value after a create was taken from it: the rest packed anew. A key of
/// the ingest head without creates goes.
pub open spec fn unlink_form(a: &ScriptHashTable, b: &ScriptHashTable, k: Seq<u8>) -> bool {
    match b.value_of(k) {
        Some(v) => is_packing(v, b.creates(k), false, 257) && !(b.creates(k).len() == 0 && (
        a.located(k) matches Some((_, h)) && h == KeyHome::Ingest)),
        None => b.creates(k).len() == 0 && (a.located(k) matches Some((_, h)) && h
            == KeyHome::Ingest),
    }
}

/// Shape and marks of the table stay.
pub open spec fn same_marks(a: &ScriptHashTable, b: &ScriptHashTable) -> bool {
    b.shape() == a.shape() && b.hwm() == a.hwm()
}

/// Every other key is found and reads as before.
pub open spec fn others_same(a: &ScriptHashTable, b: &ScriptHashTable, key: Seq<u8>) -> bool {
    forall|k: Seq<u8>|
        k.len() == 16 && k != key ==> #[trigger] b.creates(k) == a.creates(k) && b.located(k)
            == a.located(k)
}

/// One key got a new value in one body and in its head: the table stays sound.
proof fn lemma_key_changed(
    s0: &ScriptHashTable,
    s1: &ScriptHashTable,
    s2: &ScriptHashTable,
    key: Seq<u8>,
    home: KeyHome,
    new_home: KeyHome,
    bi: int,
    val: ShHeadValue,
    pages: Seq<int>,
    have: Seq<Fk>,
    nv: ShHeadValue,
    npages: Seq<int>,
    fks: Seq<Fk>,
)
    requires
        s0.wf(),
        key.len() == 16,
        s1.layout == s0.layout,
        s1.n_shards == s0.n_shards,
        forall|k: Seq<u8>| #[trigger] s1.located(k) == s0.located(k),
        same_bodies(s1, s2),
        s2.parts_ok(),
        s2.homes_apart(),
        bi == body_index(s0.layout, s0.n_shards as int, key, home),
        bi == body_index(s0.layout, s0.n_shards as int, key, new_home),
        0 <= bi < s0.bodies@.len(),
        s1.bodies@ == s0.bodies@.update(bi, s1.bodies@[bi]),
        holds_value(&s0.bodies@[bi], val, key, pages, have),
        rewritten(&s0.bodies@[bi], &s1.bodies@[bi], pages, nv, key, npages, fks),
        pack8(nv) is Ok,
        unpack8(pack8(nv)->Ok_0) == Ok::<ShHeadValue, StoreError>(nv),
        s2.located(key) == Some((pack8(nv)->Ok_0, new_home)),
        forall|k: Seq<u8>| k != key ==> #[trigger] s2.located(k) == s1.located(k),
    ensures
        s2.wf(),
        s2.creates(key) == fks,
        s2.value_of(key) == Some(nv),
        others_same(s0, s2, key),
{
    assert forall|i: int| 0 <= i < pages.len() implies s0.bodies@[bi].blocks@.dom().contains(
        #[trigger] pages[i],
    ) && s0.bodies@[bi].blocks@[pages[i]].owner == Some(key) by {
        lemma_value_owned(&s0.bodies@[bi], val, key, pages, have, i);
    }
    assert forall|k: Seq<u8>| k.len() == 16 && k != key implies #[trigger] s2.key_sound(k)
        && s2.creates(k) == s0.creates(k) by {
        assert(s2.located(k) == s1.located(k));
        assert(s1.located(k) == s0.located(k));
        lemma_other_keys(s0, s2, key, bi, pages, k);
    }
    lemma_view_holds(&s2.bodies@[bi], nv, key, npages, fks);
    assert(s2.key_sound(key));
    assert(others_same(s0, s2, key)) by {
        assert forall|k: Seq<u8>| k.len() == 16 && k != key implies #[trigger] s2.creates(k)
            == s0.creates(k) && s2.located(k) == s0.located(k) by {
            assert(s2.key_sound(k));
            assert(s2.located(k) == s1.located(k));
            assert(s1.located(k) == s0.located(k));
        }
    }
}

/// Head values by key, as a caller may keep them between batches.
pub struct HeadCache {
    /// Values by the word of the key.
    pub entries: HashMap<u128, ShHeadValue>,
}

impl HeadCache {
    /// The value kept for `k`.
    pub open spec fn value(&self, k: Seq<u8>) -> Option<ShHeadValue> {
        if k.len() == 16 && self.entries@.contains_key(prefix_word(k)) {
            Some(self.entries@[prefix_word(k)])
        } else {
            None
        }
    }

    pub fn new() -> (r: Self)
        ensures
            forall|k: Seq<u8>| #[trigger] r.value(k) is None,
    {
        let entries: HashMap<u128, ShHeadValue> = HashMap::new();
        HeadCache { entries }
    }

    /// The value kept for a scripthash.
    pub fn get(&self, scripthash: &[u8; 32]) -> (r: Option<ShHeadValue>)
        ensures
            r == self.value(key16(scripthash@)),
    {
        broadcast use vstd::std_specs::hash::group_hash_axioms;

        let w: u128 = key_word(scripthash);
        proof {
            law_prefix_word(scripthash@, key16(scripthash@));
            assert(key16(scripthash@).subrange(0, 16) =~= scripthash@.subrange(0, 16));
        }
        match self.entries.get(&w) {
            Some(v) => Some(*v),
            None => None,
        }
    }

    /// Keeps a value for a key.
    fn put(&mut self, key: &ShHeadKey, v: ShHeadValue)
        ensures
            forall|k: Seq<u8>| #[trigger] final(self).value(k) == (if k == key@ {
                Some(v)
            } else {
                old(self).value(k)
            }),
    {
        broadcast use vstd::std_specs::hash::group_hash_axioms;

        let full = full_from_key(key);
        let w: u128 = key_word(&full);
        self.entries.insert(w, v);
        proof {
            assert(full@.subrange(0, 16) =~= key@);
            assert(key@.subrange(0, 16) =~= key@);
            law_prefix_word(full@, key@);
            assert forall|k: Seq<u8>| #[trigger] self.value(k) == (if k == key@ {
                Some(v)
            } else {
                old(self).value(k)
            }) by {
                if k.len() == 16 {
                    law_prefix_word(k, key@);
                    assert(k.subrange(0, 16) =~= k);
                }
            }
        }
    }
}

/// Head key and create of one record.
#[derive(Clone, Copy)]
pub struct KeyFk {
    pub key: ShHeadKey,
    pub fk: u64,
}

impl Ranked for KeyFk {
    open spec fn rank(&self) -> nat {
        be_nat(self.key@) * 0x1_0000_0000_0000_0000 + self.fk as nat
    }

    fn rank_le(&self, other: &Self) -> (r: bool) {
        proof {
            assert(self.key@.subrange(0, 16) =~= self.key@);
            assert(other.key@.subrange(0, 16) =~= other.key@);
            lemma_pair_rank(*self, *other);
            lemma_pair_rank(*other, *self);
        }
        match bytes_order(self.key.as_slice(), 0, other.key.as_slice(), 0, 16) {
            Cmp3::Less => true,
            Cmp3::More => false,
            Cmp3::Same => self.fk <= other.fk,
        }
    }
}

/// Pairs are ordered by key, then by create.
proof fn lemma_pair_rank(a: KeyFk, b: KeyFk)
    ensures
        be_nat(a.key@) < be_nat(b.key@) ==> a.rank() < b.rank(),
        be_nat(a.key@) == be_nat(b.key@) ==> (a.rank() <= b.rank() <==> a.fk <= b.fk),
{
    let (x, y) = (be_nat(a.key@), be_nat(b.key@));
    if x < y {
        assert((x + 1) * 0x1_0000_0000_0000_0000 <= y * 0x1_0000_0000_0000_0000)
            by (nonlinear_arith)
            requires
                x + 1 <= y,
        ;
    }
}

/// The batch asks for create `x` of key `k`.
pub open spec fn asked(recs: Seq<ScriptHashRecord>, k: Seq<u8>, x: u64) -> bool {
    x != 0 && exists|i: int|
        0 <= i < recs.len() && key16((#[trigger] recs[i]).scripthash@) == k
            && recs[i].create_tx_fk.0 == x
}

/// One of the first `n` pairs is `(k, x)`.
pub open spec fn in_pairs(pairs: Seq<KeyFk>, n: int, k: Seq<u8>, x: u64) -> bool {
    exists|i: int| 0 <= i < n && (#[trigger] pairs[i]).key@ == k && pairs[i].fk == x
}

/// Number of the last create (0 if there is none).
pub open spec fn last_num(fks: Seq<Fk>) -> int {
    if fks.len() == 0 {
        0
    } else {
        fks.last().0 as int
    }
}

/// `new` is `old` with the asked creates above it behind it, in order.
pub open spec fn extends(old_fks: Seq<Fk>, new_fks: Seq<Fk>, want: Set<u64>) -> bool {
    &&& old_fks.len() <= new_fks.len()
    &&& new_fks.subrange(0, old_fks.len() as int) == old_fks
    &&& fks_small(new_fks)
    &&& forall|i: int|
        old_fks.len() <= i < new_fks.len() ==> want.contains((#[trigger] new_fks[i]).0)
            && new_fks[i].0 > last_num(old_fks)
    &&& forall|x: u64| #[trigger]
        want.contains(x) && x > last_num(old_fks) ==> new_fks.contains(Fk(x))
}

/// Creates of key `k` that the batch asks for.
pub open spec fn asked_set(recs: Seq<ScriptHashRecord>, k: Seq<u8>) -> Set<u64> {
    Set::new(|x: u64| asked(recs, k, x))
}

/// Creates of key `k` among the first `n` pairs.
pub open spec fn pair_set(pairs: Seq<KeyFk>, n: int, k: Seq<u8>) -> Set<u64> {
    Set::new(|x: u64| in_pairs(pairs, n, k, x))
}

/// Two lists that extend `old` by the same creates are equal.
pub proof fn law_extends_unique(old_fks: Seq<Fk>, a: Seq<Fk>, b: Seq<Fk>, want: Set<u64>)
    requires
        extends(old_fks, a, want),
        extends(old_fks, b, want),
    ensures
        a == b,
{
    lemma_extends_prefix(old_fks, a, b, want, a.len() as int);
    lemma_extends_prefix(old_fks, b, a, want, b.len() as int);
    assert(a =~= b);
}

proof fn lemma_extends_prefix(
    old_fks: Seq<Fk>,
    a: Seq<Fk>,
    b: Seq<Fk>,
    want: Set<u64>,
    n: int,
)
    requires
        extends(old_fks, a, want),
        extends(old_fks, b, want),
        0 <= n <= a.len(),
    ensures
        n <= b.len(),
        forall|i: int| 0 <= i < n ==> a[i] == b[i],
    decreases n,
{
    if n > 0 {
        lemma_extends_prefix(old_fks, a, b, want, n - 1);
        let i = n - 1;
        if i < old_fks.len() {
            assert(a.subrange(0, old_fks.len() as int)[i] == a[i]);
            assert(b.subrange(0, old_fks.len() as int)[i] == b[i]);
        } else {
            // a[i] is a wanted create, so it is somewhere in b, and not before i.
            assert(want.contains(a[i].0));
            assert(b.contains(Fk(a[i].0)));
            let j = choose|j: int| 0 <= j < b.len() && b[j] == Fk(a[i].0);
            if j < i {
                assert(a[j] == b[j]);
                assert(a[j].0 < a[i].0);
            }
            // And b[i] is somewhere in a, and not before i.
            assert(i < b.len());
            assert(want.contains(b[i].0));
            assert(a.contains(Fk(b[i].0)));
            let l = choose|l: int| 0 <= l < a.len() && a[l] == Fk(b[i].0);
            if l < i {
                assert(a[l] == b[l]);
                assert(b[l].0 < b[i].0);
            }
            if j > i {
                assert(b[i].0 < b[j].0);
            }
            if l > i {
                assert(a[i].0 < a[l].0);
            }
        }
    }
}

/// Pairs of the records that name a transaction.
fn batch_pairs(recs: &[ScriptHashRecord]) -> (r: Vec<KeyFk>)
    ensures
        forall|k: Seq<u8>, x: u64|
            #[trigger] in_pairs(r@, r@.len() as int, k, x) <==> asked(recs@, k, x),
        r@.len() <= recs@.len(),
{
    let mut v: Vec<KeyFk> = Vec::new();
    let mut i: usize = 0;
    while i < recs.len()
        invariant
            i <= recs@.len(),
            v@.len() <= i,
            forall|k: Seq<u8>, x: u64|
                #[trigger] in_pairs(v@, v@.len() as int, k, x) <==> asked(
                    recs@.subrange(0, i as int),
                    k,
                    x,
                ),
        decreases recs@.len() - i,
    {
        let ghost before = v@;
        let ghost done = recs@.subrange(0, i as int);
        let ghost more = recs@.subrange(0, i + 1);
        let rec = recs[i];
        if rec.create_tx_fk.0 != 0 {
            v.push(KeyFk { key: head_key_from_full(&rec.scripthash), fk: rec.create_tx_fk.0 });
        }
        proof {
            assert forall|k: Seq<u8>, x: u64|
                #[trigger] in_pairs(v@, v@.len() as int, k, x) <==> asked(more, k, x) by {
                if in_pairs(v@, v@.len() as int, k, x) {
                    let j = choose|j: int|
                        0 <= j < v@.len() && (#[trigger] v@[j]).key@ == k && v@[j].fk == x;
                    if j < before.len() {
                        assert(before[j] == v@[j]);
                        assert(in_pairs(before, before.len() as int, k, x));
                        let t = choose|t: int|
                            0 <= t < done.len() && key16((#[trigger] done[t]).scripthash@) == k
                                && done[t].create_tx_fk.0 == x;
                        assert(more[t] == done[t]);
                    } else {
                        assert(more[i as int] == rec);
                    }
                }
                if asked(more, k, x) {
                    let t = choose|t: int|
                        0 <= t < more.len() && key16((#[trigger] more[t]).scripthash@) == k
                            && more[t].create_tx_fk.0 == x;
                    if t < i {
                        assert(done[t] == more[t]);
                        assert(in_pairs(before, before.len() as int, k, x));
                        let j = choose|j: int|
                            0 <= j < before.len() && (#[trigger] before[j]).key@ == k
                                && before[j].fk == x;
                        assert(v@[j] == before[j]);
                    } else {
                        assert(v@[before.len() as int].key@ == k);
                    }
                }
            }
        }
        i += 1;
    }
    proof {
        assert(recs@.subrange(0, i as int) =~= recs@);
    }
    v
}

/// Reordering pairs keeps what they hold.
proof fn lemma_pairs_same(a: Seq<KeyFk>, b: Seq<KeyFk>, k: Seq<u8>, x: u64)
    requires
        a.to_multiset() == b.to_multiset(),
    ensures
        in_pairs(a, a.len() as int, k, x) == in_pairs(b, b.len() as int, k, x),
{
    if in_pairs(a, a.len() as int, k, x) {
        let i = choose|i: int| 0 <= i < a.len() && (#[trigger] a[i]).key@ == k && a[i].fk == x;
        let j = lemma_same_items(a, b, i);
        assert(b[j].key@ == k && b[j].fk == x);
    }
    if in_pairs(b, b.len() as int, k, x) {
        let i = choose|i: int| 0 <= i < b.len() && (#[trigger] b[i]).key@ == k && b[i].fk == x;
        let j = lemma_same_items(b, a, i);
        assert(a[j].key@ == k && a[j].fk == x);
    }
}

/// Creates of one run of equal keys, without repeats.
fn group_fks(pairs: &Vec<KeyFk>, start: usize) -> (r: (Vec<Fk>, usize))
    requires
        start < pairs@.len(),
        sorted_by_rank(pairs@),
        forall|i: int|
            0 <= i < pairs@.len() ==> 0 < (#[trigger] pairs@[i]).fk < 0x8000_0000_0000_0000,
    ensures
        start < r.1 <= pairs@.len(),
        fks_small(r.0@),
        r.0@.len() > 0,
        r.0@.len() <= r.1 - start,
        forall|i: int|
            start <= i < r.1 ==> (#[trigger] pairs@[i]).key@ == pairs@[start as int].key@
                && r.0@.contains(Fk(pairs@[i].fk)),
        forall|j: int|
            0 <= j < r.0@.len() ==> exists|i: int|
                start <= i < r.1 && (#[trigger] pairs@[i]).fk == (#[trigger] r.0@[j]).0,
        r.1 < pairs@.len() ==> pairs@[r.1 as int].key@ != pairs@[start as int].key@,
{
    let n: usize = pairs.len();
    let key: ShHeadKey = pairs[start].key;
    let mut out: Vec<Fk> = Vec::new();
    out.push(Fk(pairs[start].fk));
    let mut i: usize = start + 1;
    proof {
        assert(out@[0] == Fk(pairs@[start as int].fk));
    }
    while i < n && crate::slot_table::key_eq(&pairs[i].key, &key)
        invariant
            start < i <= n,
            n == pairs@.len(),
            key == pairs@[start as int].key,
            sorted_by_rank(pairs@),
            forall|j: int|
                0 <= j < pairs@.len() ==> 0 < (#[trigger] pairs@[j]).fk < 0x8000_0000_0000_0000,
            out@.len() > 0,
            out@.len() <= i - start,
            fks_small(out@),
            out@.last().0 == pairs@[i - 1].fk,
            forall|j: int|
                start <= j < i ==> (#[trigger] pairs@[j]).key@ == key@ && out@.contains(
                    Fk(pairs@[j].fk),
                ),
            forall|j: int|
                0 <= j < out@.len() ==> exists|t: int|
                    start <= t < i && (#[trigger] pairs@[t]).fk == (#[trigger] out@[j]).0,
        decreases pairs@.len() - i,
    {
        let f: u64 = pairs[i].fk;
        let ghost before = out@;
        proof {
            assert(pairs@[i - 1].rank() <= pairs@[i as int].rank());
            lemma_pair_rank(pairs@[i - 1], pairs@[i as int]);
            assert(pairs@[i - 1].key@ == key@);
        }
        if f != out[out.len() - 1].0 {
            out.push(Fk(f));
        }
        proof {
            assert forall|j: int| start <= j < i + 1 implies (#[trigger] pairs@[j]).key@ == key@
                && out@.contains(Fk(pairs@[j].fk)) by {
                if j < i {
                    assert(before.contains(Fk(pairs@[j].fk)));
                    let t = choose|t: int| 0 <= t < before.len() && before[t] == Fk(pairs@[j].fk);
                    assert(out@[t] == Fk(pairs@[j].fk));
                } else {
                    assert(out@[out@.len() - 1] == Fk(f));
                }
            }
            assert forall|j: int| 0 <= j < out@.len() implies exists|t: int|
                start <= t < i + 1 && (#[trigger] pairs@[t]).fk == (#[trigger] out@[j]).0 by {
                if j < before.len() {
                    assert(out@[j] == before[j]);
                    let t = choose|t: int|
                        start <= t < i && (#[trigger] pairs@[t]).fk == before[j].0;
                    assert(pairs@[t].fk == out@[j].0);
                } else {
                    assert(pairs@[i as int].fk == out@[j].0);
                }
            }
            if out@.len() > before.len() {
                assert forall|a: int, b: int| 0 <= a < b < out@.len() implies (
                #[trigger] out@[a]).0 < (#[trigger] out@[b]).0 by {
                    assert(out@[a] == before[a]);
                    if b < before.len() {
                        assert(out@[b] == before[b]);
                    } else if a < before.len() - 1 {
                        assert(before[a].0 < before[before.len() - 1].0);
                    }
                }
                assert forall|a: int| 0 <= a < out@.len() implies !crate::scripthash_pages::flagged(
                    (#[trigger] out@[a]).0,
                ) && out@[a].0 < 0x8000_0000_0000_0000 by {
                    if a < before.len() {
                        assert(out@[a] == before[a]);
                    }
                }
            }
        }
        i += 1;
    }
    (out, i)
}

/// Slots of a fresh ingest head.
pub open spec fn ingest_slots(scale: HeadScale) -> u64 {
    match scale {
        HeadScale::Tiny => 256,
        HeadScale::Mainnet => 33_554_432,
    }
}

/// Slots of a fresh ingest head.
pub fn ingest_oa_slots(scale: HeadScale) -> (r: u64)
    ensures
        r == ingest_slots(scale),
{
    match scale {
        HeadScale::Tiny => 256,
        HeadScale::Mainnet => 33_554_432,
    }
}

/// Sealed overflow heads that are merged together.
pub const SEALED_OVF_COMPACT_FILES: usize = 8;

/// Both tables give the same value and the same creates for every key.
pub open spec fn same_answers(a: &ScriptHashTable, b: &ScriptHashTable) -> bool {
    forall|k: Seq<u8>|
        k.len() == 16 ==> #[trigger] b.creates(k) == a.creates(k) && b.value_of(k) == a.value_of(k)
}

/// Keys moved between overflow heads: the table stays sound and answers alike.
proof fn lemma_moved(a: &ScriptHashTable, b: &ScriptHashTable)
    requires
        a.wf(),
        same_bodies(a, b),
        b.parts_ok(),
        b.homes_apart(),
        forall|k: Seq<u8>|
            (#[trigger] b.located(k)) == a.located(k) || (a.located(k) matches Some((w, h))
                && b.located(k) == Some((w, KeyHome::SealedOvf)) && h != KeyHome::Main),
    ensures
        b.wf(),
        same_answers(a, b),
        b.live() == a.live(),
        counts_exact(a) ==> counts_exact(b),
{
    assert forall|k: Seq<u8>| k.len() == 16 implies #[trigger] b.key_sound(k) && b.creates(k)
        == a.creates(k) && b.value_of(k) == a.value_of(k) by {
        assert(a.key_sound(k));
        assert(b.located(k) == a.located(k) || a.located(k) is Some);
    }
    assert(same_answers(a, b)) by {
        assert forall|k: Seq<u8>| k.len() == 16 implies #[trigger] b.creates(k) == a.creates(k)
            && b.value_of(k) == a.value_of(k) by {
            assert(b.key_sound(k));
        }
    }
    if counts_exact(a) {
        assert forall|k: Seq<u8>| k.len() == 16 implies #[trigger] b.creates(k) == a.creates(k)
            && place(b, k) == place(a, k) by {
            assert(b.located(k) == a.located(k) || a.located(k) is Some);
        }
        lemma_count_same(a, b);
    }
}

proof fn lemma_same_trans(a: &ScriptHashTable, b: &ScriptHashTable, c: &ScriptHashTable)
    requires
        same_answers(a, b),
        same_answers(b, c),
    ensures
        same_answers(a, c),
{
    assert(same_answers(a, c)) by {
        assert forall|k: Seq<u8>| k.len() == 16 implies #[trigger] c.creates(k) == a.creates(k)
            && c.value_of(k) == a.value_of(k) by {
            assert(b.creates(k) == a.creates(k));
            assert(c.creates(k) == b.creates(k));
            assert(b.value_of(k) == a.value_of(k));
            assert(c.value_of(k) == b.value_of(k));
        }
    }
}

/// The overflow heads were merged into one that holds all their keys.
pub open spec fn compacted(a: &ScriptHashTable, b: &ScriptHashTable) -> bool {
    &&& b.has_l1()
    &&& b.sealed_count() == 0
    &&& forall|k: Seq<u8>| #[trigger] l1_word(b.ovf_l1, k) == newest_word(a.sealed_ovf@, k)
    &&& b.ingest == a.ingest
    &&& b.main@ == a.main@
    &&& same_bodies(a, b)
}

/// The ingest head was sealed: its keys are in a new overflow head, and a fresh ingest
/// head took its place. The overflow heads are merged when there are enough of them.
pub open spec fn ingest_sealed(a: &ScriptHashTable, b: &ScriptHashTable) -> bool {
    let n = a.sealed_count();
    &&& b.ingest@ == Map::<Seq<u8>, u64>::empty()
    &&& b.ingest.used_slots() == Some(0u64)
    &&& least_pow2(b.ingest.table().len() as int, ingest_slots(a.scale) as int)
    &&& b.main@ == a.main@
    &&& same_bodies(a, b)
    &&& if !a.has_l1() && n + 1 >= SEALED_OVF_COMPACT_FILES {
        &&& b.has_l1()
        &&& b.sealed_count() == 0
        &&& forall|k: Seq<u8>| #[trigger]
            l1_word(b.ovf_l1, k) == (if a.ingest@.dom().contains(k) {
                Some(a.ingest@[k])
            } else {
                newest_word(a.sealed_ovf@, k)
            })
    } else {
        &&& b.ovf_l1 == a.ovf_l1
        &&& b.sealed_ovf@ == a.sealed_ovf@.push(b.sealed_ovf@.last())
        &&& b.sealed_ovf@.last().file_id() == (if n > u32::MAX {
            u32::MAX
        } else {
            n as u32
        })
        &&& forall|k: Seq<u8>| #[trigger]
            b.sealed_ovf@.last().word(k) == (if a.ingest@.dom().contains(k) {
                Some(a.ingest@[k])
            } else {
                None
            })
    }
}

impl ScriptHashTable {
    /// Number of sealed overflow heads that are not merged.
    pub open spec fn sealed_count(&self) -> nat {
        self.sealed_ovf@.len()
    }

    /// There is a merged overflow head.
    pub open spec fn has_l1(&self) -> bool {
        self.ovf_l1 is Some
    }

    /// Merges the sealed overflow heads into one, once in the life of a table.
    #[verifier::rlimit(40)]
    pub fn compact_sealed_ovf(&mut self) -> (r: Result<(), StoreError>)
        requires
            old(self).wf(),
        ensures
            r is Ok,
            final(self).wf(),
            same_answers(old(self), final(self)),
            final(self).live() == old(self).live(),
            counts_exact(old(self)) ==> counts_exact(final(self)),
            old(self).has_l1() || old(self).sealed_count() < 2 ==> *final(self) == *old(self),
            !old(self).has_l1() && old(self).sealed_count() >= 2 ==> compacted(
                old(self),
                final(self),
            ),
    {
        let ghost s0 = *self;
        if self.ovf_l1.is_some() || self.sealed_ovf.len() < 2 {
            return Ok(());
        }
        let all = collect_records(&self.sealed_ovf);
        let recs = sort_ranked(&all);
        proof {
            lemma_all_records(self.sealed_ovf@);
            lemma_sort_distinct(all@, recs@);
        }
        let mut i: usize = 1;
        while i < recs.len()
            invariant
                1 <= i,
                keys_rise(recs@),
                *self == s0,
            decreases recs@.len() - i,
        {
            proof {
                assert(recs@[i - 1].rank() < recs@[i as int].rank());
            }
            if crate::slot_table::key_eq(&recs[i - 1].key, &recs[i].key) {
                return Err(
                    StoreError::Corrupt("invariant: sealed ovf compact saw a dual-home key"),
                );
            }
            i += 1;
        }
        let mut id: u32 = 0;
        let mut j: usize = 0;
        while j < self.sealed_ovf.len()
            invariant
                j <= self.sealed_ovf@.len(),
            decreases self.sealed_ovf@.len() - j,
        {
            let x: u32 = self.sealed_ovf[j].id();
            if x >= id {
                id = if x == 0xffff_ffff {
                    x
                } else {
                    x + 1
                };
            }
            j += 1;
        }
        self.ovf_l1 = Some(SealedHead::seal(id, recs));
        self.sealed_ovf = Vec::new();
        proof {
            assert forall|k: Seq<u8>|
                (#[trigger] self.located(k)) == s0.located(k) || (s0.located(k) matches Some((w, h))
                    && self.located(k) == Some((w, KeyHome::SealedOvf)) && h != KeyHome::Main) by {
                assert(l1_word(self.ovf_l1, k) == sealed_word(recs@, k));
                assert(sealed_word(recs@, k) == sealed_word(all@, k));
                assert(sealed_word(all@, k) == newest_word(s0.sealed_ovf@, k));
                assert(newest_word(self.sealed_ovf@, k) is None);
            }
            assert(sealed_apart(self.sealed_ovf@, self.ovf_l1, self.main@, self.n_shards as int)) by {
                reveal(sealed_apart);
                assert forall|k: Seq<u8>| (#[trigger] l1_word(self.ovf_l1, k))
                    is Some implies main_word(self.main@, self.n_shards as int, k) is None by {
                    assert(sealed_word(recs@, k) == sealed_word(all@, k));
                    assert(sealed_word(all@, k) == newest_word(s0.sealed_ovf@, k));
                }
            }
            lemma_moved(&s0, self);
            assert forall|k: Seq<u8>| #[trigger] l1_word(self.ovf_l1, k) == newest_word(
                s0.sealed_ovf@,
                k,
            ) by {
                assert(sealed_word(recs@, k) == sealed_word(all@, k));
                assert(sealed_word(all@, k) == newest_word(s0.sealed_ovf@, k));
            }
        }
        Ok(())
    }

    /// Seals the ingest head into a new overflow head and starts an empty one.
    #[verifier::rlimit(40)]
    fn seal_ingest(&mut self)
        requires
            old(self).wf(),
        ensures
            final(self).wf(),
            same_answers(old(self), final(self)),
            final(self).live() == old(self).live(),
            counts_exact(old(self)) ==> counts_exact(final(self)),
            if old(self).ingest@.dom() =~= Set::<Seq<u8>>::empty() {
                *final(self) == *old(self)
            } else {
                ingest_sealed(old(self), final(self))
            },
    {
        let ghost s0 = *self;
        let recs = self.ingest.sealed_records();
        if recs.len() == 0 {
            proof {
                assert forall|k: Seq<u8>| !#[trigger] self.ingest@.dom().contains(k) by {
                    assert(sealed_word(recs@, k) is None);
                }
            }
            return;
        }
        let n: usize = self.sealed_ovf.len();
        let id: u32 = if n > 0xffff_ffff {
            0xffff_ffff
        } else {
            n as u32
        };
        let ghost old_map = self.ingest@;
        proof {
            assert(sealed_word(recs@, recs@.last().key@) is Some);
            assert forall|k: Seq<u8>| #[trigger] sealed_word(recs@, k) == (
            if old_map.dom().contains(k) {
                Some(old_map[k])
            } else {
                None
            }) by {}
        }
        self.sealed_ovf.push(SealedHead::seal(id, recs));
        self.ingest = ScriptHashHead::create_with_slots(ingest_oa_slots(self.scale));
        proof {
            let heads = self.sealed_ovf@;
            assert(heads.drop_last() =~= s0.sealed_ovf@);
            assert forall|i: int| 0 <= i < heads.len() implies (#[trigger] heads[i]).inv() by {
                if i < heads.len() - 1 {
                    assert(s0.sealed_ovf@[i].inv());
                }
            }
            assert forall|i: int, j: int, k: Seq<u8>|
                0 <= i < j < heads.len() && (#[trigger] heads[i].word(k)) is Some implies (
            #[trigger] heads[j].word(k)) is None by {
                assert(s0.sealed_ovf@[i] == heads[i]);
                if j < heads.len() - 1 {
                    assert(s0.sealed_ovf@[j].word(k) is None);
                } else if heads[j].word(k) is Some {
                    assert(sealed_word(recs@, k) is Some);
                    assert(s0.ingest@.dom().contains(k));
                    lemma_newest_none(s0.sealed_ovf@, k, i);
                }
            }
            assert forall|k: Seq<u8>|
                (#[trigger] self.located(k)) == s0.located(k) || (s0.located(k) matches Some((w, h))
                    && self.located(k) == Some((w, KeyHome::SealedOvf)) && h != KeyHome::Main) by {
                assert(heads.last().word(k) == sealed_word(recs@, k));
            }
            assert(sealed_apart(self.sealed_ovf@, self.ovf_l1, self.main@, self.n_shards as int)) by {
                reveal(sealed_apart);
                assert forall|k: Seq<u8>| (#[trigger] newest_word(heads, k)) is Some implies l1_word(
                    self.ovf_l1,
                    k,
                ) is None && main_word(self.main@, self.n_shards as int, k) is None by {
                    assert(heads.last().word(k) == sealed_word(recs@, k));
                    if sealed_word(recs@, k) is Some {
                        assert(s0.ingest@.dom().contains(k));
                    } else {
                        assert(newest_word(s0.sealed_ovf@, k) is Some);
                    }
                }
            }
            lemma_moved(&s0, self);
        }
        let ghost s1 = *self;
        self.maybe_compact_sealed_ovf();
        proof {
            lemma_same_trans(&s0, &s1, self);
            let heads = s1.sealed_ovf@;
            assert(heads.drop_last() =~= s0.sealed_ovf@);
            assert forall|k: Seq<u8>| #[trigger] newest_word(heads, k) == (
            if s0.ingest@.dom().contains(k) {
                Some(s0.ingest@[k])
            } else {
                newest_word(s0.sealed_ovf@, k)
            }) by {
                assert(heads.last().word(k) == sealed_word(recs@, k));
            }
            assert forall|k: Seq<u8>| #[trigger] heads.last().word(k) == (
            if s0.ingest@.dom().contains(k) {
                Some(s0.ingest@[k])
            } else {
                None
            }) by {
                assert(heads.last().word(k) == sealed_word(recs@, k));
            }
        }
    }

    /// Merges the sealed overflow heads when there are enough of them.
    fn maybe_compact_sealed_ovf(&mut self)
        requires
            old(self).wf(),
        ensures
            final(self).wf(),
            same_answers(old(self), final(self)),
            final(self).live() == old(self).live(),
            counts_exact(old(self)) ==> counts_exact(final(self)),
            if !old(self).has_l1() && old(self).sealed_count() >= SEALED_OVF_COMPACT_FILES {
                compacted(old(self), final(self))
            } else {
                *final(self) == *old(self)
            },
    {
        if self.ovf_l1.is_none() && self.sealed_ovf.len() >= SEALED_OVF_COMPACT_FILES {
            let _r = self.compact_sealed_ovf();
        }
    }

    /// Seals the ingest head once four fifths of it are in use.
    fn maybe_seal_ingest(&mut self)
        requires
            old(self).wf(),
        ensures
            final(self).wf(),
            same_answers(old(self), final(self)),
            final(self).live() == old(self).live(),
            counts_exact(old(self)) ==> counts_exact(final(self)),
            if old(self).ingest.used_slots() matches Some(n) && 5 * n >= 4 * old(
                self,
            ).ingest.table().len() && !(old(self).ingest@.dom() =~= Set::<Seq<u8>>::empty()) {
                ingest_sealed(old(self), final(self))
            } else {
                *final(self) == *old(self)
            },
    {
        if self.ingest.load_reached() {
            self.seal_ingest();
        }
    }
}

/// The pairs with key `key` are exactly those at `i..j`, and `fks` are their creates.
pub open spec fn is_group(pairs: Seq<KeyFk>, i: int, j: int, key: Seq<u8>, fks: Seq<Fk>) -> bool {
    &&& 0 <= i < j <= pairs.len()
    &&& forall|t: int| 0 <= t < i ==> (#[trigger] pairs[t]).key@ != key
    &&& forall|t: int| i <= t < j ==> (#[trigger] pairs[t]).key@ == key && fks.contains(
        Fk(pairs[t].fk),
    )
    &&& forall|a: int|
        0 <= a < fks.len() ==> exists|t: int|
            i <= t < j && (#[trigger] pairs[t]).fk == (#[trigger] fks[a]).0
}

proof fn lemma_group_extends(
    old_fks: Seq<Fk>,
    fks: Seq<Fk>,
    pairs: Seq<KeyFk>,
    i: int,
    j: int,
    key: Seq<u8>,
)
    requires
        is_group(pairs, i, j, key, fks),
        fks_small(old_fks),
        fks_small(fks),
    ensures
        extends(old_fks, old_fks + above(old_fks, fks), pair_set(pairs, j, key)),
        pair_set(pairs, i, key) =~= Set::<u64>::empty(),
{
    lemma_above_ok(old_fks, fks);
    let up = above(old_fks, fks);
    let all = old_fks + up;
    let want = pair_set(pairs, j, key);
    assert(all.subrange(0, old_fks.len() as int) =~= old_fks);
    assert forall|a: int| old_fks.len() <= a < all.len() implies want.contains(
        (#[trigger] all[a]).0,
    ) && all[a].0 > last_num(old_fks) by {
        let x = up[a - old_fks.len()];
        assert(all[a] == x);
        assert(fks.contains(x));
        let b = choose|b: int| 0 <= b < fks.len() && fks[b] == x;
        let t = choose|t: int| i <= t < j && (#[trigger] pairs[t]).fk == fks[b].0;
        assert(pairs[t].key@ == key);
        assert(in_pairs(pairs, j, key, x.0));
        assert(fks[b].0 >= fks[0].0) by {
            if b > 0 {
                assert(fks[0].0 < fks[b].0);
            }
        }
    }
    assert forall|x: u64| #[trigger]
        want.contains(x) && x > last_num(old_fks) implies all.contains(Fk(x)) by {
        let t = choose|t: int| 0 <= t < j && (#[trigger] pairs[t]).key@ == key && pairs[t].fk == x;
        assert(fks.contains(Fk(pairs[t].fk)));
        let b = choose|b: int| 0 <= b < fks.len() && fks[b] == Fk(x);
        assert(fks[b].0 > last_num(old_fks));
        assert(up.contains(fks[b]));
        let c = choose|c: int| 0 <= c < up.len() && up[c] == Fk(x);
        assert(all[old_fks.len() + c] == Fk(x));
    }
}

/// Keys and creates that the first `n` pairs add to what is there.
pub open spec fn new_pairs(t: &ScriptHashTable, pairs: Seq<KeyFk>, n: int) -> Set<(Seq<u8>, u64)> {
    Set::new(
        |p: (Seq<u8>, u64)| in_pairs(pairs, n, p.0, p.1) && p.1 > last_num(t.creates(p.0)),
    )
}

/// `s` with the creates `add` of `key`.
pub open spec fn with_fks(s: Set<(Seq<u8>, u64)>, key: Seq<u8>, add: Seq<Fk>) -> Set<
    (Seq<u8>, u64),
>
    decreases add.len(),
{
    if add.len() == 0 {
        s
    } else {
        with_fks(s, key, add.drop_last()).insert((key, add.last().0))
    }
}

proof fn lemma_with_fks(s: Set<(Seq<u8>, u64)>, key: Seq<u8>, add: Seq<Fk>)
    requires
        s.finite(),
        forall|x: u64| !s.contains((key, x)),
        forall|i: int, j: int|
            0 <= i < j < add.len() ==> (#[trigger] add[i]).0 < (#[trigger] add[j]).0,
    ensures
        with_fks(s, key, add).finite(),
        with_fks(s, key, add).len() == s.len() + add.len(),
        forall|p: (Seq<u8>, u64)| #[trigger]
            with_fks(s, key, add).contains(p) <==> s.contains(p) || (p.0 == key && add.contains(
                Fk(p.1),
            )),
    decreases add.len(),
{
    if add.len() > 0 {
        let d = add.drop_last();
        assert forall|i: int, j: int| 0 <= i < j < d.len() implies (#[trigger] d[i]).0 < (
        #[trigger] d[j]).0 by {
            assert(add[i].0 < add[j].0);
        }
        lemma_with_fks(s, key, d);
        let x = add.last();
        if d.contains(Fk(x.0)) {
            let i = choose|i: int| 0 <= i < d.len() && d[i] == Fk(x.0);
            assert(add[i].0 < add[add.len() - 1].0);
        }
        assert forall|p: (Seq<u8>, u64)| #[trigger]
            with_fks(s, key, add).contains(p) <==> s.contains(p) || (p.0 == key && add.contains(
                Fk(p.1),
            )) by {
            if p.0 == key && add.contains(Fk(p.1)) {
                let i = choose|i: int| 0 <= i < add.len() && add[i] == Fk(p.1);
                if i < d.len() {
                    assert(d[i] == Fk(p.1));
                    assert(d.contains(Fk(p.1)));
                }
            }
            if p == (key, x.0) {
                assert(add[add.len() - 1] == Fk(p.1));
            } else if d.contains(Fk(p.1)) {
                let i = choose|i: int| 0 <= i < d.len() && d[i] == Fk(p.1);
                assert(add[i] == Fk(p.1));
            }
        }
    }
}

/// One more group: what is new grows by the creates that were written.
proof fn lemma_group_new(
    t: &ScriptHashTable,
    pairs: Seq<KeyFk>,
    i: int,
    j: int,
    key: Seq<u8>,
    fks: Seq<Fk>,
)
    requires
        is_group(pairs, i, j, key, fks),
        fks_small(t.creates(key)),
        fks_small(fks),
        new_pairs(t, pairs, i).finite(),
    ensures
        new_pairs(t, pairs, j).finite(),
        new_pairs(t, pairs, j).len() == new_pairs(t, pairs, i).len() + above(
            t.creates(key),
            fks,
        ).len(),
{
    let have = t.creates(key);
    let up = above(have, fks);
    lemma_above_ok(have, fks);
    let all = have + up;
    assert forall|a: int, b: int| 0 <= a < b < up.len() implies (#[trigger] up[a]).0 < (
    #[trigger] up[b]).0 by {
        assert(all[have.len() + a].0 < all[have.len() + b].0);
    }
    let s = new_pairs(t, pairs, i);
    lemma_with_fks(s, key, up);
    let r = new_pairs(t, pairs, j);
    assert forall|p: (Seq<u8>, u64)| #[trigger] r.contains(p) <==> with_fks(s, key, up).contains(
        p,
    ) by {
        if p.0 == key {
            lemma_group_own(t, pairs, i, j, key, fks, p.1);
        } else {
            lemma_group_other(pairs, i, j, key, fks, p.0, p.1);
        }
    }
    assert(r =~= with_fks(s, key, up));
}

/// What is new of the key of the group.
proof fn lemma_group_own(
    t: &ScriptHashTable,
    pairs: Seq<KeyFk>,
    i: int,
    j: int,
    key: Seq<u8>,
    fks: Seq<Fk>,
    x: u64,
)
    requires
        is_group(pairs, i, j, key, fks),
        fks_small(t.creates(key)),
        fks_small(fks),
    ensures
        (in_pairs(pairs, j, key, x) && x > last_num(t.creates(key))) <==> above(
            t.creates(key),
            fks,
        ).contains(Fk(x)),
{
    let have = t.creates(key);
    let up = above(have, fks);
    lemma_above_ok(have, fks);
    lemma_group_extends(have, fks, pairs, i, j, key);
    let all = have + up;
    let want = pair_set(pairs, j, key);
    if in_pairs(pairs, j, key, x) && x > last_num(have) {
        assert(want.contains(x));
        assert(all.contains(Fk(x)));
        let c = choose|c: int| 0 <= c < all.len() && all[c] == Fk(x);
        if c < have.len() {
            assert(have[c] == Fk(x));
            if c < have.len() - 1 {
                assert(have[c].0 < have[have.len() - 1].0);
            }
            assert(false);
        }
        assert(up[c - have.len()] == Fk(x));
    }
    if up.contains(Fk(x)) {
        let c = choose|c: int| 0 <= c < up.len() && up[c] == Fk(x);
        assert(all[have.len() + c] == Fk(x));
        assert(want.contains(all[have.len() + c].0));
    }
}

/// The group has no pairs of other keys.
proof fn lemma_group_other(
    pairs: Seq<KeyFk>,
    i: int,
    j: int,
    key: Seq<u8>,
    fks: Seq<Fk>,
    k: Seq<u8>,
    x: u64,
)
    requires
        is_group(pairs, i, j, key, fks),
        k != key,
    ensures
        in_pairs(pairs, j, k, x) <==> in_pairs(pairs, i, k, x),
{
    if in_pairs(pairs, j, k, x) {
        let u = choose|u: int| 0 <= u < j && (#[trigger] pairs[u]).key@ == k && pairs[u].fk == x;
        assert(u < i);
        assert(in_pairs(pairs, i, k, x));
    }
    if in_pairs(pairs, i, k, x) {
        let u = choose|u: int| 0 <= u < i && (#[trigger] pairs[u]).key@ == k && pairs[u].fk == x;
        assert(in_pairs(pairs, j, k, x));
    }
}

/// Keys behind `i` in the order are not among the first `i`.
proof fn lemma_boundary(pairs: Seq<KeyFk>, i: int)
    requires
        sorted_by_rank(pairs),
        0 <= i < pairs.len(),
        i > 0 ==> pairs[i - 1].key@ != pairs[i].key@,
    ensures
        forall|t: int| 0 <= t < i ==> (#[trigger] pairs[t]).key@ != pairs[i].key@,
{
    assert forall|t: int| 0 <= t < i implies (#[trigger] pairs[t]).key@ != pairs[i].key@ by {
        if pairs[t].key@ == pairs[i].key@ {
            lemma_pair_rank(pairs[i - 1], pairs[i]);
            lemma_pair_rank(pairs[i], pairs[i - 1]);
            lemma_pair_rank(pairs[i - 1], pairs[t]);
            assert(pairs[i - 1].rank() <= pairs[i].rank());
            if t < i - 1 {
                assert(pairs[t].rank() <= pairs[i - 1].rank());
            }
            lemma_be_injective(pairs[i - 1].key@, pairs[i].key@);
        }
    }
}

/// Some of the first `n` pairs has key `k`.
pub open spec fn has_key(pairs: Seq<KeyFk>, n: int, k: Seq<u8>) -> bool {
    exists|i: int| 0 <= i < n && (#[trigger] pairs[i]).key@ == k
}

/// Each head value of the map is the table's or the one that the map had.
pub open spec fn heads_partly(b: &ScriptHashTable, h0: &HeadCache, h: &HeadCache) -> bool {
    forall|k: Seq<u8>|
        k.len() == 16 ==> (#[trigger] h.value(k)) == h0.value(k) || h.value(k) == b.value_of(k)
}

/// State of a batch after the first `i` pairs.
pub open spec fn batch_state(
    a: &ScriptHashTable,
    b: &ScriptHashTable,
    pairs: Seq<KeyFk>,
    i: int,
    written: int,
    h0: &HeadCache,
    h: &HeadCache,
) -> bool {
    &&& b.wf()
    &&& forall|k: Seq<u8>|
        k.len() == 16 ==> extends(#[trigger] a.creates(k), b.creates(k), pair_set(pairs, i, k))
    &&& new_pairs(a, pairs, i).finite()
    &&& new_pairs(a, pairs, i).len() == written
    &&& a.live() + written <= u64::MAX ==> b.live() == a.live() + written
    &&& forall|k: Seq<u8>|
        k.len() == 16 ==> (#[trigger] h.value(k)) == (if has_key(pairs, i, k) {
            b.value_of(k)
        } else {
            h0.value(k)
        })
}

/// One group keeps the state of a batch.
proof fn lemma_batch_step(
    a: &ScriptHashTable,
    b: &ScriptHashTable,
    c: &ScriptHashTable,
    pairs: Seq<KeyFk>,
    i: int,
    j: int,
    key: Seq<u8>,
    fks: Seq<Fk>,
    written: int,
    h0: &HeadCache,
    h: &HeadCache,
    h2: &HeadCache,
    v: ShHeadValue,
)
    requires
        a.wf(),
        batch_state(a, b, pairs, i, written, h0, h),
        is_group(pairs, i, j, key, fks),
        key.len() == 16,
        fks_small(fks),
        c.wf(),
        c.creates(key) == b.creates(key) + above(b.creates(key), fks),
        c.value_of(key) == Some(v),
        others_same(b, c, key),
        b.live() + above(b.creates(key), fks).len() <= u64::MAX ==> c.live() == b.live() + above(
            b.creates(key),
            fks,
        ).len(),
        forall|k: Seq<u8>| #[trigger] h2.value(k) == (if k == key {
            Some(v)
        } else {
            h.value(k)
        }),
    ensures
        batch_state(
            a,
            c,
            pairs,
            j,
            written + above(b.creates(key), fks).len(),
            h0,
            h2,
        ),
        b.creates(key) == a.creates(key),
{
    let have = a.creates(key);
    assert(extends(have, b.creates(key), pair_set(pairs, i, key)));
    lemma_extends_small(have, b.creates(key), pair_set(pairs, i, key));
    lemma_group_extends(have, fks, pairs, i, j, key);
    assert(b.creates(key) == have) by {
        let n = b.creates(key);
        if n.len() > have.len() {
            assert(pair_set(pairs, i, key).contains(n[have.len() as int].0));
        }
        assert(n.subrange(0, have.len() as int) =~= n);
    }
    lemma_group_new(a, pairs, i, j, key, fks);
    assert forall|k: Seq<u8>| k.len() == 16 implies extends(
        #[trigger] a.creates(k),
        c.creates(k),
        pair_set(pairs, j, k),
    ) by {
        if k != key {
            assert(c.creates(k) == b.creates(k));
            assert forall|x: u64| in_pairs(pairs, i, k, x) == in_pairs(pairs, j, k, x) by {
                if in_pairs(pairs, j, k, x) {
                    let u = choose|u: int|
                        0 <= u < j && (#[trigger] pairs[u]).key@ == k && pairs[u].fk == x;
                    assert(u < i);
                    assert(in_pairs(pairs, i, k, x));
                }
                if in_pairs(pairs, i, k, x) {
                    let u = choose|u: int|
                        0 <= u < i && (#[trigger] pairs[u]).key@ == k && pairs[u].fk == x;
                    assert(in_pairs(pairs, j, k, x));
                }
            }
            assert(pair_set(pairs, i, k) =~= pair_set(pairs, j, k));
        }
    }
    assert forall|k: Seq<u8>| k.len() == 16 implies (#[trigger] h2.value(k)) == (if has_key(
        pairs,
        j,
        k,
    ) {
        c.value_of(k)
    } else {
        h0.value(k)
    }) by {
        if k == key {
            assert(pairs[i].key@ == key);
            assert(has_key(pairs, j, k));
        } else {
            assert(h.value(k) == h2.value(k));
            assert(c.creates(k) == b.creates(k));
            if has_key(pairs, j, k) {
                let u = choose|u: int| 0 <= u < j && (#[trigger] pairs[u]).key@ == k;
                assert(u < i);
                assert(has_key(pairs, i, k));
            }
            if has_key(pairs, i, k) {
                let u = choose|u: int| 0 <= u < i && (#[trigger] pairs[u]).key@ == k;
                assert(has_key(pairs, j, k));
            }
        }
    }
}

proof fn lemma_extends_small(a: Seq<Fk>, b: Seq<Fk>, want: Set<u64>)
    requires
        extends(a, b, want),
    ensures
        fks_small(a),
{
    assert forall|i: int| 0 <= i < a.len() implies a[i] == b[i] by {
        assert(b.subrange(0, a.len() as int)[i] == b[i]);
    }
    crate::scripthash_values::lemma_small_prefix(b, a);
}

/// Before any pair nothing is new.
proof fn lemma_batch_start(t: &ScriptHashTable, pairs: Seq<KeyFk>, h: &HeadCache)
    requires
        t.wf(),
    ensures
        batch_state(t, t, pairs, 0, 0, h, h),
{
    assert forall|k: Seq<u8>| k.len() == 16 implies extends(
        #[trigger] t.creates(k),
        t.creates(k),
        pair_set(pairs, 0, k),
    ) by {
        let f = t.creates(k);
        lemma_creates_small(t, k);
        assert(f.subrange(0, f.len() as int) =~= f);
    }
    assert(new_pairs(t, pairs, 0) =~= Set::<(Seq<u8>, u64)>::empty());
}

/// The creates of a key are valid.
pub(crate) proof fn lemma_creates_small(t: &ScriptHashTable, k: Seq<u8>)
    requires
        t.wf(),
        k.len() == 16,
    ensures
        fks_small(t.creates(k)),
{
    assert(t.key_sound(k));
    if let Some((w, h)) = t.located(k) {
        lemma_body_index(t, k, h);
        let b = &t.bodies@[body_index(t.layout, t.n_shards as int, k, h)];
        let v = unpack8(w)->Ok_0;
        let (p, f) = lemma_pick(b, v, k);
        lemma_view_holds(b, v, k, p, f);
        crate::scripthash_values::lemma_holds_small(b, v, k, p, f);
    }
}

impl ScriptHashTable {
    /// Writes sorted pairs, key by key.
    #[verifier::rlimit(40)]
    fn put_pairs(&mut self, pairs: &Vec<KeyFk>, heads: &mut HeadCache) -> (r: Result<
        usize,
        StoreError,
    >)
        requires
            old(self).wf(),
            sorted_by_rank(pairs@),
            forall|i: int|
                0 <= i < pairs@.len() ==> 0 < (#[trigger] pairs@[i]).fk < 0x8000_0000_0000_0000,
        ensures
            final(self).wf(),
            match r {
                Ok(n) => batch_state(
                    old(self),
                    final(self),
                    pairs@,
                    pairs@.len() as int,
                    n as int,
                    old(heads),
                    final(heads),
                ) && grew(old(self), final(self), pairs@.len() as int),
                Err(e) => {
                    &&& limit_error(e)
                    &&& final(self).at_limit(pairs@.len() as int)
                    &&& !old(self).room_for(pairs@.len() as int)
                    &&& forall|k: Seq<u8>|
                        k.len() == 16 ==> #[trigger] final(self).creates(k) == old(self).creates(k)
                            || extends(
                            old(self).creates(k),
                            final(self).creates(k),
                            pair_set(pairs@, pairs@.len() as int, k),
                        )
                    &&& heads_partly(final(self), old(heads), final(heads))
                },
            },
            counts_exact(old(self)) && old(self).live() + pairs@.len() <= u64::MAX ==> counts_exact(
                final(self),
            ),
            put_forms(old(self), final(self)),
            same_marks(old(self), final(self)),
    {
        let ghost s0 = *self;
        let ghost h0 = *heads;
        let mut written: usize = 0;
        let mut i: usize = 0;
        proof {
            lemma_forms_same(self, self);
            lemma_batch_start(self, pairs@, heads);
        }
        while i < pairs.len()
            invariant
                i <= pairs@.len(),
                written <= i,
                s0.wf(),
                s0 == *old(self),
                h0 == *old(heads),
                sorted_by_rank(pairs@),
                forall|t: int|
                    0 <= t < pairs@.len() ==> 0 < (#[trigger] pairs@[t]).fk
                        < 0x8000_0000_0000_0000,
                0 < i < pairs@.len() ==> pairs@[i - 1].key@ != pairs@[i as int].key@,
                batch_state(&s0, self, pairs@, i as int, written as int, &h0, heads),
                grew(&s0, self, i as int),
                counts_exact(&s0) && s0.live() + pairs@.len() <= u64::MAX ==> counts_exact(self),
                put_forms(&s0, self),
                same_marks(&s0, self),
            decreases pairs@.len() - i,
        {
            let key: ShHeadKey = pairs[i].key;
            let (fks, j) = group_fks(pairs, i);
            let ghost s1 = *self;
            let ghost h1 = *heads;
            proof {
                lemma_boundary(pairs@, i as int);
                lemma_above_len(self.creates(key@), fks@);
            }
            match self.put_key(&key, &fks) {
                Err(e) => {
                    proof {
                        lemma_limit_mono(self, fks@.len() as int, pairs@.len() as int);
                        lemma_room_left(
                            &s0,
                            self,
                            i as int,
                            fks@.len() as int,
                            pairs@.len() as int,
                        );
                        assert forall|k: Seq<u8>| k.len() == 16 implies #[trigger] self.creates(k)
                            == s0.creates(k) || extends(
                            s0.creates(k),
                            self.creates(k),
                            pair_set(pairs@, pairs@.len() as int, k),
                        ) by {
                            assert(extends(
                                s0.creates(k),
                                self.creates(k),
                                pair_set(pairs@, i as int, k),
                            ));
                            lemma_part_extends(
                                s0.creates(k),
                                self.creates(k),
                                pairs@,
                                i as int,
                                k,
                            );
                        }
                    }
                    return Err(e);
                },
                Ok((n, v)) => {
                    heads.put(&key, v);
                    proof {
                        lemma_batch_step(
                            &s0,
                            &s1,
                            self,
                            pairs@,
                            i as int,
                            j as int,
                            key@,
                            fks@,
                            written as int,
                            &h0,
                            &h1,
                            heads,
                            v,
                        );
                        lemma_forms_step(&s0, &s1, self, key@);
                    }
                    written += n;
                    proof {
                        lemma_grew_trans(&s0, &s1, self, i as int, fks@.len() as int);
                        lemma_grew_more(&s0, self, i + fks@.len(), j as int);
                    }
                },
            }
            i = j;
        }
        Ok(written)
    }
}

proof fn lemma_above_len(have: Seq<Fk>, add: Seq<Fk>)
    ensures
        above(have, add).len() <= add.len(),
    decreases add.len(),
{
    if add.len() > 0 {
        lemma_above_len(have, add.drop_last());
    }
}

/// At the border of two groups a key has all its creates of the batch or none.
proof fn lemma_part_extends(
    have: Seq<Fk>,
    now: Seq<Fk>,
    pairs: Seq<KeyFk>,
    i: int,
    k: Seq<u8>,
)
    requires
        sorted_by_rank(pairs),
        0 <= i < pairs.len(),
        i > 0 ==> pairs[i - 1].key@ != pairs[i].key@,
        extends(have, now, pair_set(pairs, i, k)),
    ensures
        now == have || extends(have, now, pair_set(pairs, pairs.len() as int, k)),
{
    let part = pair_set(pairs, i, k);
    let all = pair_set(pairs, pairs.len() as int, k);
    if exists|t: int| 0 <= t < i && (#[trigger] pairs[t]).key@ == k {
        let t = choose|t: int| 0 <= t < i && (#[trigger] pairs[t]).key@ == k;
        assert forall|u: int| i <= u < pairs.len() implies (#[trigger] pairs[u]).key@ != k by {
            if pairs[u].key@ == k {
                lemma_pair_rank(pairs[i - 1], pairs[i]);
                lemma_pair_rank(pairs[i], pairs[i - 1]);
                lemma_pair_rank(pairs[i - 1], pairs[t]);
                lemma_pair_rank(pairs[u], pairs[i]);
                assert(pairs[i - 1].rank() <= pairs[i].rank());
                if t < i - 1 {
                    assert(pairs[t].rank() <= pairs[i - 1].rank());
                }
                if i < u {
                    assert(pairs[i].rank() <= pairs[u].rank());
                }
                lemma_pair_rank(pairs[t], pairs[i - 1]);
                lemma_pair_rank(pairs[i], pairs[u]);
                lemma_be_injective(pairs[i - 1].key@, pairs[i].key@);
            }
        }
        assert(part =~= all) by {
            assert forall|x: u64| part.contains(x) == all.contains(x) by {
                if in_pairs(pairs, pairs.len() as int, k, x) {
                    let u = choose|u: int|
                        0 <= u < pairs.len() && (#[trigger] pairs[u]).key@ == k && pairs[u].fk == x;
                    assert(u < i);
                }
                if in_pairs(pairs, i, k, x) {
                    let u = choose|u: int|
                        0 <= u < i && (#[trigger] pairs[u]).key@ == k && pairs[u].fk == x;
                    assert(pairs[u].key@ == k);
                }
            }
        }
    } else {
        if now.len() > have.len() {
            assert(part.contains(now[have.len() as int].0));
        }
        assert(now =~= now.subrange(0, have.len() as int));
    }
}

proof fn lemma_limit_mono(t: &ScriptHashTable, m: int, n: int)
    requires
        t.at_limit(m),
        m <= n,
    ensures
        t.at_limit(n),
{
    if t.ingest.can_take(1) {
        let i = choose|i: int|
            0 <= i < t.bodies@.len() && !(#[trigger] t.bodies@[i]).has_space(8192 * (m + 2053));
        assert(!t.bodies@[i].has_space(8192 * (n + 2053)));
    }
}

proof fn lemma_room_mono(t: &ScriptHashTable, m: int, n: int)
    requires
        !t.room_for(m),
        0 <= m <= n,
    ensures
        !t.room_for(n),
{
    if t.room_for(n) {
        assert forall|i: int| 0 <= i < t.bodies@.len() implies (
        #[trigger] t.bodies@[i]).has_space(16_818_176 * (m + 1)) by {
            assert(t.bodies@[i].has_space(16_818_176 * (n + 1)));
        }
    }
}

/// Some keys of the batch have their creates, and the others are as they were.
pub open spec fn batch_partly(
    a: &ScriptHashTable,
    b: &ScriptHashTable,
    recs: Seq<ScriptHashRecord>,
) -> bool {
    forall|k: Seq<u8>|
        k.len() == 16 ==> #[trigger] b.creates(k) == a.creates(k) || extends(
            a.creates(k),
            b.creates(k),
            asked_set(recs, k),
        )
}

/// Some record names a transaction whose key is too large for a head value.
pub open spec fn fk_too_large(recs: Seq<ScriptHashRecord>) -> bool {
    exists|i: int|
        0 <= i < recs.len() && (#[trigger] recs[i]).create_tx_fk.0 >= 0x8000_0000_0000_0000
}

/// Keys and creates that a batch adds to what is there.
pub open spec fn batch_new(t: &ScriptHashTable, recs: Seq<ScriptHashRecord>) -> Set<
    (Seq<u8>, u64),
> {
    Set::new(|p: (Seq<u8>, u64)| asked(recs, p.0, p.1) && p.1 > last_num(t.creates(p.0)))
}

/// The create was appended to its key, unless the key has one that is not below it; all
/// other keys stay.
pub open spec fn put_done(a: &ScriptHashTable, b: &ScriptHashTable, rec: ScriptHashRecord) -> bool {
    forall|k: Seq<u8>|
        k.len() == 16 ==> #[trigger] b.creates(k) == (if k == key16(rec.scripthash@)
            && rec.create_tx_fk.0 > last_num(a.creates(k)) {
            a.creates(k).push(rec.create_tx_fk)
        } else {
            a.creates(k)
        })
}

/// The create was taken from its key; all other keys stay.
pub open spec fn unlink_done(a: &ScriptHashTable, b: &ScriptHashTable, k: Seq<u8>, fk: Fk) -> bool {
    &&& exists|i: int|
        0 <= i < a.creates(k).len() && #[trigger] a.creates(k)[i] == fk && b.creates(k) == without(
            a.creates(k),
            i,
        )
    &&& others_same(a, b, k)
}

/// The batch names key `k`.
pub open spec fn batch_has_key(recs: Seq<ScriptHashRecord>, k: Seq<u8>) -> bool {
    exists|x: u64| asked(recs, k, x)
}

impl ScriptHashTable {
    /// Appends creates in bulk.
    ///
    /// Of each key the asked creates are put in order; those that are not above
    /// its last create are skipped, the others are appended. Gives the number of
    /// creates written. The caller's cache holds the head value of every key of
    /// the batch afterwards. Where a limit stops the write some keys may have
    /// been written.
    #[verifier::rlimit(40)]
    pub fn put_create_batch_append(
        &mut self,
        recs: &[ScriptHashRecord],
        heads: &mut HeadCache,
    ) -> (r: Result<usize, StoreError>)
        requires
            old(self).wf(),
        ensures
            final(self).wf(),
            fk_too_large(recs@) ==> r == Err::<usize, StoreError>(
                StoreError::Corrupt("scripthash: create_fk must be below 2^63"),
            ) && *final(self) == *old(self) && *final(heads) == *old(heads),
            !fk_too_large(recs@) ==> match r {
                Ok(n) => {
                    &&& forall|k: Seq<u8>|
                        k.len() == 16 ==> extends(
                            #[trigger] old(self).creates(k),
                            final(self).creates(k),
                            asked_set(recs@, k),
                        )
                    &&& batch_new(old(self), recs@).finite()
                    &&& n == batch_new(old(self), recs@).len()
                    &&& old(self).live() + n <= u64::MAX ==> final(self).live() == old(self).live()
                        + n
                    &&& forall|k: Seq<u8>|
                        k.len() == 16 ==> (#[trigger] final(heads).value(k)) == (
                        if batch_has_key(recs@, k) {
                            final(self).value_of(k)
                        } else {
                            old(heads).value(k)
                        })
                    &&& grew_sealed(old(self), final(self), recs@.len() as int)
                },
                Err(e) => limit_error(e) && !old(self).room_for(recs@.len() as int)
                    && batch_partly(old(self), final(self), recs@) && heads_partly(
                    final(self),
                    old(heads),
                    final(heads),
                ),
            },
            counts_exact(old(self)) && old(self).live() + recs@.len() <= u64::MAX ==> counts_exact(
                final(self),
            ),
            put_forms(old(self), final(self)),
            same_marks(old(self), final(self)),
    {
        let mut i: usize = 0;
        proof {
            lemma_forms_same(self, self);
        }
        while i < recs.len()
            invariant
                i <= recs@.len(),
                forall|j: int|
                    0 <= j < i ==> (#[trigger] recs@[j]).create_tx_fk.0 < 0x8000_0000_0000_0000,
                put_forms(old(self), old(self)),
                *self == *old(self),
                *heads == *old(heads),
                self.wf(),
            decreases recs@.len() - i,
        {
            if recs[i].create_tx_fk.0 >= 0x8000_0000_0000_0000 {
                return Err(StoreError::Corrupt("scripthash: create_fk must be below 2^63"));
            }
            i += 1;
        }
        let raw = batch_pairs(recs);
        let pairs = sort_ranked(&raw);
        proof {
            assert forall|t: int| 0 <= t < pairs@.len() implies 0 < (#[trigger] pairs@[t]).fk
                < 0x8000_0000_0000_0000 by {
                let k = pairs@[t].key@;
                let x = pairs@[t].fk;
                assert(in_pairs(pairs@, pairs@.len() as int, k, x));
                lemma_pairs_same(pairs@, raw@, k, x);
                assert(asked(recs@, k, x));
            }
        }
        let ghost s0 = *self;
        let ghost h0 = *heads;
        match self.put_pairs(&pairs, heads) {
            Err(e) => {
                proof {
                    lemma_room_mono(&s0, pairs@.len() as int, recs@.len() as int);
                    assert forall|k: Seq<u8>| k.len() == 16 implies #[trigger] self.creates(k)
                        == s0.creates(k) || extends(
                        s0.creates(k),
                        self.creates(k),
                        asked_set(recs@, k),
                    ) by {
                        assert(pair_set(pairs@, pairs@.len() as int, k) =~= asked_set(recs@, k)) by {
                            assert forall|x: u64| #[trigger] pair_set(
                                pairs@,
                                pairs@.len() as int,
                                k,
                            ).contains(x) == asked_set(recs@, k).contains(x) by {
                                lemma_pairs_same(pairs@, raw@, k, x);
                            }
                        }
                    }
                }
                Err(e)
            },
            Ok(n) => {
                let ghost s1 = *self;
                self.maybe_seal_ingest();
                proof {
                    assert forall|k: Seq<u8>| k.len() == 16 implies #[trigger] put_form(
                        &s0,
                        self,
                        k,
                    ) by {
                        reveal(put_form);
                        assert(put_form(&s0, &s1, k));
                        assert(self.creates(k) == s1.creates(k));
                    }
                    lemma_grew_more(&s0, &s1, pairs@.len() as int, recs@.len() as int);
                    assert(grew_sealed(&s0, self, recs@.len() as int)) by {
                        assert forall|i: int| 0 <= i < s0.bodies@.len() implies used_at_most(
                            &s0.bodies@[i],
                            &#[trigger] self.bodies@[i],
                            16_809_984 * recs@.len() as int,
                        ) by {
                            assert(self.bodies@[i] == s1.bodies@[i]);
                        }
                    }
                    lemma_batch_done(&s0, &s1, self, recs@, pairs@, n as int, &h0, heads, raw@);
                }
                Ok(n)
            },
        }
    }

    /// Appends creates in bulk; gives the number of creates written.
    pub fn put_create_batch(&mut self, recs: &[ScriptHashRecord]) -> (r: Result<
        usize,
        StoreError,
    >)
        requires
            old(self).wf(),
        ensures
            final(self).wf(),
            fk_too_large(recs@) ==> r == Err::<usize, StoreError>(
                StoreError::Corrupt("scripthash: create_fk must be below 2^63"),
            ) && *final(self) == *old(self),
            !fk_too_large(recs@) ==> match r {
                Ok(n) => {
                    &&& forall|k: Seq<u8>|
                        k.len() == 16 ==> extends(
                            #[trigger] old(self).creates(k),
                            final(self).creates(k),
                            asked_set(recs@, k),
                        )
                    &&& batch_new(old(self), recs@).finite()
                    &&& n == batch_new(old(self), recs@).len()
                    &&& old(self).live() + n <= u64::MAX ==> final(self).live() == old(self).live()
                        + n
                    &&& grew_sealed(old(self), final(self), recs@.len() as int)
                },
                Err(e) => limit_error(e) && !old(self).room_for(recs@.len() as int)
                    && batch_partly(old(self), final(self), recs@),
            },
            counts_exact(old(self)) && old(self).live() + recs@.len() <= u64::MAX ==> counts_exact(
                final(self),
            ),
            put_forms(old(self), final(self)),
            same_marks(old(self), final(self)),
    {
        let mut heads = HeadCache::new();
        self.put_create_batch_append(recs, &mut heads)
    }

    /// Appends one create; one that is not above the last is skipped.
    #[verifier::rlimit(40)]
    pub fn put_create(&mut self, rec: &ScriptHashRecord) -> (r: Result<(), StoreError>)
        requires
            old(self).wf(),
        ensures
            final(self).wf(),
            rec.create_tx_fk.0 == 0 ==> r == Err::<(), StoreError>(StoreError::InvalidFk)
                && *final(self) == *old(self),
            rec.create_tx_fk.0 >= 0x8000_0000_0000_0000 ==> r == Err::<(), StoreError>(
                StoreError::Corrupt("scripthash: create_fk must be below 2^63"),
            ) && *final(self) == *old(self),
            0 < rec.create_tx_fk.0 < 0x8000_0000_0000_0000 ==> match r {
                Ok(_) => {
                    &&& put_done(old(self), final(self), *rec)
                    &&& old(self).live() < u64::MAX ==> final(self).live() == old(self).live() + (
                    if rec.create_tx_fk.0 > last_num(old(self).creates(key16(rec.scripthash@))) {
                        1int
                    } else {
                        0int
                    })
                    &&& grew_sealed(old(self), final(self), 1)
                },
                Err(e) => limit_error(e) && !old(self).room_for(1) && batch_partly(
                    old(self),
                    final(self),
                    seq![*rec],
                ),
            },
            counts_exact(old(self)) && old(self).live() < u64::MAX ==> counts_exact(final(self)),
            put_forms(old(self), final(self)),
            same_marks(old(self), final(self)),
    {
        proof {
            lemma_forms_same(self, self);
        }
        if rec.create_tx_fk.is_null() {
            return Err(StoreError::InvalidFk);
        }
        let one: [ScriptHashRecord; 1] = [*rec];
        proof {
            assert(one@ =~= seq![*rec]);
            assert(one@[0] == *rec);
        }
        match self.put_create_batch(one.as_slice()) {
            Err(e) => Err(e),
            Ok(_) => {
                proof {
                    assert forall|k: Seq<u8>| k.len() == 16 implies #[trigger] self.creates(k) == (
                    if k == key16(rec.scripthash@) && rec.create_tx_fk.0 > last_num(
                        old(self).creates(k),
                    ) {
                        old(self).creates(k).push(rec.create_tx_fk)
                    } else {
                        old(self).creates(k)
                    }) by {
                        lemma_creates_small(old(self), k);
                        assert(extends(
                            old(self).creates(k),
                            self.creates(k),
                            asked_set(one@, k),
                        ));
                        lemma_one_extends(old(self).creates(k), one@, *rec, k);
                        law_extends_unique(
                            old(self).creates(k),
                            self.creates(k),
                            if k == key16(rec.scripthash@) && rec.create_tx_fk.0 > last_num(
                                old(self).creates(k),
                            ) {
                                old(self).creates(k).push(rec.create_tx_fk)
                            } else {
                                old(self).creates(k)
                            },
                            asked_set(one@, k),
                        );
                    }
                    lemma_one_new(old(self), one@, *rec);
                }
                Ok(())
            },
        }
    }
}

/// How many creates one record adds.
proof fn lemma_one_new(t: &ScriptHashTable, one: Seq<ScriptHashRecord>, rec: ScriptHashRecord)
    requires
        one.len() == 1,
        one[0] == rec,
        rec.create_tx_fk.0 > 0,
    ensures
        batch_new(t, one).len() == (if rec.create_tx_fk.0 > last_num(
            t.creates(key16(rec.scripthash@)),
        ) {
            1nat
        } else {
            0nat
        }),
{
    let k = key16(rec.scripthash@);
    let p = (k, rec.create_tx_fk.0);
    let s = batch_new(t, one);
    assert forall|q: (Seq<u8>, u64)| s.contains(q) <==> q == p && p.1 > last_num(
        t.creates(k),
    ) by {
        if q == p {
            assert(key16(one[0].scripthash@) == q.0);
            assert(asked(one, q.0, q.1));
        }
    }
    if p.1 > last_num(t.creates(k)) {
        assert(s =~= Set::empty().insert(p));
    } else {
        assert(s =~= Set::empty());
    }
}

proof fn lemma_one_extends(
    have: Seq<Fk>,
    one: Seq<ScriptHashRecord>,
    rec: ScriptHashRecord,
    k: Seq<u8>,
)
    requires
        fks_small(have),
        one.len() == 1,
        one[0] == rec,
        0 < rec.create_tx_fk.0 < 0x8000_0000_0000_0000,
    ensures
        extends(
            have,
            if k == key16(rec.scripthash@) && rec.create_tx_fk.0 > last_num(have) {
                have.push(rec.create_tx_fk)
            } else {
                have
            },
            asked_set(one, k),
        ),
{
    let fk = rec.create_tx_fk;
    let want = asked_set(one, k);
    assert forall|x: u64| want.contains(x) <==> (k == key16(rec.scripthash@) && x == fk.0) by {
        if k == key16(rec.scripthash@) && x == fk.0 {
            assert(key16(one[0].scripthash@) == k);
            assert(asked(one, k, x));
        }
    }
    assert(have.subrange(0, have.len() as int) =~= have);
    if k == key16(rec.scripthash@) && fk.0 > last_num(have) {
        let t = have.push(fk);
        assert(t.subrange(0, have.len() as int) =~= have);
        assert forall|i: int, j: int| 0 <= i < j < t.len() implies (#[trigger] t[i]).0 < (
        #[trigger] t[j]).0 by {
            if j == have.len() && i < have.len() - 1 {
                assert(have[i].0 < have[have.len() - 1].0);
            }
        }
        assert(t[have.len() as int] == fk);
        assert(t.contains(Fk(fk.0)));
    }
}

proof fn lemma_batch_done(
    a: &ScriptHashTable,
    b: &ScriptHashTable,
    c: &ScriptHashTable,
    recs: Seq<ScriptHashRecord>,
    pairs: Seq<KeyFk>,
    n: int,
    h0: &HeadCache,
    h: &HeadCache,
    raw: Seq<KeyFk>,
)
    requires
        batch_state(a, b, pairs, pairs.len() as int, n, h0, h),
        same_answers(b, c),
        c.live() == b.live(),
        pairs.to_multiset() == raw.to_multiset(),
        forall|k: Seq<u8>, x: u64|
            #[trigger] in_pairs(raw, raw.len() as int, k, x) <==> asked(recs, k, x),
    ensures
        forall|k: Seq<u8>|
            k.len() == 16 ==> extends(
                #[trigger] a.creates(k),
                c.creates(k),
                asked_set(recs, k),
            ),
        batch_new(a, recs).finite(),
        n == batch_new(a, recs).len(),
        a.live() + n <= u64::MAX ==> c.live() == a.live() + n,
        forall|k: Seq<u8>|
            k.len() == 16 ==> (#[trigger] h.value(k)) == (if batch_has_key(recs, k) {
                c.value_of(k)
            } else {
                h0.value(k)
            }),
{
    let m = pairs.len() as int;
    assert forall|k: Seq<u8>, x: u64| #[trigger] in_pairs(pairs, m, k, x) == asked(recs, k, x) by {
        lemma_pairs_same(pairs, raw, k, x);
        assert(in_pairs(raw, raw.len() as int, k, x) <==> asked(recs, k, x));
    }
    assert forall|k: Seq<u8>| k.len() == 16 implies extends(
        #[trigger] a.creates(k),
        c.creates(k),
        asked_set(recs, k),
    ) by {
        assert(c.creates(k) == b.creates(k));
        assert(pair_set(pairs, m, k) =~= asked_set(recs, k)) by {
            assert forall|x: u64| pair_set(pairs, m, k).contains(x) == asked_set(
                recs,
                k,
            ).contains(x) by {
                assert(in_pairs(pairs, m, k, x) == asked(recs, k, x));
            }
        }
    }
    assert(new_pairs(a, pairs, m) =~= batch_new(a, recs)) by {
        assert forall|p: (Seq<u8>, u64)| new_pairs(a, pairs, m).contains(p) == batch_new(
            a,
            recs,
        ).contains(p) by {
            assert(in_pairs(pairs, m, p.0, p.1) == asked(recs, p.0, p.1));
        }
    }
    assert forall|k: Seq<u8>| k.len() == 16 implies (#[trigger] h.value(k)) == (if batch_has_key(
        recs,
        k,
    ) {
        c.value_of(k)
    } else {
        h0.value(k)
    }) by {
        assert(c.creates(k) == b.creates(k));
        assert(c.value_of(k) == b.value_of(k));
        if has_key(pairs, m, k) {
            let i = choose|i: int| 0 <= i < m && (#[trigger] pairs[i]).key@ == k;
            assert(in_pairs(pairs, m, k, pairs[i].fk));
            assert(asked(recs, k, pairs[i].fk));
        }
        if batch_has_key(recs, k) {
            let x = choose|x: u64| asked(recs, k, x);
            assert(in_pairs(pairs, m, k, x));
            let i = choose|i: int|
                0 <= i < m && (#[trigger] pairs[i]).key@ == k && pairs[i].fk == x;
            assert(has_key(pairs, m, k));
        }
    }
}

/// `fks` without its `i`-th key.
pub open spec fn without(fks: Seq<Fk>, i: int) -> Seq<Fk> {
    fks.subrange(0, i) + fks.subrange(i + 1, fks.len() as int)
}

proof fn lemma_without_small(fks: Seq<Fk>, i: int)
    requires
        fks_small(fks),
        0 <= i < fks.len(),
    ensures
        fks_small(without(fks, i)),
        without(fks, i).len() == fks.len() - 1,
{
    let w = without(fks, i);
    assert forall|a: int| 0 <= a < w.len() implies #[trigger] w[a] == (if a < i {
        fks[a]
    } else {
        fks[a + 1]
    }) by {}
    assert forall|a: int| 0 <= a < w.len() implies !crate::scripthash_pages::flagged(
        (#[trigger] w[a]).0,
    ) && w[a].0 < 0x8000_0000_0000_0000 by {
        let f = if a < i {
            fks[a]
        } else {
            fks[a + 1]
        };
        assert(w[a] == f);
    }
    assert forall|a: int, b: int| 0 <= a < b < w.len() implies (#[trigger] w[a]).0 < (
    #[trigger] w[b]).0 by {
        let x = if a < i {
            a
        } else {
            a + 1
        };
        let y = if b < i {
            b
        } else {
            b + 1
        };
        assert(w[a] == fks[x] && w[b] == fks[y]);
        assert(fks[x].0 < fks[y].0);
    }
    if w.len() > 0 && i == 0 {
        assert(fks[0].0 < fks[1].0);
    }
}

/// Whether a create is among those of a key, from its last create and all of them.
pub open spec fn contains_answer(
    last: Result<Option<Fk>, StoreError>,
    all: Result<Seq<Fk>, StoreError>,
    fk: Fk,
) -> Result<bool, StoreError> {
    if fk.0 == 0 {
        Ok(false)
    } else {
        match last {
            Err(e) => Err(e),
            Ok(None) => Ok(false),
            Ok(Some(max)) => if fk.0 > max.0 {
                Ok(false)
            } else if fk.0 == max.0 {
                Ok(true)
            } else {
                match all {
                    Err(e) => Err(e),
                    Ok(fks) => Ok(fks.contains(fk)),
                }
            },
        }
    }
}

/// The list holds the create.
fn list_has(list: &Vec<Fk>, fk: Fk) -> (r: bool)
    ensures
        r == list@.contains(fk),
{
    let mut i: usize = 0;
    while i < list.len()
        invariant
            i <= list@.len(),
            forall|j: int| 0 <= j < i ==> (#[trigger] list@[j]) != fk,
        decreases list@.len() - i,
    {
        if list[i].0 == fk.0 {
            assert(list@[i as int] == fk);
            return true;
        }
        i += 1;
    }
    false
}

/// What reading a key of a sound table gives.
pub(crate) proof fn lemma_sound_read(t: &ScriptHashTable, k: Seq<u8>)
    requires
        t.wf(),
        k.len() == 16,
    ensures
        t.read_of(k) == (if t.too_long(k) {
            Err::<Seq<Fk>, StoreError>(StoreError::Corrupt("scripthash extent span overflow"))
        } else {
            Ok(t.creates(k))
        }),
        t.last_of(k) == Ok::<Option<Fk>, StoreError>(
            if t.creates(k).len() == 0 {
                None
            } else {
                Some(t.creates(k).last())
            },
        ),
{
    assert(t.key_sound(k));
    if let Some((w, h)) = t.located(k) {
        let b = t.body_at(k, h);
        let v = unpack8(w)->Ok_0;
        lemma_body_index(t, k, h);
        let (pages, have) = lemma_pick(&b, v, k);
        lemma_view_holds(&b, v, k, pages, have);
        lemma_holds_read(&b, v, k, pages, have);
        crate::scripthash_values::lemma_holds_last(&b, v, k, pages, have);
    }
}

/// What asking a sound table for a create gives.
proof fn lemma_sound_contains(t: &ScriptHashTable, k: Seq<u8>, fk: Fk)
    requires
        t.wf(),
        k.len() == 16,
    ensures
        match contains_answer(t.last_of(k), t.read_of(k), fk) {
            Ok(b) => b == t.creates(k).contains(fk),
            Err(e) => t.too_long(k) && 0 < fk.0 < last_num(t.creates(k)) && e
                == StoreError::Corrupt("scripthash extent span overflow"),
        },
        t.too_long(k) && 0 < fk.0 < last_num(t.creates(k)) ==> contains_answer(
            t.last_of(k),
            t.read_of(k),
            fk,
        ) is Err,
{
    lemma_sound_read(t, k);
    lemma_creates_small(t, k);
    lemma_list_contains(t.creates(k), t.too_long(k), fk);
}

/// Asking a list of rising creates.
proof fn lemma_list_contains(fks: Seq<Fk>, long: bool, fk: Fk)
    requires
        fks_small(fks),
    ensures
        ({
            let last = Ok::<Option<Fk>, StoreError>(
                if fks.len() == 0 {
                    None
                } else {
                    Some(fks.last())
                },
            );
            let all = if long {
                Err::<Seq<Fk>, StoreError>(StoreError::Corrupt("scripthash extent span overflow"))
            } else {
                Ok(fks)
            };
            &&& match contains_answer(last, all, fk) {
                Ok(b) => b == fks.contains(fk),
                Err(e) => long && 0 < fk.0 < last_num(fks) && e == StoreError::Corrupt(
                    "scripthash extent span overflow",
                ),
            }
            &&& long && 0 < fk.0 < last_num(fks) ==> contains_answer(last, all, fk) is Err
        }),
{
    if fks.contains(fk) {
        let i = choose|i: int| 0 <= i < fks.len() && fks[i] == fk;
        crate::scripthash_values::lemma_fks_len(fks, i);
        if i < fks.len() - 1 {
            assert(fks[i].0 < fks[fks.len() - 1].0);
        }
    }
    if fks.len() > 0 {
        assert(fks[fks.len() - 1] == fks.last());
    }
}

impl ScriptHashTable {
    /// The chain of a key is too long to be read at once.
    pub open spec fn too_long(&self, k: Seq<u8>) -> bool {
        self.located(k) matches Some((w, h)) && span_too_long(
            self.body_at(k, h).bytes@,
            unpack8(w)->Ok_0,
        )
    }

    /// The create counter that a key's creates are part of.
    pub open spec fn counter_of(&self, k: Seq<u8>) -> u64 {
        match self.located(k) {
            Some((_, h)) => self.body_at(k, h).live_count,
            None => 0,
        }
    }

    /// Creates of a key.
    fn read_creates(&self, key: &ShHeadKey) -> (r: Result<Vec<Fk>, StoreError>)
        requires
            self.wf(),
        ensures
            match r {
                Ok(v) => !self.too_long(key@) && v@ == self.creates(key@),
                Err(e) => self.too_long(key@) && e == StoreError::Corrupt(
                    "scripthash extent span overflow",
                ),
            },
    {
        let (val, home, bi, Ghost(pages), Ghost(have)) = self.resolve(key);
        proof {
            lemma_holds_read(&self.bodies@[bi as int], val, key@, pages, have);
            if home == KeyHome::Absent {
                assert(!span_too_long(self.bodies@[bi as int].bytes@, val));
            }
        }
        self.bodies[bi].collect_entries_from(&val)
    }

    /// Creates of a key, from a table whose bodies may be damaged.
    fn read_any(&self, key: &ShHeadKey) -> (r: Result<Vec<Fk>, StoreError>)
        requires
            self.readable(),
        ensures
            same_fks(r, self.read_of(key@)),
    {
        match self.locate_head(key) {
            Err(e) => Err(e),
            Ok(None) => {
                let none: Vec<Fk> = Vec::new();
                assert(none@ =~= Seq::<Fk>::empty());
                Ok(none)
            },
            Ok(Some((val, home))) => {
                let bi: usize = self.body_for(key, home);
                self.bodies[bi].collect_entries_from(&val)
            },
        }
    }

    /// Last create of a key, from a table whose bodies may be damaged.
    fn last_any(&self, key: &ShHeadKey) -> (r: Result<Option<Fk>, StoreError>)
        requires
            self.readable(),
        ensures
            r == self.last_of(key@),
    {
        match self.locate_head(key) {
            Err(e) => Err(e),
            Ok(None) => Ok(None),
            Ok(Some((val, home))) => {
                let bi: usize = self.body_for(key, home);
                self.bodies[bi].last_create_fk_on(&val)
            },
        }
    }

    /// Creates of a scripthash, oldest first, each with its record. Damaged bodies give
    /// the error of the read.
    pub fn entries(&self, scripthash: &[u8; 32]) -> (r: Result<
        Vec<(Fk, ScriptHashRecord)>,
        StoreError,
    >)
        requires
            self.readable(),
        ensures
            match (r, self.read_of(key16(scripthash@))) {
                (Ok(v), Ok(fks)) => {
                    &&& v@.len() == fks.len()
                    &&& forall|i: int|
                        0 <= i < fks.len() ==> #[trigger] v@[i] == (
                            fks[i],
                            ScriptHashRecord { scripthash: *scripthash, create_tx_fk: fks[i] },
                        )
                },
                (Err(e), Err(f)) => e == f,
                _ => false,
            },
            self.wf() ==> self.read_of(key16(scripthash@)) == (if self.too_long(
                key16(scripthash@),
            ) {
                Err::<Seq<Fk>, StoreError>(StoreError::Corrupt("scripthash extent span overflow"))
            } else {
                Ok(self.creates(key16(scripthash@)))
            }),
    {
        let key = head_key_from_full(scripthash);
        proof {
            if self.wf() {
                lemma_sound_read(self, key@);
            }
        }
        let list = match self.read_any(&key) {
            Ok(v) => v,
            Err(e) => return Err(e),
        };
        let mut out: Vec<(Fk, ScriptHashRecord)> = Vec::new();
        let mut i: usize = 0;
        while i < list.len()
            invariant
                i <= list@.len(),
                out@.len() == i,
                forall|j: int|
                    0 <= j < i ==> #[trigger] out@[j] == (
                        list@[j],
                        ScriptHashRecord { scripthash: *scripthash, create_tx_fk: list@[j] },
                    ),
            decreases list@.len() - i,
        {
            let e = ShEntry::new(list[i]);
            out.push((list[i], ScriptHashRecord::from_entry(*scripthash, e)));
            i += 1;
        }
        Ok(out)
    }

    /// Whether a scripthash has a create. Earlier pages of a chain are read only
    /// for a key below the last one.
    pub fn contains_create(&self, scripthash: &[u8; 32], create_tx_fk: Fk) -> (r: Result<
        bool,
        StoreError,
    >)
        requires
            self.readable(),
        ensures
            r == contains_answer(
                self.last_of(key16(scripthash@)),
                self.read_of(key16(scripthash@)),
                create_tx_fk,
            ),
            self.wf() ==> match r {
                Ok(b) => b == self.creates(key16(scripthash@)).contains(create_tx_fk),
                Err(e) => self.too_long(key16(scripthash@)) && 0 < create_tx_fk.0 < last_num(
                    self.creates(key16(scripthash@)),
                ) && e == StoreError::Corrupt("scripthash extent span overflow"),
            },
            self.wf() && self.too_long(key16(scripthash@)) && 0 < create_tx_fk.0 < last_num(
                self.creates(key16(scripthash@)),
            ) ==> r is Err,
    {
        let key = head_key_from_full(scripthash);
        proof {
            if self.wf() {
                lemma_sound_read(self, key@);
                lemma_sound_contains(self, key@, create_tx_fk);
            }
        }
        if create_tx_fk.is_null() {
            return Ok(false);
        }
        match self.last_any(&key) {
            Err(e) => return Err(e),
            Ok(None) => return Ok(false),
            Ok(Some(max)) => {
                if create_tx_fk.0 > max.0 {
                    return Ok(false);
                }
                if create_tx_fk.0 == max.0 {
                    return Ok(true);
                }
            },
        }
        let list = match self.read_any(&key) {
            Ok(v) => v,
            Err(e) => return Err(e),
        };
        Ok(list_has(&list, create_tx_fk))
    }

    /// Removes one create (a disconnected block). True if it was there.
    ///
    /// The other creates keep their order. A key whose last create goes stays
    /// known to a sealed head without creates; in the ingest head it is cleared.
    #[verifier::rlimit(40)]
    pub fn unlink_create(&mut self, scripthash: &[u8; 32], create_tx_fk: Fk, _vout: u32) -> (r:
        Result<bool, StoreError>)
        requires
            old(self).wf(),
        ensures
            final(self).wf(),
            ({
                let k = key16(scripthash@);
                let have = old(self).creates(k);
                if old(self).too_long(k) {
                    r == Err::<bool, StoreError>(
                        StoreError::Corrupt("scripthash extent span overflow"),
                    ) && *final(self) == *old(self)
                } else if !have.contains(create_tx_fk) {
                    r == Ok::<bool, StoreError>(false) && *final(self) == *old(self)
                } else {
                    match r {
                        Ok(b) => {
                            &&& b
                            &&& unlink_done(old(self), final(self), k, create_tx_fk)
                            &&& unlink_form(old(self), final(self), k)
                            &&& final(self).live() == old(self).live() - (if old(
                                self,
                            ).counter_of(k) > 0 {
                                1int
                            } else {
                                0int
                            })
                            &&& counts_exact(old(self)) ==> final(self).live() == old(self).live()
                                - 1
                        },
                        Err(e) => limit_error(e) && *final(self) == *old(self) && old(
                            self,
                        ).at_limit(have.len() as int),
                    }
                }
            }),
            counts_exact(old(self)) ==> counts_exact(final(self)),
            same_marks(old(self), final(self)),
    {
        let key = head_key_from_full(scripthash);
        let (val, home, bi, Ghost(pages), Ghost(have)) = self.resolve(&key);
        let list = match self.read_creates(&key) {
            Ok(v) => v,
            Err(e) => return Err(e),
        };
        let mut pos: usize = 0;
        while pos < list.len() && list[pos].0 != create_tx_fk.0
            invariant
                pos <= list@.len(),
                forall|j: int| 0 <= j < pos ==> (#[trigger] list@[j]) != create_tx_fk,
            decreases list@.len() - pos,
        {
            pos += 1;
        }
        if pos == list.len() {
            return Ok(false);
        }
        assert(have[pos as int] == create_tx_fk);
        proof {
            lemma_without_small(have, pos as int);
            if home == KeyHome::Absent {
                lemma_absent_none(self, key@);
            }
        }
        let n: u64 = list.len() as u64;
        if n > 0xffff_ffff_ffff || !self.bodies[bi].has_space_for(8192 * (n + 2053)) {
            return Err(StoreError::Io("scripthash body cannot grow"));
        }
        if self.ingest.slots() >= (usize::MAX / 16) as u64 {
            return Err(StoreError::Io("scripthash ingest cannot grow"));
        }
        let live = vec_without(&list, pos);
        proof {
            if counts_exact(self) {
                law_counter_covers(self, key@);
            }
        }
        self.rewrite_key(&key, &val, home, bi, &live, list.len(), Ghost(pages), Ghost(have));
        Ok(true)
    }
}

fn vec_without(v: &Vec<Fk>, pos: usize) -> (r: Vec<Fk>)
    requires
        pos < v@.len(),
    ensures
        r@ == without(v@, pos as int),
{
    let mut out: Vec<Fk> = Vec::new();
    let mut i: usize = 0;
    while i < v.len()
        invariant
            i <= v@.len(),
            pos < v@.len(),
            i <= pos ==> out@ =~= v@.subrange(0, i as int),
            i > pos ==> out@ =~= v@.subrange(0, pos as int) + v@.subrange(pos + 1, i as int),
        decreases v@.len() - i,
    {
        if i != pos {
            out.push(v[i]);
        }
        i += 1;
    }
    out
}

impl ScriptHashTable {
    /// Clears a key that the ingest head holds.
    fn clear_ingest(&mut self, key: &ShHeadKey)
        requires
            old(self).parts_ok(),
            old(self).homes_apart(),
            old(self).located(key@) matches Some((_, h)) && h == KeyHome::Ingest,
        ensures
            final(self).parts_ok(),
            final(self).homes_apart(),
            same_bodies(old(self), final(self)),
            final(self).located(key@) is None,
            forall|k: Seq<u8>|
                k != key@ ==> #[trigger] final(self).located(k) == old(self).located(k),
    {
        let ghost s0 = *self;
        let full = full_from_key(key);
        let _had: bool = self.ingest.clear_key(&full);
        proof {
            assert(self.ingest@ == s0.ingest@.remove(key@));
            assert forall|k: Seq<u8>| #[trigger] self.ingest@.dom().contains(k) implies newest_word(
                self.sealed_ovf@,
                k,
            ) is None && l1_word(self.ovf_l1, k) is None && main_word(
                self.main@,
                self.n_shards as int,
                k,
            ) is None by {
                assert(s0.ingest@.dom().contains(k));
            }
        }
    }

    /// Replaces the creates of a key.
    fn rewrite_key(
        &mut self,
        key: &ShHeadKey,
        val: &ShHeadValue,
        home: KeyHome,
        bi: usize,
        live: &Vec<Fk>,
        old_n: usize,
        Ghost(pages): Ghost<Seq<int>>,
        Ghost(have): Ghost<Seq<Fk>>,
    )
        requires
            old(self).wf(),
            old(self).located(key@) matches Some((_, h)) && h == home,
            home != KeyHome::Absent,
            bi == body_index(old(self).layout, old(self).n_shards as int, key@, home),
            bi < old(self).bodies@.len(),
            holds_value(&old(self).bodies@[bi as int], *val, key@, pages, have),
            old_n == have.len(),
            fks_small(live@),
            can_hold(&old(self).bodies@[bi as int], live@.len() as int),
            old(self).ingest.can_take(1),
        ensures
            final(self).wf(),
            final(self).creates(key@) == live@,
            others_same(old(self), final(self), key@),
            unlink_form(old(self), final(self), key@),
            same_marks(old(self), final(self)),
            live@.len() < have.len() ==> final(self).live() == old(self).live() - old(
                self,
            ).counter_of(key@) + sat_sub(
                old(self).counter_of(key@),
                have.len() - live@.len(),
            ),
            counts_exact(old(self)) && have == old(self).creates(key@) && live@.len() < have.len()
                ==> counts_exact(final(self)),
    {
        let ghost s0 = *self;
        let body = &mut self.bodies[bi];
        let (nv, Ghost(npages)) = body.rewrite_entries_for_key(
            val,
            live,
            old_n,
            Ghost(key@),
            Ghost(pages),
            Ghost(have),
        );
        let ghost s1 = *self;
        proof {
            assert(s1.bodies@ =~= s0.bodies@.update(bi as int, s1.bodies@[bi as int]));
            lemma_sum_update(s0.bodies@, bi as int, s1.bodies@[bi as int]);
            crate::scripthash_values::lemma_packable(
                &s1.bodies@[bi as int],
                nv,
                key@,
                npages,
                live@,
            );
            assert forall|k: Seq<u8>| #[trigger] s1.located(k) == s0.located(k) by {}
        }
        if home == KeyHome::Ingest && nv.is_empty() {
            self.clear_ingest(key);
            proof {
                lemma_key_cleared(
                    &s0,
                    &s1,
                    self,
                    key@,
                    home,
                    bi as int,
                    *val,
                    pages,
                    have,
                );
                assert(live@ =~= Seq::<Fk>::empty());
            }
        } else {
            self.upsert_head(key, &nv, home);
            proof {
                lemma_key_changed(
                    &s0,
                    &s1,
                    self,
                    key@,
                    home,
                    home,
                    bi as int,
                    *val,
                    pages,
                    have,
                    nv,
                    npages,
                    live@,
                );
            }
        }
        proof {
            if counts_exact(&s0) && have == s0.creates(key@) && live@.len() < have.len() {
                law_counter_covers(&s0, key@);
                lemma_count_step(&s0, self, key@, bi as int);
            }
        }
    }
}

/// One key lost its last create and its place in the ingest head.
proof fn lemma_key_cleared(
    s0: &ScriptHashTable,
    s1: &ScriptHashTable,
    s2: &ScriptHashTable,
    key: Seq<u8>,
    home: KeyHome,
    bi: int,
    val: ShHeadValue,
    pages: Seq<int>,
    have: Seq<Fk>,
)
    requires
        s0.wf(),
        key.len() == 16,
        s1.layout == s0.layout,
        s1.n_shards == s0.n_shards,
        forall|k: Seq<u8>| #[trigger] s1.located(k) == s0.located(k),
        same_bodies(s1, s2),
        s2.parts_ok(),
        s2.homes_apart(),
        bi == body_index(s0.layout, s0.n_shards as int, key, home),
        0 <= bi < s0.bodies@.len(),
        s1.bodies@ == s0.bodies@.update(bi, s1.bodies@[bi]),
        holds_value(&s0.bodies@[bi], val, key, pages, have),
        s1.bodies@[bi].heap_ok(),
        kept_except(&s0.bodies@[bi], &s1.bodies@[bi], pages),
        s2.located(key) is None,
        forall|k: Seq<u8>| k != key ==> #[trigger] s2.located(k) == s1.located(k),
    ensures
        s2.wf(),
        s2.creates(key) == Seq::<Fk>::empty(),
        others_same(s0, s2, key),
{
    assert forall|i: int| 0 <= i < pages.len() implies s0.bodies@[bi].blocks@.dom().contains(
        #[trigger] pages[i],
    ) && s0.bodies@[bi].blocks@[pages[i]].owner == Some(key) by {
        lemma_value_owned(&s0.bodies@[bi], val, key, pages, have, i);
    }
    assert forall|k: Seq<u8>| k.len() == 16 && k != key implies #[trigger] s2.key_sound(k)
        && s2.creates(k) == s0.creates(k) by {
        assert(s2.located(k) == s1.located(k));
        assert(s1.located(k) == s0.located(k));
        lemma_other_keys(s0, s2, key, bi, pages, k);
    }
    assert(s2.key_sound(key));
    assert(others_same(s0, s2, key)) by {
        assert forall|k: Seq<u8>| k.len() == 16 && k != key implies #[trigger] s2.creates(k)
            == s0.creates(k) && s2.located(k) == s0.located(k) by {
            assert(s2.key_sound(k));
            assert(s2.located(k) == s1.located(k));
            assert(s1.located(k) == s0.located(k));
        }
    }
}

impl ScriptHashTable {
    /// Shard and body layout of a table.
    pub open spec fn shape(&self) -> (HeadScale, ShBodyLayout, usize) {
        (self.scale, self.layout, self.n_shards)
    }

    /// Highest create that is known to be in the index.
    pub open spec fn hwm(&self) -> u64 {
        self.include_hwm
    }

    /// The main shard is sealed.
    pub open spec fn sealed(&self, shard: int) -> bool {
        self.main@[shard] is Some
    }

    /// End of the used part of the first body.
    pub open spec fn first_bump(&self) -> u64 {
        self.bodies@[0].bump
    }

    /// Number of creates.
    pub fn entry_count(&self) -> (r: u64)
        ensures
            r == (if self.live() > u64::MAX {
                u64::MAX as nat
            } else {
                self.live()
            }),
    {
        let mut n: u64 = 0;
        let mut i: usize = 0;
        proof {
            assert(self.bodies@.subrange(0, 0) =~= Seq::empty());
        }
        while i < self.bodies.len()
            invariant
                i <= self.bodies@.len(),
                n == (if sum_live(self.bodies@.subrange(0, i as int)) > u64::MAX {
                    u64::MAX as nat
                } else {
                    sum_live(self.bodies@.subrange(0, i as int))
                }),
            decreases self.bodies@.len() - i,
        {
            proof {
                let p = self.bodies@.subrange(0, i + 1);
                assert(p.drop_last() =~= self.bodies@.subrange(0, i as int));
                assert(p.last() == self.bodies@[i as int]);
            }
            n = sat_add_u64(n, self.bodies[i].live_count);
            i += 1;
        }
        proof {
            assert(self.bodies@.subrange(0, i as int) =~= self.bodies@);
        }
        n
    }

    pub fn body_layout(&self) -> (r: ShBodyLayout)
        ensures
            r == self.shape().1,
    {
        self.layout
    }

    /// Number of main shards.
    pub fn head_shard_count(&self) -> (r: usize)
        ensures
            r == self.shape().2,
    {
        self.n_shards
    }

    /// End of the used part of the first body.
    pub fn alloc_bump(&self) -> (r: u64)
        requires
            self.wf(),
        ensures
            r == self.first_bump(),
    {
        self.bodies[0].bump
    }

    /// Highest create that is known to be in the index.
    pub fn include_hwm(&self) -> (r: u64)
        ensures
            r == self.hwm(),
    {
        self.include_hwm
    }

    /// Raises the highest known create; it never falls.
    pub fn note_include_hwm(&mut self, max_create_fk: u64)
        ensures
            final(self).hwm() == (if max_create_fk > old(self).hwm() {
                max_create_fk
            } else {
                old(self).hwm()
            }),
            forall|k: Seq<u8>| #[trigger] final(self).located(k) == old(self).located(k),
            forall|k: Seq<u8>| #[trigger] final(self).creates(k) == old(self).creates(k),
            final(self).shape() == old(self).shape(),
            final(self).live() == old(self).live(),
            final(self).bodies@ == old(self).bodies@,
            final(self).main@ == old(self).main@,
            final(self).ingest == old(self).ingest,
            final(self).sealed_ovf@ == old(self).sealed_ovf@,
            final(self).ovf_l1 == old(self).ovf_l1,
            old(self).wf() ==> final(self).wf(),
    {
        if max_create_fk > self.include_hwm {
            self.include_hwm = max_create_fk;
        }
        proof {
            assert forall|k: Seq<u8>| #[trigger] self.located(k) == old(self).located(k) by {}
            assert forall|k: Seq<u8>| #[trigger] self.creates(k) == old(self).creates(k) by {
                assert(self.located(k) == old(self).located(k));
            }
            if old(self).wf() {
                assert forall|k: Seq<u8>| k.len() == 16 implies #[trigger] self.key_sound(k) by {
                    assert(old(self).key_sound(k));
                    assert(self.located(k) == old(self).located(k));
                }
            }
        }
    }

    /// Main shards that are not sealed yet.
    pub fn unsealed_main_shards(&self) -> (r: Vec<usize>)
        requires
            self.readable(),
        ensures
            forall|i: int, j: int|
                0 <= i < j < r@.len() ==> (#[trigger] r@[i]) < (#[trigger] r@[j]),
            forall|i: int| 0 <= i < r@.len() ==> (#[trigger] r@[i]) < self.shape().2 && !self.sealed(
                r@[i] as int,
            ),
            forall|s: usize|
                s < self.shape().2 && !(#[trigger] self.sealed(s as int)) ==> r@.contains(s),
    {
        let mut out: Vec<usize> = Vec::new();
        let mut s: usize = 0;
        while s < self.main.len()
            invariant
                s <= self.main@.len(),
                self.main@.len() == self.n_shards,
                forall|i: int, j: int|
                    0 <= i < j < out@.len() ==> (#[trigger] out@[i]) < (#[trigger] out@[j]),
                forall|i: int|
                    0 <= i < out@.len() ==> (#[trigger] out@[i]) < s && !self.sealed(
                        out@[i] as int,
                    ),
                forall|x: usize|
                    x < s && !(#[trigger] self.sealed(x as int)) ==> out@.contains(x),
            decreases self.main@.len() - s,
        {
            let ghost before = out@;
            if self.main[s].is_none() {
                out.push(s);
            }
            proof {
                assert forall|x: usize|
                    x < s + 1 && !(#[trigger] self.sealed(x as int)) implies out@.contains(x) by {
                    if x < s {
                        assert(before.contains(x));
                        let i = choose|i: int| 0 <= i < before.len() && before[i] == x;
                        assert(out@[i] == x);
                    } else {
                        assert(out@[out@.len() - 1] == x);
                    }
                }
            }
            s += 1;
        }
        out
    }

    /// No head holds a key, as far as the heads know.
    pub open spec fn heads_empty(&self) -> bool {
        &&& forall|i: int|
            0 <= i < self.main@.len() ==> ((#[trigger] self.main@[i]) matches Some(h)
                ==> h.records().len() == 0)
        &&& self.sealed_ovf@.len() == 0
        &&& self.ovf_l1 is None
        &&& self.ingest.used_slots() == Some(0u64)
    }

    /// True if main, overflow and ingest heads report no key.
    pub fn head_is_empty(&self) -> (r: bool)
        ensures
            r == self.heads_empty(),
    {
        let mut i: usize = 0;
        while i < self.main.len()
            invariant
                i <= self.main@.len(),
                forall|j: int|
                    0 <= j < i ==> ((#[trigger] self.main@[j]) matches Some(h)
                        ==> h.records().len() == 0),
            decreases self.main@.len() - i,
        {
            if let Some(h) = &self.main[i] {
                if !h.is_empty() {
                    assert(self.main@[i as int] is Some);
                    return false;
                }
            }
            i += 1;
        }
        self.sealed_ovf.len() == 0 && self.ovf_l1.is_none() && self.ingest.is_known_empty()
    }

    /// True if there is anything that a wipe would lose.
    pub fn has_durable_index(&self) -> (r: bool)
        ensures
            r == (self.live() > 0 || !self.heads_empty()),
    {
        self.entry_count() > 0 || !self.head_is_empty()
    }
}

/// Empty heads answer for no key.
pub proof fn law_empty_heads(t: &ScriptHashTable, k: Seq<u8>)
    requires
        t.wf(),
        t.heads_empty(),
        k.len() == 16,
    ensures
        t.creates(k) == Seq::<Fk>::empty(),
        t.value_of(k) is None,
{
    lemma_body_index(t, k, KeyHome::Main);
    crate::slot_table::lemma_none_used(t.ingest.table());
    crate::slot_table::lemma_all_empty(t.ingest.table());
    let si = prefix_shard(k, t.n_shards as int);
    if let Some(h) = t.main@[si] {
        assert(h.records().len() == 0);
    }
    assert(t.located(k) is None);
}

/// Hash under which a script is indexed: SHA-256 of the script.
pub fn script_hash(script: &[u8]) -> (r: [u8; 32])
    ensures
        r@ == crate::hashing::sha256_of(script@),
{
    crate::hashing::sha256(script)
}

} // verus!
