//! Hash heads: scale, role, and records by the first bytes of a key.

use vstd::prelude::*;
use vstd::arithmetic::power2::is_pow2;
use std::collections::HashMap;
use crate::bytes::{get_u64, lemma_le_nat_bound, lemma_le_seq_of_nat, lemma_p256_values, u64_at};
use crate::primitives::Fk;

verus! {

/// What a hash head indexes.
#[derive(Clone, Copy, Debug, PartialEq, Eq, Structural)]
pub enum HeadRole {
    Header,
    ScriptHash,
}

/// Size regime of the store.
#[derive(Clone, Copy, Debug, PartialEq, Eq, Structural)]
pub enum HeadScale {
    Tiny,
    Mainnet,
}

/// `r` is the smallest power of two that is not below `x`.
pub open spec fn least_pow2(r: int, x: int) -> bool {
    is_pow2(r) && x <= r && r < 2 * x
}

/// Two smallest powers of two for one number are equal.
pub proof fn lemma_least_pow2_unique(a: int, b: int, x: int)
    requires
        least_pow2(a, x),
        least_pow2(b, x),
        x >= 1,
    ensures
        a == b,
    decreases x,
{
    if a != b {
        let (lo, hi) = if a < b {
            (a, b)
        } else {
            (b, a)
        };
        lemma_pow2_gap(lo, hi);
    }
}

/// Of two powers of two the larger is at least twice the smaller.
pub proof fn lemma_pow2_gap(lo: int, hi: int)
    requires
        is_pow2(lo),
        is_pow2(hi),
        0 < lo < hi,
    ensures
        2 * lo <= hi,
    decreases lo,
{
    reveal_with_fuel(is_pow2, 2);
    if lo > 1 {
        lemma_pow2_gap(lo / 2, hi / 2);
    }
}

/// Smallest power of two that is not below `x`.
pub fn next_pow2(x: u64) -> (r: u64)
    requires
        1 <= x <= 0x8000_0000_0000_0000,
    ensures
        least_pow2(r as int, x as int),
{
    let mut p: u64 = 1;
    proof {
        assert(is_pow2(1)) by {
            reveal_with_fuel(is_pow2, 2);
        }
    }
    while p < x
        invariant
            1 <= p < 2 * x,
            is_pow2(p as int),
            x <= 0x8000_0000_0000_0000,
        decreases 2 * x - p,
    {
        proof {
            assert((2 * p) / 2 == p && (2 * p) % 2 == 0);
            reveal_with_fuel(is_pow2, 2);
        }
        assert(p < 0x8000_0000_0000_0000);
        p = p * 2;
    }
    p
}

/// Word that stands for the first 16 bytes of a key.
pub open spec fn prefix_word(key: Seq<u8>) -> u128 {
    (u64_at(key, 8) as int * 0x1_0000_0000_0000_0000 + u64_at(key, 0)) as u128
}

/// Keys have the same word exactly when they have the same first 16 bytes.
pub proof fn law_prefix_word(a: Seq<u8>, b: Seq<u8>)
    requires
        a.len() >= 16,
        b.len() >= 16,
    ensures
        prefix_word(a) == prefix_word(b) <==> a.subrange(0, 16) == b.subrange(0, 16),
{
    lemma_p256_values();
    lemma_le_nat_bound(a.subrange(0, 8));
    lemma_le_nat_bound(a.subrange(8, 16));
    lemma_le_nat_bound(b.subrange(0, 8));
    lemma_le_nat_bound(b.subrange(8, 16));
    lemma_le_seq_of_nat(a.subrange(0, 8));
    lemma_le_seq_of_nat(a.subrange(8, 16));
    lemma_le_seq_of_nat(b.subrange(0, 8));
    lemma_le_seq_of_nat(b.subrange(8, 16));
    assert(a.subrange(0, 16) =~= a.subrange(0, 8) + a.subrange(8, 16));
    assert(b.subrange(0, 16) =~= b.subrange(0, 8) + b.subrange(8, 16));
    if a.subrange(0, 16) == b.subrange(0, 16) {
        assert(a.subrange(0, 8) =~= a.subrange(0, 16).subrange(0, 8));
        assert(b.subrange(0, 8) =~= b.subrange(0, 16).subrange(0, 8));
        assert(a.subrange(8, 16) =~= a.subrange(0, 16).subrange(8, 16));
        assert(b.subrange(8, 16) =~= b.subrange(0, 16).subrange(8, 16));
    }
}

/// Word that stands for the first 16 bytes of a key.
pub fn key_word(key: &[u8; 32]) -> (r: u128)
    ensures
        r == prefix_word(key@),
{
    let lo: u64 = get_u64(key.as_slice(), 0);
    let hi: u64 = get_u64(key.as_slice(), 8);
    hi as u128 * 0x1_0000_0000_0000_0000 + lo as u128
}

/// A record behind those that are there, unless it is one of them.
pub open spec fn appended(list: Seq<Fk>, fk: Fk) -> Seq<Fk> {
    if list.contains(fk) {
        list
    } else {
        list.push(fk)
    }
}

/// The records of a key word after inserts.
pub open spec fn extended(list: Seq<Fk>, entries: Seq<([u8; 32], Fk)>, word: u128) -> Seq<Fk>
    decreases entries.len(),
{
    if entries.len() == 0 {
        list
    } else {
        let p = extended(list, entries.drop_last(), word);
        if prefix_word(entries.last().0@) == word {
            appended(p, entries.last().1)
        } else {
            p
        }
    }
}

/// Hash head: records by the first 16 bytes of their key.
pub struct HashHead {
    pub lists: HashMap<u128, Vec<Fk>>,
    pub slots: u64,
}

impl HashHead {
    /// Records under a key word, oldest first.
    pub open spec fn list(&self, word: u128) -> Seq<Fk> {
        if self.lists@.contains_key(word) {
            self.lists@[word]@
        } else {
            Seq::empty()
        }
    }

    /// Every list has a record.
    pub open spec fn inv(&self) -> bool {
        forall|w: u128| #[trigger]
            self.lists@.contains_key(w) ==> self.lists@[w]@.len() > 0
    }

    /// An empty head.
    pub fn create_with_slots(slots: u64) -> (r: HashHead)
        ensures
            r.inv(),
            r.slots == slots,
            r.lists@ == Map::<u128, Vec<Fk>>::empty(),
            forall|w: u128| r.list(w) == Seq::<Fk>::empty(),
    {
        let lists: HashMap<u128, Vec<Fk>> = HashMap::new();
        HashHead { lists, slots }
    }

    /// All records under the first 16 bytes of a key, oldest first.
    pub fn get_all(&self, key: &[u8; 32]) -> (r: Vec<Fk>)
        ensures
            r@ == self.list(prefix_word(key@)),
    {
        broadcast use vstd::std_specs::hash::group_hash_axioms;

        let w: u128 = key_word(key);
        match self.lists.get(&w) {
            Some(l) => copy_fks(l),
            None => Vec::new(),
        }
    }

    /// The first record under the first 16 bytes of a key.
    pub fn get(&self, key: &[u8; 32]) -> (r: Option<Fk>)
        requires
            self.inv(),
        ensures
            r == first_of(self.list(prefix_word(key@))),
    {
        broadcast use vstd::std_specs::hash::group_hash_axioms;

        let w: u128 = key_word(key);
        match self.lists.get(&w) {
            Some(l) => Some(l[0]),
            None => None,
        }
    }

    /// Adds a record and returns the first one that was there.
    pub fn insert(&mut self, key: &[u8; 32], fk: Fk) -> (r: Option<Fk>)
        requires
            old(self).inv(),
        ensures
            final(self).inv(),
            final(self).slots == old(self).slots,
            r == first_of(old(self).list(prefix_word(key@))),
            final(self).list(prefix_word(key@)) == appended(
                old(self).list(prefix_word(key@)),
                fk,
            ),
            forall|w: u128| w != prefix_word(key@) ==> final(self).list(w) == old(self).list(w),
    {
        broadcast use vstd::std_specs::hash::group_hash_axioms;

        let w: u128 = key_word(key);
        let prev = self.get(key);
        let mut l = self.get_all(key);
        let ghost before = l@;
        if !has_fk(&l, fk) {
            l.push(fk);
        }
        self.lists.insert(w, l);
        prev
    }

    /// Number of keys, up to their first 16 bytes.
    pub fn occupied(&self) -> (r: usize)
        ensures
            r == self.lists@.len(),
    {
        broadcast use vstd::std_specs::hash::group_hash_axioms;

        self.lists.len()
    }
}

/// The first record of a list.
pub open spec fn first_of(list: Seq<Fk>) -> Option<Fk> {
    if list.len() == 0 {
        None
    } else {
        Some(list[0])
    }
}

/// A copy of the records.
fn copy_fks(l: &Vec<Fk>) -> (r: Vec<Fk>)
    ensures
        r@ == l@,
{
    let mut v: Vec<Fk> = Vec::new();
    let mut i: usize = 0;
    while i < l.len()
        invariant
            i <= l@.len(),
            v@ == l@.subrange(0, i as int),
        decreases l@.len() - i,
    {
        v.push(l[i]);
        proof {
            assert(v@ =~= l@.subrange(0, i + 1));
        }
        i += 1;
    }
    proof {
        assert(l@.subrange(0, i as int) =~= l@);
    }
    v
}

/// The list holds the record.
fn has_fk(l: &Vec<Fk>, fk: Fk) -> (r: bool)
    ensures
        r == l@.contains(fk),
{
    let mut i: usize = 0;
    while i < l.len()
        invariant
            i <= l@.len(),
            forall|j: int| 0 <= j < i ==> #[trigger] l@[j] != fk,
        decreases l@.len() - i,
    {
        if l[i].0 == fk.0 {
            assert(l@[i as int] == fk);
            return true;
        }
        i += 1;
    }
    false
}

} // verus!
