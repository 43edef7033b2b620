//! Hash head in shards: a key goes to the shard of its first byte.
//!
//! Shard files are named `00`, `01`, and so on. A head with one shard is a single
//! file.

use vstd::prelude::*;
use crate::error::StoreError;
use crate::hashhead::{appended, extended, first_of, least_pow2, next_pow2, prefix_word, HashHead, HeadRole, HeadScale};
use crate::primitives::Fk;
use crate::sorting::{sort_ranked, sorted_by_rank, Ranked};

verus! {

/// Shards of a header head in the old layout; new ones have one.
pub const SHARD_COUNT: usize = 256;

/// Shards of a script hash head on the main network.
pub const SHARD_COUNT_TX_SH: usize = 64;

/// Shards of a script hash head on the main network.
pub const SHARD_COUNT_SCRIPTHASH: usize = SHARD_COUNT_TX_SH;

/// Shards of a new head.
pub open spec fn shards_for(role: HeadRole, scale: HeadScale) -> usize {
    match (scale, role) {
        (HeadScale::Mainnet, HeadRole::ScriptHash) => 64,
        _ => 1,
    }
}

/// Shards of a new header head.
pub fn shard_count_for_scale(scale: HeadScale) -> (r: usize)
    ensures
        r == shards_for(HeadRole::Header, scale),
        r == 1,
{
    shard_count_for_role(HeadRole::Header, scale)
}

/// Shards of a new head: one, but 64 for script hashes on the main network.
pub fn shard_count_for_role(role: HeadRole, scale: HeadScale) -> (r: usize)
    ensures
        r == shards_for(role, scale),
{
    match scale {
        HeadScale::Tiny => 1,
        HeadScale::Mainnet => match role {
            HeadRole::Header => 1,
            HeadRole::ScriptHash => SHARD_COUNT_TX_SH,
        },
    }
}

/// Slots of each shard of a new head without a setting.
pub open spec fn default_slots(role: HeadRole, scale: HeadScale) -> u64 {
    match (scale, role) {
        (HeadScale::Tiny, _) => 64,
        (HeadScale::Mainnet, HeadRole::Header) => 0x10_0000,
        (HeadScale::Mainnet, HeadRole::ScriptHash) => 0x1_0000,
    }
}

/// Slots of each shard of a new head: the setting, raised to a power of two, or
/// the default of role and scale.
pub fn initial_slots_per_shard(role: HeadRole, scale: HeadScale, given: Option<u64>) -> (r: u64)
    requires
        given is Some ==> given->0 <= 0x8000_0000_0000_0000,
    ensures
        match given {
            Some(g) => least_pow2(
                r as int,
                if g < 2 {
                    2
                } else {
                    g as int
                },
            ),
            None => r == default_slots(role, scale),
        },
{
    match given {
        Some(g) => next_pow2(
            if g < 2 {
                2
            } else {
                g
            },
        ),
        None => match scale {
            HeadScale::Tiny => 64,
            HeadScale::Mainnet => match role {
                HeadRole::Header => 0x10_0000,
                HeadRole::ScriptHash => 0x1_0000,
            },
        },
    }
}

/// Shard of a key.
pub open spec fn shard_index(key: Seq<u8>, n: int) -> int {
    key[0] as int % n
}

/// The shards have the slot counts that they had.
pub open spec fn same_slots(a: Seq<HashHead>, b: Seq<HashHead>) -> bool {
    &&& a.len() == b.len()
    &&& forall|i: int| 0 <= i < a.len() ==> (#[trigger] b[i]).slots == a[i].slots
}

/// Hash head in shards.
pub struct ShardedHashHead {
    pub shards: Vec<HashHead>,
}

impl ShardedHashHead {
    pub open spec fn inv(&self) -> bool {
        &&& self.shards@.len() >= 1
        &&& forall|i: int| 0 <= i < self.shards@.len() ==> (#[trigger] self.shards@[i]).inv()
    }

    /// All records under the first 16 bytes of a key, oldest first.
    pub open spec fn all_of(&self, key: Seq<u8>) -> Seq<Fk> {
        self.shards@[shard_index(key, self.shards@.len() as int)].list(prefix_word(key))
    }

    /// A new head with the shards and slots of its role.
    pub fn create_for_role(role: HeadRole, scale: HeadScale) -> (r: Self)
        ensures
            r.inv(),
            r.shards@.len() == shards_for(role, scale),
            forall|key: Seq<u8>| key.len() == 32 ==> #[trigger] r.all_of(key) == Seq::<Fk>::empty(),
            forall|i: int|
                0 <= i < r.shards@.len() ==> (#[trigger] r.shards@[i]).slots >= default_slots(
                    role,
                    scale,
                ),
    {
        Self::create_sharded(
            shard_count_for_role(role, scale),
            initial_slots_per_shard(role, scale, None),
        )
    }

    /// A new head with at least one shard, each with a power of two of slots.
    pub fn create_sharded(shard_count: usize, slots_each: u64) -> (r: Self)
        requires
            slots_each <= 0x8000_0000_0000_0000,
        ensures
            r.inv(),
            r.shards@.len() == (if shard_count == 0 {
                1
            } else {
                shard_count as int
            }),
            forall|i: int|
                0 <= i < r.shards@.len() ==> least_pow2(
                    (#[trigger] r.shards@[i]).slots as int,
                    if slots_each < 2 {
                        2
                    } else {
                        slots_each as int
                    },
                ),
            forall|key: Seq<u8>| key.len() == 32 ==> #[trigger] r.all_of(key) == Seq::<Fk>::empty(),
    {
        let n: usize = if shard_count == 0 {
            1
        } else {
            shard_count
        };
        let per: u64 = next_pow2(
            if slots_each < 2 {
                2
            } else {
                slots_each
            },
        );
        let mut shards: Vec<HashHead> = Vec::new();
        while shards.len() < n
            invariant
                shards@.len() <= n,
                forall|i: int|
                    0 <= i < shards@.len() ==> (#[trigger] shards@[i]).inv() && shards@[i].slots
                        == per && forall|w: u128|
                        #![trigger shards@[i].list(w)]
                        shards@[i].list(w) == Seq::<Fk>::empty(),
            decreases n - shards@.len(),
        {
            shards.push(HashHead::create_with_slots(per));
        }
        ShardedHashHead { shards }
    }

    fn shard_of(&self, key: &[u8; 32]) -> (r: usize)
        requires
            self.inv(),
        ensures
            r == shard_index(key@, self.shards@.len() as int),
            r < self.shards@.len(),
    {
        key[0] as usize % self.shards.len()
    }

    /// All records under the first 16 bytes of a key, oldest first.
    pub fn get_all(&self, key: &[u8; 32]) -> (r: Result<Vec<Fk>, StoreError>)
        requires
            self.inv(),
        ensures
            r is Ok,
            r->Ok_0@ == self.all_of(key@),
    {
        let s: usize = self.shard_of(key);
        Ok(self.shards[s].get_all(key))
    }

    /// The first record under the first 16 bytes of a key.
    pub fn get(&self, key: &[u8; 32]) -> (r: Result<Option<Fk>, StoreError>)
        requires
            self.inv(),
        ensures
            r is Ok,
            r->Ok_0 == first_of(self.all_of(key@)),
    {
        let s: usize = self.shard_of(key);
        Ok(self.shards[s].get(key))
    }

    /// Adds a record and returns the first one that was there.
    pub fn insert(&mut self, key: &[u8; 32], fk: Fk) -> (r: Result<Option<Fk>, StoreError>)
        requires
            old(self).inv(),
        ensures
            final(self).inv(),
            final(self).shards@.len() == old(self).shards@.len(),
            r is Ok,
            r->Ok_0 == first_of(old(self).all_of(key@)),
            forall|k: Seq<u8>|
                k.len() == 32 ==> #[trigger] final(self).all_of(k) == (if prefix_word(k)
                    == prefix_word(key@) && k[0] == key@[0] {
                    appended(old(self).all_of(k), fk)
                } else {
                    old(self).all_of(k)
                }),
            forall|i: int|
                0 <= i < old(self).shards@.len() && i != shard_index(
                    key@,
                    old(self).shards@.len() as int,
                ) ==> #[trigger] final(self).shards@[i] == old(self).shards@[i],
            same_slots(old(self).shards@, final(self).shards@),
    {
        let s: usize = self.shard_of(key);
        let ghost before = self.shards@;
        let h = &mut self.shards[s];
        let prev = h.insert(key, fk);
        proof {
            let n = before.len() as int;
            assert forall|k: Seq<u8>| k.len() == 32 implies #[trigger] self.all_of(k) == (
            if prefix_word(k) == prefix_word(key@) && k[0] == key@[0] {
                appended(old(self).all_of(k), fk)
            } else {
                old(self).all_of(k)
            }) by {
                let t = shard_index(k, n);
                assert(0 <= t < n);
                if prefix_word(k) == prefix_word(key@) {
                    lemma_first_byte(k, key@);
                }
                if t != s {
                    assert(self.shards@[t] == before[t]);
                }
            }
        }
        Ok(prev)
    }

    /// Adds records in order.
    pub fn insert_many(&mut self, entries: &[([u8; 32], Fk)]) -> (r: Result<(), StoreError>)
        requires
            old(self).inv(),
        ensures
            final(self).inv(),
            final(self).shards@.len() == old(self).shards@.len(),
            r is Ok,
            forall|k: Seq<u8>|
                k.len() == 32 ==> #[trigger] final(self).all_of(k) == extended(
                    old(self).all_of(k),
                    entries@,
                    prefix_word(k),
                ),
            same_slots(old(self).shards@, final(self).shards@),
    {
        let mut i: usize = 0;
        proof {
            assert(entries@.subrange(0, 0) =~= Seq::empty());
        }
        while i < entries.len()
            invariant
                i <= entries@.len(),
                self.inv(),
                self.shards@.len() == old(self).shards@.len(),
                forall|k: Seq<u8>|
                    k.len() == 32 ==> #[trigger] self.all_of(k) == extended(
                        old(self).all_of(k),
                        entries@.subrange(0, i as int),
                        prefix_word(k),
                    ),
                same_slots(old(self).shards@, self.shards@),
            decreases entries@.len() - i,
        {
            let ghost p = entries@.subrange(0, i + 1);
            let ghost mid = *self;
            proof {
                assert(p.drop_last() =~= entries@.subrange(0, i as int));
                assert(p.last() == entries@[i as int]);
            }
            let e: ([u8; 32], Fk) = entries[i];
            let _ = self.insert(&e.0, e.1);
            proof {
                assert forall|k: Seq<u8>| k.len() == 32 implies #[trigger] self.all_of(k)
                    == extended(old(self).all_of(k), p, prefix_word(k)) by {
                    assert(mid.all_of(k) == extended(
                        old(self).all_of(k),
                        p.drop_last(),
                        prefix_word(k),
                    ));
                    if prefix_word(k) == prefix_word(e.0@) {
                        lemma_first_byte(k, e.0@);
                    }
                }
            }
            i += 1;
        }
        proof {
            assert(entries@.subrange(0, i as int) =~= entries@);
        }
        Ok(())
    }

    /// Number of keys in all shards, up to their first 16 bytes.
    pub fn occupied(&self) -> (r: u64)
        requires
            keys_in(self.shards@) <= u64::MAX,
        ensures
            r == keys_in(self.shards@),
    {
        let mut n: u64 = 0;
        let mut i: usize = 0;
        proof {
            assert(self.shards@.subrange(0, 0) =~= Seq::empty());
        }
        while i < self.shards.len()
            invariant
                i <= self.shards@.len(),
                keys_in(self.shards@) <= u64::MAX,
                n == keys_in(self.shards@.subrange(0, i as int)),
            decreases self.shards@.len() - i,
        {
            proof {
                let p = self.shards@.subrange(0, i + 1);
                assert(p.drop_last() =~= self.shards@.subrange(0, i as int));
                assert(p.last() == self.shards@[i as int]);
                lemma_keys_prefix(self.shards@, i + 1);
            }
            n = n + self.shards[i].occupied() as u64;
            i += 1;
        }
        proof {
            assert(self.shards@.subrange(0, i as int) =~= self.shards@);
        }
        n
    }
}

/// Number of keys in the shards.
pub open spec fn keys_in(shards: Seq<HashHead>) -> nat
    decreases shards.len(),
{
    if shards.len() == 0 {
        0
    } else {
        keys_in(shards.drop_last()) + shards.last().lists@.len()
    }
}

proof fn lemma_keys_prefix(shards: Seq<HashHead>, i: int)
    requires
        0 <= i <= shards.len(),
    ensures
        keys_in(shards.subrange(0, i)) <= keys_in(shards),
    decreases shards.len() - i,
{
    if i < shards.len() {
        lemma_keys_prefix(shards, i + 1);
        let p = shards.subrange(0, i + 1);
        assert(p.drop_last() =~= shards.subrange(0, i));
    } else {
        assert(shards.subrange(0, i) =~= shards);
    }
}

/// Keys with the same word have the same first byte, hence the same shard.
proof fn lemma_first_byte(a: Seq<u8>, b: Seq<u8>)
    requires
        a.len() == 32,
        b.len() == 32,
        prefix_word(a) == prefix_word(b),
    ensures
        a[0] == b[0],
{
    crate::hashhead::law_prefix_word(a, b);
    assert(a.subrange(0, 16)[0] == b.subrange(0, 16)[0]);
}

/// A record is among those of its key once it was inserted.
pub proof fn law_inserted_is_found(
    list: Seq<Fk>,
    entries: Seq<([u8; 32], Fk)>,
    i: int,
)
    requires
        0 <= i < entries.len(),
    ensures
        extended(list, entries, prefix_word(entries[i].0@)).contains(entries[i].1),
    decreases entries.len(),
{
    let w = prefix_word(entries[i].0@);
    let d = entries.drop_last();
    let p = extended(list, d, w);
    let r = extended(list, entries, w);
    let fk = entries[i].1;
    if i == entries.len() - 1 {
        if !p.contains(fk) {
            assert(r[p.len() as int] == fk);
        }
    } else {
        law_inserted_is_found(list, d, i);
        assert(d[i] == entries[i]);
        let k = choose|k: int| 0 <= k < p.len() && p[k] == fk;
        assert(r[k] == fk);
    }
}

/// Name of a shard file: one or two hexadecimal digits.
#[derive(Clone, Copy, Debug, PartialEq, Eq, Structural)]
pub struct ShardName {
    pub first: u8,
    pub second: Option<u8>,
}

/// A hexadecimal digit.
pub open spec fn is_hex(b: u8) -> bool {
    48 <= b <= 57 || 65 <= b <= 70 || 97 <= b <= 102
}

/// The digit of a value below 16.
pub open spec fn hex_digit(x: int) -> u8 {
    if x < 10 {
        (48 + x) as u8
    } else {
        (87 + x) as u8
    }
}

fn hex_of(x: u8) -> (r: u8)
    requires
        x < 16,
    ensures
        r == hex_digit(x as int),
{
    if x < 10 {
        48 + x
    } else {
        87 + x
    }
}

fn hex_ok(b: u8) -> (r: bool)
    ensures
        r == is_hex(b),
{
    (48 <= b && b <= 57) || (65 <= b && b <= 70) || (97 <= b && b <= 102)
}

/// The shard name in a file name (`None` for files that are no shards).
pub fn shard_name(name: &[u8]) -> (r: Option<ShardName>)
    ensures
        match r {
            Some(s) => match s.second {
                None => name@ == seq![s.first] && is_hex(s.first),
                Some(b) => name@ == seq![s.first, b] && is_hex(s.first) && is_hex(b),
            },
            None => !(1 <= name@.len() <= 2 && forall|i: int|
                0 <= i < name@.len() ==> is_hex(#[trigger] name@[i])),
        },
{
    if name.len() == 1 {
        if hex_ok(name[0]) {
            assert(name@ =~= seq![name@[0]]);
            return Some(ShardName { first: name[0], second: None });
        }
        assert(!is_hex(name@[0]));
        return None;
    }
    if name.len() == 2 {
        if hex_ok(name[0]) && hex_ok(name[1]) {
            assert(name@ =~= seq![name@[0], name@[1]]);
            return Some(ShardName { first: name[0], second: Some(name[1]) });
        }
        assert(!is_hex(name@[0]) || !is_hex(name@[1]));
        return None;
    }
    None
}

impl Ranked for ShardName {
    /// Order of the names as text.
    open spec fn rank(&self) -> nat {
        (self.first as nat) * 257 + match self.second {
            None => 0nat,
            Some(b) => b as nat + 1,
        }
    }

    fn rank_le(&self, other: &Self) -> (r: bool) {
        let a: u32 = self.first as u32 * 257 + match self.second {
            None => 0,
            Some(b) => b as u32 + 1,
        };
        let b: u32 = other.first as u32 * 257 + match other.second {
            None => 0,
            Some(c) => c as u32 + 1,
        };
        a <= b
    }
}

/// The name is that of shard `i`: its number in hexadecimal, with two digits or
/// with as many as it needs.
pub open spec fn names_shard(s: ShardName, i: int) -> bool {
    ||| i < 256 && s == (ShardName {
        first: hex_digit(i / 16),
        second: Some(hex_digit(i % 16)),
    })
    ||| i < 16 && s == (ShardName { first: hex_digit(i), second: None })
}

/// The name is two hexadecimal digits.
pub open spec fn two_hex(name: Seq<u8>) -> bool {
    name.len() == 2 && is_hex(name[0]) && is_hex(name[1])
}

/// True if the name is that of shard `i`.
pub fn is_shard_name(s: ShardName, i: usize) -> (r: bool)
    ensures
        r == names_shard(s, i as int),
{
    if i >= 256 {
        return false;
    }
    let x: u8 = i as u8;
    match s.second {
        Some(b) => s.first == hex_of(x / 16) && b == hex_of(x % 16),
        None => x < 16 && s.first == hex_of(x),
    }
}

/// The shard names in order.
pub fn order_shards(names: &Vec<ShardName>) -> (r: Result<Vec<ShardName>, StoreError>)
    ensures
        match r {
            Ok(v) => {
                &&& v@.len() > 0
                &&& v@.to_multiset() == names@.to_multiset()
                &&& sorted_by_rank(v@)
                &&& forall|i: int| 0 <= i < v@.len() ==> names_shard(#[trigger] v@[i], i)
            },
            Err(e) => if names@.len() == 0 {
                e == StoreError::Corrupt("sharded hash-head empty directory")
            } else {
                &&& e == StoreError::Corrupt("sharded hash-head unexpected shard name")
                &&& exists|v: Seq<ShardName>, i: int|
                    v.to_multiset() == names@.to_multiset() && sorted_by_rank(v) && 0 <= i < v.len()
                        && !names_shard(#[trigger] v[i], i)
            },
        },
{
    if names.len() == 0 {
        return Err(StoreError::Corrupt("sharded hash-head empty directory"));
    }
    let v = sort_ranked(names);
    let mut i: usize = 0;
    while i < v.len()
        invariant
            i <= v@.len(),
            v@.to_multiset() == names@.to_multiset(),
            names@.len() > 0,
            sorted_by_rank(v@),
            forall|j: int| 0 <= j < i ==> names_shard(#[trigger] v@[j], j),
        decreases v@.len() - i,
    {
        if !is_shard_name(v[i], i) {
            assert(!names_shard(v@[i as int], i as int));
            return Err(StoreError::Corrupt("sharded hash-head unexpected shard name"));
        }
        i += 1;
    }
    Ok(v)
}

} // verus!
