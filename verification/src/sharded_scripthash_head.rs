//! Scripthash head in shards: a hash goes to the shard of its prefix.

use vstd::prelude::*;
use crate::error::StoreError;
use crate::hashhead::{least_pow2, HeadRole, HeadScale};
use crate::scripthash_head::{head_answer, image_of, key16, one_stored, prefix_shard, prefix_shard_of, shard_count_ok, slots_fault, LiveShardTable, ScriptHashHead, OCC_SCAN_BYTE_CAP};
use crate::scripthash_layout::{key_of, ShHeadValue};
use crate::scripthash_pack8::pack8;
use crate::sharded_hashhead::{default_slots, initial_slots_per_shard, is_shard_name, names_shard, shard_count_for_role, shard_name, shards_for, two_hex, ShardName};
use crate::slot_table::{count_used, find, find_slot, lookup, slot_empty, slot_for};
use crate::sorting::{lemma_same_items, sort_ranked, sorted_by_rank, Ranked};

verus! {

/// The message for a directory with another number of shards.
pub const SH_HEAD_SHARD_COUNT_MISMATCH: &'static str =
    "scripthash head shard count mismatch (reindex; expected 64-way mainnet layout)";

/// Scripthash head in shards.
pub struct ShardedScriptHashHead {
    pub shards: Vec<ScriptHashHead>,
}

/// A file of the directory of a head.
pub struct HeadShardFile {
    pub name: Vec<u8>,
    /// Bytes of the slots.
    pub slots: Vec<u8>,
    /// Slots in use, where that is stored.
    pub used: Option<u64>,
}

/// Name of a shard file and its place among the files.
#[derive(Clone, Copy, Debug, PartialEq, Eq, Structural)]
pub struct NamedShard {
    pub name: ShardName,
    pub at: usize,
}

impl Ranked for NamedShard {
    /// Order of the names as text.
    open spec fn rank(&self) -> nat {
        self.name.rank()
    }

    fn rank_le(&self, other: &Self) -> (r: bool) {
        self.name.rank_le(&other.name)
    }
}

/// The shards among the first `n` files.
pub open spec fn named(files: Seq<HeadShardFile>, n: int) -> Seq<NamedShard>
    decreases n,
{
    if n <= 0 {
        Seq::empty()
    } else if two_hex(files[n - 1].name@) {
        named(files, n - 1).push(
            NamedShard {
                name: ShardName {
                    first: files[n - 1].name@[0],
                    second: Some(files[n - 1].name@[1]),
                },
                at: (n - 1) as usize,
            },
        )
    } else {
        named(files, n - 1)
    }
}

/// The shards in order of their names.
pub open spec fn is_shard_order(files: Seq<HeadShardFile>, order: Seq<NamedShard>) -> bool {
    order.to_multiset() == named(files, files.len() as int).to_multiset() && sorted_by_rank(order)
}

/// Why the shard at place `i` cannot be opened.
pub open spec fn shard_fault(files: Seq<HeadShardFile>, o: NamedShard, i: int) -> Option<
    StoreError,
> {
    if !names_shard(o.name, i) {
        Some(StoreError::Corrupt("sharded scripthash head unexpected shard name"))
    } else {
        slots_fault(files[o.at as int].slots@)
    }
}

/// The head holds the slots of the file.
pub open spec fn head_opened(f: HeadShardFile, h: ScriptHashHead) -> bool {
    &&& image_of(f.slots@, h.table())
    &&& h.used_slots() == (match f.used {
        Some(n) => Some(n),
        None => if f.slots@.len() <= OCC_SCAN_BYTE_CAP {
            Some(count_used(h.table()) as u64)
        } else {
            None
        },
    })
}

proof fn lemma_named(files: Seq<HeadShardFile>, n: int, a: int)
    requires
        0 <= n <= files.len(),
        0 <= a < named(files, n).len(),
        files.len() <= usize::MAX,
    ensures
        named(files, n)[a].at < n,
        named(files, n)[a].name.second is Some,
    decreases n,
{
    if n > 0 {
        if a < named(files, n - 1).len() {
            lemma_named(files, n - 1, a);
        }
    }
}

/// The shards among the files.
fn named_shards(files: &Vec<HeadShardFile>) -> (r: Vec<NamedShard>)
    ensures
        r@ == named(files@, files@.len() as int),
        files@.len() <= usize::MAX,
{
    let mut out: Vec<NamedShard> = Vec::new();
    let n: usize = files.len();
    let mut i: usize = 0;
    proof {
        assert(out@ =~= named(files@, 0));
    }
    while i < n
        invariant
            i <= n,
            n == files@.len(),
            out@ == named(files@, i as int),
        decreases n - i,
    {
        if files[i].name.len() == 2 {
            match shard_name(files[i].name.as_slice()) {
                Some(name) => {
                    proof {
                        let f = files@[i as int].name@;
                        match name.second {
                            None => {
                                assert(f == seq![name.first]);
                            },
                            Some(b) => {
                                assert(f == seq![name.first, b]);
                                assert(f[0] == name.first && f[1] == b);
                            },
                        }
                    }
                    out.push(NamedShard { name, at: i });
                },
                None => {},
            }
        }
        i += 1;
    }
    out
}

impl ShardedScriptHashHead {
    pub open spec fn inv(&self) -> bool {
        &&& self.shards@.len() >= 1
        &&& shard_count_ok(self.shards@.len() as int)
        &&& forall|i: int| 0 <= i < self.shards@.len() ==> (#[trigger] self.shards@[i]).inv()
    }

    /// Word stored for a hash.
    pub open spec fn word(&self, full: Seq<u8>) -> Option<u64> {
        lookup(
            self.shards@[prefix_shard(full, self.shards@.len() as int)].table(),
            key16(full),
        )
    }

    /// A new head with the shards and slots of its role.
    pub fn create_for_role(role: HeadRole, scale: HeadScale) -> (r: Self)
        ensures
            r.inv(),
            r.shards@.len() == shards_for(role, scale),
            forall|i: int|
                0 <= i < r.shards@.len() ==> least_pow2(
                    (#[trigger] r.shards@[i]).table().len() as int,
                    if default_slots(role, scale) < 2 {
                        2
                    } else {
                        default_slots(role, scale) as int
                    },
                ) && r.shards@[i].used_slots() == Some(0u64),
            forall|full: Seq<u8>| full.len() == 32 ==> (#[trigger] r.word(full)) is None,
    {
        proof {
            assert(vstd::arithmetic::power2::is_pow2(64)) by {
                reveal_with_fuel(vstd::arithmetic::power2::is_pow2, 8);
            }
        }
        Self::create_sharded(
            shard_count_for_role(role, scale),
            initial_slots_per_shard(role, scale, None),
        )
    }

    /// A new head with at least one shard, each with a power of two of slots.
    pub fn create_sharded(shard_count: usize, slots_each: u64) -> (r: Self)
        requires
            shard_count_ok(shard_count as int),
            slots_each <= usize::MAX / 16,
        ensures
            r.inv(),
            r.shards@.len() == (if shard_count == 0 {
                1
            } else {
                shard_count as int
            }),
            forall|i: int|
                0 <= i < r.shards@.len() ==> least_pow2(
                    (#[trigger] r.shards@[i]).table().len() as int,
                    if slots_each < 2 {
                        2
                    } else {
                        slots_each as int
                    },
                ) && r.shards@[i].used_slots() == Some(0u64),
            forall|full: Seq<u8>| full.len() == 32 ==> (#[trigger] r.word(full)) is None,
    {
        let n: usize = if shard_count == 0 {
            1
        } else {
            shard_count
        };
        let mut shards: Vec<ScriptHashHead> = Vec::new();
        while shards.len() < n
            invariant
                shards@.len() <= n,
                slots_each <= usize::MAX / 16,
                forall|i: int|
                    0 <= i < shards@.len() ==> (#[trigger] shards@[i]).inv() && least_pow2(
                        shards@[i].table().len() as int,
                        if slots_each < 2 {
                            2
                        } else {
                            slots_each as int
                        },
                    ) && shards@[i].used_slots() == Some(0u64) && shards@[i]@ == Map::<
                        Seq<u8>,
                        u64,
                    >::empty(),
            decreases n - shards@.len(),
        {
            shards.push(ScriptHashHead::create_with_slots(slots_each));
        }
        let r = ShardedScriptHashHead { shards };
        proof {
            assert forall|full: Seq<u8>| full.len() == 32 implies (#[trigger] r.word(full))
                is None by {
                crate::scripthash_head::law_prefix_shard_monotone(
                    full,
                    full,
                    r.shards@.len() as int,
                );
                let s = r.shards@[prefix_shard(full, r.shards@.len() as int)];
                assert(!s@.dom().contains(key16(full)));
            }
        }
        r
    }

    /// Empties every shard.
    pub fn reinit_empty(&mut self)
        requires
            old(self).inv(),
        ensures
            final(self).inv(),
            final(self).shards@.len() == old(self).shards@.len(),
            forall|full: Seq<u8>| full.len() == 32 ==> (#[trigger] final(self).word(full)) is None,
            final(self).known_empty(),
            forall|i: int|
                0 <= i < old(self).shards@.len() ==> (#[trigger] final(self).shards@[i]).table().len() == old(self).shards@[i].table().len(),
    {
        let n: usize = self.shards.len();
        let mut i: usize = 0;
        while i < n
            invariant
                i <= n,
                n == self.shards@.len(),
                n == old(self).shards@.len(),
                n >= 1,
                shard_count_ok(n as int),
                forall|j: int| 0 <= j < n ==> (#[trigger] self.shards@[j]).inv(),
                forall|j: int|
                    0 <= j < n ==> (#[trigger] self.shards@[j]).table().len() == old(
                        self,
                    ).shards@[j].table().len(),
                forall|j: int|
                    0 <= j < i ==> (#[trigger] self.shards@[j]).used_slots() == Some(0u64)
                        && self.shards@[j]@ == Map::<Seq<u8>, u64>::empty(),
            decreases n - i,
        {
            let ghost before = self.shards@;
            let s = &mut self.shards[i];
            s.reinit_empty();
            proof {
                assert forall|j: int| 0 <= j < n && j != i implies self.shards@[j] == before[j] by {}
            }
            i += 1;
        }
        proof {
            assert forall|full: Seq<u8>| full.len() == 32 implies (#[trigger] self.word(full))
                is None by {
                crate::scripthash_head::law_prefix_shard_monotone(full, full, n as int);
                let s = self.shards@[prefix_shard(full, n as int)];
                assert(!s@.dom().contains(key16(full)));
            }
        }
    }

    /// Every shard is known to be empty.
    pub open spec fn known_empty(&self) -> bool {
        forall|i: int|
            0 <= i < self.shards@.len() ==> (#[trigger] self.shards@[i]).used_slots() == Some(0u64)
    }

    /// Opens the shards among the files of a directory. The files with two hexadecimal
    /// digits for a name are the shards; in order of their names they must be `00`,
    /// `01`, and so on.
    pub fn open_for_role(role: HeadRole, scale: HeadScale, files: &Vec<HeadShardFile>) -> (r: Result<
        Self,
        StoreError,
    >)
        ensures
            if named(files@, files@.len() as int).len() == 0 {
                r is Err && r->Err_0 == StoreError::Corrupt("sharded scripthash head empty")
            } else if shards_for(role, scale) > 1 && named(files@, files@.len() as int).len()
                != shards_for(role, scale) {
                r is Err && r->Err_0 == StoreError::Corrupt(
                    "scripthash head shard count mismatch (reindex; expected 64-way mainnet layout)",
                )
            } else {
                exists|order: Seq<NamedShard>| #[trigger]
                    is_shard_order(files@, order) && match r {
                        Ok(h) => {
                            &&& h.shards@.len() == order.len()
                            &&& forall|i: int|
                                0 <= i < order.len() ==> shard_fault(files@, #[trigger] order[i], i)
                                    is None && head_opened(
                                    files@[order[i].at as int],
                                    h.shards@[i],
                                )
                        },
                        Err(e) => exists|i: int|
                            0 <= i < order.len() && #[trigger] shard_fault(files@, order[i], i)
                                == Some(e) && forall|j: int|
                                0 <= j < i ==> shard_fault(files@, #[trigger] order[j], j) is None,
                    }
            },
    {
        let list = named_shards(files);
        if list.len() == 0 {
            return Err(StoreError::Corrupt("sharded scripthash head empty"));
        }
        let expected: usize = shard_count_for_role(role, scale);
        if expected > 1 && list.len() != expected {
            return Err(
                StoreError::Corrupt(
                    "scripthash head shard count mismatch (reindex; expected 64-way mainnet layout)",
                ),
            );
        }
        let order = sort_ranked(&list);
        proof {
            assert(is_shard_order(files@, order@));
        }
        let mut shards: Vec<ScriptHashHead> = Vec::new();
        let mut i: usize = 0;
        while i < order.len()
            invariant
                i <= order@.len(),
                shards@.len() == i,
                is_shard_order(files@, order@),
                list@ == named(files@, files@.len() as int),
                files@.len() <= usize::MAX,
                order@.len() == list@.len(),
                list@.len() > 0,
                !(shards_for(role, scale) > 1 && list@.len() != shards_for(role, scale)),
                forall|j: int|
                    0 <= j < i ==> shard_fault(files@, #[trigger] order@[j], j) is None
                        && head_opened(files@[order@[j].at as int], shards@[j]),
            decreases order@.len() - i,
        {
            let o: NamedShard = order[i];
            proof {
                let a = lemma_same_items(order@, list@, i as int);
                lemma_named(files@, files@.len() as int, a);
            }
            if !is_shard_name(o.name, i) {
                assert(shard_fault(files@, order@[i as int], i as int) is Some);
                return Err(
                    StoreError::Corrupt("sharded scripthash head unexpected shard name"),
                );
            }
            match ScriptHashHead::open(files[o.at].slots.as_slice(), files[o.at].used) {
                Ok(h) => {
                    shards.push(h);
                },
                Err(e) => {
                    assert(shard_fault(files@, order@[i as int], i as int) == Some(e));
                    return Err(e);
                },
            }
            i += 1;
        }
        Ok(ShardedScriptHashHead { shards })
    }

    /// Shard of a hash.
    pub fn shard_index(&self, full: &[u8; 32]) -> (r: usize)
        requires
            self.inv(),
        ensures
            r == prefix_shard(full@, self.shards@.len() as int),
            r < self.shards@.len(),
    {
        prefix_shard_of(full, self.shards.len())
    }

    /// Value stored for a hash.
    pub fn get(&self, key: &[u8; 32]) -> (r: Result<Option<ShHeadValue>, StoreError>)
        requires
            self.inv(),
        ensures
            r == head_answer(self.word(key@)),
    {
        let s: usize = self.shard_index(key);
        self.shards[s].get(key)
    }

    /// Stores a value for a hash; an empty one clears it.
    pub fn insert(&mut self, key: &[u8; 32], value: &ShHeadValue) -> (r: Result<(), StoreError>)
        requires
            old(self).inv(),
            forall|i: int|
                0 <= i < old(self).shards@.len() ==> (#[trigger] old(self).shards@[i]).can_take(1),
        ensures
            final(self).inv(),
            final(self).shards@.len() == old(self).shards@.len(),
            r == (match pack8(*value) {
                Err(e) => Err::<(), StoreError>(e),
                Ok(_) => Ok(()),
            }),
            forall|full: Seq<u8>|
                full.len() == 32 ==> #[trigger] final(self).word(full) == (if key16(full) == key16(
                    key@,
                ) && r is Ok {
                    if *value is Empty {
                        None
                    } else {
                        Some(pack8(*value)->Ok_0)
                    }
                } else {
                    old(self).word(full)
                }),
            forall|i: int|
                0 <= i < old(self).shards@.len() && i != prefix_shard(
                    key@,
                    old(self).shards@.len() as int,
                ) ==> #[trigger] final(self).shards@[i] == old(self).shards@[i],
            ({
                let s = prefix_shard(key@, old(self).shards@.len() as int);
                one_stored(&old(self).shards@[s], &final(self).shards@[s], key@, *value, r is Ok)
            }),
    {
        let s: usize = self.shard_index(key);
        let ghost before = self.shards@;
        let h = &mut self.shards[s];
        let done = h.insert(key, value);
        proof {
            let n = before.len() as int;
            assert forall|i: int| 0 <= i < n && i != s implies self.shards@[i] == before[i] by {}
            assert forall|full: Seq<u8>| full.len() == 32 implies #[trigger] self.word(full) == (
            if key16(full) == key16(key@) && done is Ok {
                if *value is Empty {
                    None
                } else {
                    Some(pack8(*value)->Ok_0)
                }
            } else {
                old(self).word(full)
            }) by {
                crate::scripthash_head::law_prefix_shard_monotone(full, full, n);
                let t = prefix_shard(full, n);
                lemma_word_view(before[t], key16(full));
                lemma_word_view(self.shards@[t], key16(full));
                if key16(full) == key16(key@) {
                    assert(full[0] == key16(full)[0]);
                    assert(key@[0] == key16(key@)[0]);
                    assert(t == s);
                }
            }
        }
        done
    }

    /// Clears a hash. True if a slot was used for it.
    pub fn clear_key(&mut self, key: &[u8; 32]) -> (r: bool)
        requires
            old(self).inv(),
        ensures
            final(self).inv(),
            final(self).shards@.len() == old(self).shards@.len(),
            forall|full: Seq<u8>|
                full.len() == 32 ==> #[trigger] final(self).word(full) == (if key16(full) == key16(
                    key@,
                ) {
                    None
                } else {
                    old(self).word(full)
                }),
            r == ({
                let t = old(self).shards@[prefix_shard(
                    key@,
                    old(self).shards@.len() as int,
                )].table();
                find(t, key16(key@)) < t.len() && !slot_empty(t[find_slot(t, key16(key@))])
            }),
            old(self).word(key@) is Some ==> r,
            forall|i: int|
                0 <= i < old(self).shards@.len() && i != prefix_shard(
                    key@,
                    old(self).shards@.len() as int,
                ) ==> #[trigger] final(self).shards@[i] == old(self).shards@[i],
            ({
                let s = prefix_shard(key@, old(self).shards@.len() as int);
                let a = old(self).shards@[s];
                let b = final(self).shards@[s];
                &&& b.used_slots() == a.used_slots()
                &&& b.table() == (if r {
                    a.table().update(
                        find_slot(a.table(), key16(key@)),
                        slot_for(key_of(*key), 0),
                    )
                } else {
                    a.table()
                })
            }),
    {
        let s: usize = self.shard_index(key);
        let ghost before = self.shards@;
        let h = &mut self.shards[s];
        let done = h.clear_key(key);
        proof {
            let n = before.len() as int;
            assert forall|i: int| 0 <= i < n && i != s implies self.shards@[i] == before[i] by {}
            assert forall|full: Seq<u8>| full.len() == 32 implies #[trigger] self.word(full) == (
            if key16(full) == key16(key@) {
                None
            } else {
                old(self).word(full)
            }) by {
                crate::scripthash_head::law_prefix_shard_monotone(full, full, n);
                let t = prefix_shard(full, n);
                lemma_word_view(before[t], key16(full));
                lemma_word_view(self.shards@[t], key16(full));
                if key16(full) == key16(key@) {
                    assert(full[0] == key16(full)[0]);
                    assert(key@[0] == key16(key@)[0]);
                    assert(t == s);
                }
            }
        }
        done
    }

    pub fn shard_count(&self) -> (r: usize)
        ensures
            r == self.shards@.len(),
    {
        self.shards.len()
    }

    /// Slots of the first shard.
    pub fn slots_per_shard(&self) -> (r: u64)
        ensures
            r == (if self.shards@.len() == 0 {
                64
            } else {
                self.shards@[0].table().len()
            }),
    {
        if self.shards.len() == 0 {
            64
        } else {
            self.shards[0].slots()
        }
    }

    /// Slots of all shards.
    pub fn total_slots(&self) -> (r: u64)
        requires
            slots_in(self.shards@) <= u64::MAX,
        ensures
            r == slots_in(self.shards@),
    {
        let mut n: u64 = 0;
        let mut i: usize = 0;
        proof {
            assert(self.shards@.subrange(0, 0) =~= Seq::empty());
        }
        while i < self.shards.len()
            invariant
                i <= self.shards@.len(),
                slots_in(self.shards@) <= u64::MAX,
                n == slots_in(self.shards@.subrange(0, i as int)),
            decreases self.shards@.len() - i,
        {
            proof {
                let p = self.shards@.subrange(0, i + 1);
                assert(p.drop_last() =~= self.shards@.subrange(0, i as int));
                assert(p.last() == self.shards@[i as int]);
                lemma_slots_prefix(self.shards@, i + 1);
            }
            n = n + self.shards[i].slots();
            i += 1;
        }
        proof {
            assert(self.shards@.subrange(0, i as int) =~= self.shards@);
        }
        n
    }

    /// True if every shard is known to be empty.
    pub fn is_empty(&self) -> (r: bool)
        ensures
            r == self.known_empty(),
    {
        let mut i: usize = 0;
        while i < self.shards.len()
            invariant
                i <= self.shards@.len(),
                forall|j: int|
                    0 <= j < i ==> (#[trigger] self.shards@[j]).used_slots() == Some(0u64),
            decreases self.shards@.len() - i,
        {
            if !self.shards[i].is_known_empty() {
                assert(self.shards@[i as int].used_slots() != Some(0u64));
                return false;
            }
            i += 1;
        }
        true
    }

    /// Makes a table that was built in memory the contents of an empty shard. One
    /// without keys changes nothing.
    pub fn install_live_shard(&mut self, shard: usize, live: LiveShardTable) -> (r: Result<
        (),
        StoreError,
    >)
        requires
            old(self).inv(),
            live.inv(),
            live.table().len() <= usize::MAX / 2,
        ensures
            final(self).inv(),
            final(self).shards@.len() == old(self).shards@.len(),
            if shard >= old(self).shards@.len() {
                r == Err::<(), StoreError>(
                    StoreError::Corrupt("scripthash install_live_shard: shard out of range"),
                ) && final(self).shards@ == old(self).shards@
            } else if live.key_count() == 0 && live.used_count() == 0 {
                r == Ok::<(), StoreError>(()) && final(self).shards@ == old(self).shards@
            } else if old(self).shards@[shard as int].used_slots() != Some(0u64) {
                r == Err::<(), StoreError>(
                    StoreError::Corrupt("scripthash live install: shard not empty"),
                ) && final(self).shards@ == old(self).shards@
            } else {
                &&& r == Ok::<(), StoreError>(())
                &&& final(self).shards@[shard as int].table() == live.table()
                &&& final(self).shards@[shard as int].used_slots() == Some(live.used_count())
                &&& forall|i: int|
                    0 <= i < old(self).shards@.len() && i != shard ==> final(self).shards@[i]
                        == old(self).shards@[i]
            },
    {
        if shard >= self.shards.len() {
            return Err(StoreError::Corrupt("scripthash install_live_shard: shard out of range"));
        }
        if live.keys() == 0 && live.occupied() == 0 {
            return Ok(());
        }
        let ghost before = self.shards@;
        let h = &mut self.shards[shard];
        let done = live.install_into(h);
        proof {
            if before[shard as int].used_slots() != Some(0u64) {
                assert(self.shards@ =~= before);
            }
        }
        done
    }
}

/// Slots of the shards.
pub open spec fn slots_in(shards: Seq<ScriptHashHead>) -> nat
    decreases shards.len(),
{
    if shards.len() == 0 {
        0
    } else {
        slots_in(shards.drop_last()) + shards.last().table().len()
    }
}

proof fn lemma_slots_prefix(shards: Seq<ScriptHashHead>, i: int)
    requires
        0 <= i <= shards.len(),
    ensures
        slots_in(shards.subrange(0, i)) <= slots_in(shards),
    decreases shards.len() - i,
{
    if i < shards.len() {
        lemma_slots_prefix(shards, i + 1);
        let p = shards.subrange(0, i + 1);
        assert(p.drop_last() =~= shards.subrange(0, i));
    } else {
        assert(shards.subrange(0, i) =~= shards);
    }
}

proof fn lemma_word_view(h: ScriptHashHead, k: Seq<u8>)
    ensures
        lookup(h.table(), k) == (if h@.dom().contains(k) {
            Some(h@[k])
        } else {
            None
        }),
{
}

} // verus!
