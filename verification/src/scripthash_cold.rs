//! Cold side of the scripthash index: new tables, and what a load from scratch
//! starts from.

use vstd::prelude::*;
use crate::cold_progress::ColdProgress;
use crate::error::StoreError;
use crate::hashhead::{least_pow2, HeadRole, HeadScale};
use crate::primitives::Fk;
use crate::scripthash::{body_index, ingest_oa_slots, ingest_slots, law_empty_heads, lemma_body_index, lemma_pick, lemma_view_holds, sum_live, KeyHome, ScriptHashTable, ShBodyLayout};
use crate::scripthash_body::{kept, kept_below, value_fks, ShBody, SH_BODY_MAX};
use crate::scripthash_bulk::same_creates;
use crate::scripthash_count::{counts_exact, law_live_creates_counted, lemma_count_none};
use crate::scripthash_head::{shard_count_ok, ScriptHashHead};
use crate::scripthash_install::{same_heads, same_other_bodies};
use crate::scripthash_layout::class_bytes;
use crate::scripthash_pack8::{unpack8, unpack8_word};
use crate::scripthash_values::{holds_value, lemma_holds_frame, lemma_holds_read, lemma_value_owned};
use crate::sealed_head::SealedHead;
use crate::sharded_hashhead::{shard_count_for_role, shards_for};
use crate::slot_table::Slot;

verus! {

/// A table without keys.
pub open spec fn is_new(t: &ScriptHashTable) -> bool {
    &&& t.wf()
    &&& t.heads_empty()
    &&& t.live() == 0
    &&& forall|i: int| 0 <= i < t.main@.len() ==> (#[trigger] t.main@[i]) is None
    &&& forall|i: int|
        0 <= i < t.bodies@.len() ==> (#[trigger] t.bodies@[i]).bump == 4096
            && t.bodies@[i].bytes@.len() == 4096
    &&& t.ingest.used_slots() == Some(0u64)
}

proof fn lemma_sum_zero(bodies: Seq<ShBody>)
    requires
        forall|i: int| 0 <= i < bodies.len() ==> (#[trigger] bodies[i]).live_count == 0,
    ensures
        sum_live(bodies) == 0,
    decreases bodies.len(),
{
    if bodies.len() > 0 {
        lemma_sum_zero(bodies.drop_last());
    }
}

/// Empty bodies.
pub(crate) fn empty_bodies(n: usize) -> (r: Vec<ShBody>)
    ensures
        r@.len() == n,
        forall|i: int|
            0 <= i < n ==> (#[trigger] r@[i]).heap_ok() && r@[i].live_count == 0 && r@[i].bump
                == 4096 && r@[i].bytes@.len() == 4096,
{
    let mut v: Vec<ShBody> = Vec::new();
    while v.len() < n
        invariant
            v@.len() <= n,
            forall|i: int|
                0 <= i < v@.len() ==> (#[trigger] v@[i]).heap_ok() && v@[i].live_count == 0
                    && v@[i].bump == 4096 && v@[i].bytes@.len() == 4096,
        decreases n - v@.len(),
    {
        v.push(ShBody::empty());
    }
    v
}

/// Shards that are not sealed.
fn no_shards(n: usize) -> (r: Vec<Option<SealedHead>>)
    ensures
        r@.len() == n,
        forall|i: int| 0 <= i < n ==> (#[trigger] r@[i]) is None,
{
    let mut v: Vec<Option<SealedHead>> = Vec::new();
    while v.len() < n
        invariant
            v@.len() <= n,
            forall|i: int| 0 <= i < v@.len() ==> (#[trigger] v@[i]) is None,
        decreases n - v@.len(),
    {
        v.push(None);
    }
    v
}

impl ScriptHashTable {
    /// A new table with a body for each shard.
    pub fn create(scale: HeadScale) -> (r: Self)
        ensures
            is_new(&r),
            counts_exact(&r),
            r.shape() == (scale, ShBodyLayout::Sharded, shards_for(HeadRole::ScriptHash, scale)),
            r.hwm() == 0,
            least_pow2(r.ingest.table().len() as int, ingest_slots(scale) as int),
            forall|k: Seq<u8>| k.len() == 16 ==> #[trigger] r.creates(k) == Seq::<Fk>::empty(),
    {
        proof {
            assert(vstd::arithmetic::power2::is_pow2(64)) by {
                reveal_with_fuel(vstd::arithmetic::power2::is_pow2, 8);
            }
        }
        Self::create_with_layout(
            scale,
            ShBodyLayout::Sharded,
            shard_count_for_role(HeadRole::ScriptHash, scale),
        )
    }

    /// A new table with a given body layout and number of shards.
    pub fn create_with_layout(scale: HeadScale, layout: ShBodyLayout, n_shards: usize) -> (r: Self)
        requires
            n_shards >= 1,
            shard_count_ok(n_shards as int),
        ensures
            is_new(&r),
            counts_exact(&r),
            r.shape() == (scale, layout, n_shards),
            r.hwm() == 0,
            least_pow2(r.ingest.table().len() as int, ingest_slots(scale) as int),
            forall|k: Seq<u8>| k.len() == 16 ==> #[trigger] r.creates(k) == Seq::<Fk>::empty(),
    {
        let n_bodies: usize = match layout {
            ShBodyLayout::Shared => 1,
            ShBodyLayout::Sharded => n_shards + 1,
        };
        let t = ScriptHashTable {
            scale,
            layout,
            n_shards,
            bodies: empty_bodies(n_bodies),
            main: no_shards(n_shards),
            ingest: ScriptHashHead::create_with_slots(ingest_oa_slots(scale)),
            sealed_ovf: Vec::new(),
            ovf_l1: None,
            include_hwm: 0,
        };
        proof {
            lemma_new(&t);
        }
        t
    }
}

proof fn lemma_new(t: &ScriptHashTable)
    requires
        t.parts_ok(),
        t.heads_empty(),
        t.ingest@ == Map::<Seq<u8>, u64>::empty(),
        forall|i: int| 0 <= i < t.main@.len() ==> (#[trigger] t.main@[i]) is None,
        forall|i: int|
            0 <= i < t.bodies@.len() ==> (#[trigger] t.bodies@[i]).bump == 4096
                && t.bodies@[i].bytes@.len() == 4096 && t.bodies@[i].live_count == 0,
    ensures
        is_new(t),
        counts_exact(t),
        forall|k: Seq<u8>| k.len() == 16 ==> #[trigger] t.creates(k) == Seq::<Fk>::empty(),
{
    lemma_sum_zero(t.bodies@);
    assert forall|k: Seq<u8>| k.len() == 16 implies #[trigger] t.key_sound(k) by {
        assert(t.located(k) is None);
    }
    assert(t.homes_apart()) by {
        reveal(crate::scripthash::sealed_apart);
    }
    assert forall|k: Seq<u8>| k.len() == 16 implies #[trigger] t.creates(k)
        == Seq::<Fk>::empty() by {
        law_empty_heads(t, k);
    }
    lemma_count_none(t);
}

impl ScriptHashTable {
    /// Wipes bodies and heads for a load from scratch.
    ///
    /// This is not bound to a count above zero: a load that broke off can leave keys
    /// in the heads while the counters say 0.
    pub fn reinit_empty_for_cold_materialize(&mut self)
        requires
            old(self).parts_ok(),
        ensures
            is_new(final(self)),
            counts_exact(final(self)),
            final(self).shape() == old(self).shape(),
            final(self).hwm() == old(self).hwm(),
            final(self).ingest.table().len() == old(self).ingest.table().len(),
            forall|k: Seq<u8>| k.len() == 16 ==> #[trigger] final(self).creates(k)
                == Seq::<Fk>::empty(),
    {
        self.bodies = empty_bodies(self.bodies.len());
        self.main = no_shards(self.n_shards);
        self.sealed_ovf = Vec::new();
        self.ovf_l1 = None;
        self.ingest.reinit_empty();
        proof {
            lemma_new(self);
        }
    }
}

impl ScriptHashTable {
    /// First main shard that is not sealed (the number of shards if all are).
    pub open spec fn first_unsealed(&self, from: int) -> int
        decreases self.main@.len() - from,
    {
        if from < 0 || from >= self.main@.len() {
            self.main@.len() as int
        } else if self.main@[from] is None {
            from
        } else {
            self.first_unsealed(from + 1)
        }
    }

    /// Progress of a load whose shards have bodies of their own: every sealed shard
    /// counts, and the mark is the first that is not.
    pub fn store_sharded_cold_progress(&self, keys_written: u64, live_count: u64) -> (r:
        ColdProgress)
        requires
            self.wf(),
        ensures
            r == (ColdProgress {
                next_shard: self.first_unsealed(0) as u32,
                body_bump: 0,
                live_count,
                keys_written,
            }),
    {
        let mut i: usize = 0;
        while i < self.main.len() && self.main[i].is_some()
            invariant
                i <= self.main@.len(),
                self.first_unsealed(0) == self.first_unsealed(i as int),
            decreases self.main@.len() - i,
        {
            i += 1;
        }
        ColdProgress { next_shard: i as u32, body_bump: 0, live_count, keys_written }
    }

    /// Sets all counters to 0 and keeps the heads: the state after a load that broke
    /// off between its last head and its counters.
    pub fn test_zero_live_count_keep_head(&mut self)
        requires
            old(self).wf(),
        ensures
            final(self).wf(),
            same_heads(old(self), final(self)),
            same_creates(old(self), final(self)),
            final(self).live() == 0,
            final(self).bodies@.len() == old(self).bodies@.len(),
            forall|i: int|
                0 <= i < old(self).bodies@.len() ==> (#[trigger] final(self).bodies@[i]) == (
                ShBody { live_count: 0, ..old(self).bodies@[i] }),
    {
        let ghost t0 = *self;
        let mut i: usize = 0;
        while i < self.bodies.len()
            invariant
                i <= self.bodies@.len(),
                t0 == *old(self),
                self.wf(),
                same_heads(&t0, self),
                same_creates(&t0, self),
                self.bodies@.len() == t0.bodies@.len(),
                forall|j: int|
                    0 <= j < self.bodies@.len() ==> (#[trigger] self.bodies@[j]) == (if j < i {
                        ShBody { live_count: 0, ..t0.bodies@[j] }
                    } else {
                        t0.bodies@[j]
                    }),
            decreases self.bodies@.len() - i,
        {
            let ghost t1 = *self;
            self.set_live(i, 0);
            proof {
                assert forall|j: int| 0 <= j < self.bodies@.len() implies (
                #[trigger] self.bodies@[j]) == (if j < i + 1 {
                    ShBody { live_count: 0, ..t0.bodies@[j] }
                } else {
                    t0.bodies@[j]
                }) by {
                    if j != i {
                        assert(self.bodies@[j] == t1.bodies@[j]);
                    } else {
                        assert(t1.bodies@[j] == t0.bodies@[j]);
                    }
                }
                assert forall|k: Seq<u8>| k.len() == 16 implies #[trigger] self.creates(k)
                    == t0.creates(k) by {
                    assert(self.creates(k) == t1.creates(k));
                    assert(t1.creates(k) == t0.creates(k));
                }
            }
            i += 1;
        }
        proof {
            lemma_sum_zero(self.bodies@);
        }
    }
}

/// The blocks of every key lie below `bump`.
pub open spec fn keys_below(t: &ScriptHashTable, bump: int) -> bool {
    forall|k: Seq<u8>|
        k.len() == 16 ==> ((#[trigger] t.located(k)) matches Some((w, h)) ==> sound_below(
            &t.body_at(k, h),
            unpack8(w)->Ok_0,
            k,
            bump,
        ))
}

/// Blocks below `bump` make the value sound.
pub open spec fn sound_below(
    b: &ShBody,
    v: crate::scripthash_layout::ShHeadValue,
    k: Seq<u8>,
    bump: int,
) -> bool {
    exists|pages: Seq<int>, fks: Seq<Fk>| #[trigger]
        holds_value(b, v, k, pages, fks) && forall|i: int|
            0 <= i < pages.len() ==> (#[trigger] pages[i]) + class_bytes(
                b.blocks@[pages[i]].class,
            ) <= bump
}

/// End of the body that a progress mark stands for.
pub open spec fn progress_bump(p: ColdProgress) -> u64 {
    if p.body_bump < 4096 {
        4096
    } else {
        p.body_bump
    }
}

impl ScriptHashTable {
    /// Prepares a table for a load that goes on from a progress mark.
    ///
    /// With one body for all shards the body ends at the mark. With a body for each
    /// shard the sealed shards are kept, and the bodies of the others are emptied.
    ///
    /// A mark that was stored when a shard was sealed lies behind the blocks of all keys,
    /// and then every key keeps its creates.
    pub fn prepare_cold_resume(&mut self, progress: &ColdProgress) -> (r: Result<(), StoreError>)
        requires
            old(self).wf(),
            old(self).layout == ShBodyLayout::Shared ==> progress_bump(*progress) <= SH_BODY_MAX
                && progress_bump(*progress) <= usize::MAX,
        ensures
            final(self).parts_ok(),
            final(self).homes_apart(),
            same_heads(old(self), final(self)),
            r is Err || old(self).layout == ShBodyLayout::Sharded || keys_below(
                old(self),
                progress_bump(*progress) as int,
            ) ==> final(self).wf() && same_creates(old(self), final(self)),
            match r {
                Ok(_) => {
                    &&& progress.next_shard <= old(self).n_shards
                    &&& match old(self).layout {
                        ShBodyLayout::Shared => {
                            let b = final(self).bodies@[0];
                            &&& same_other_bodies(old(self), final(self), 0)
                            &&& b.bump == progress_bump(*progress)
                            &&& b.live_count == progress.live_count
                            &&& b.bytes@.len() == b.bump
                            &&& b.free_head@ == Seq::new(25, |i: int| 0u64)
                            &&& kept_below(&old(self).bodies@[0], &b, b.bump as int)
                        },
                        ShBodyLayout::Sharded => forall|i: int|
                            0 <= i < final(self).bodies@.len() ==> {
                                let b = #[trigger] final(self).bodies@[i];
                                if i < old(self).n_shards && old(self).main@[i] is None {
                                    b.bump == 4096 && b.live_count == 0
                                } else {
                                    b == old(self).bodies@[i]
                                }
                            },
                    }
                },
                Err(e) => {
                    &&& progress.next_shard > old(self).n_shards
                    &&& e == StoreError::Corrupt("scripthash cold progress next_shard out of range")
                    &&& *final(self) == *old(self)
                },
            },
    {
        if progress.next_shard as u64 > self.n_shards as u64 {
            return Err(
                StoreError::Corrupt("scripthash cold progress next_shard out of range"),
            );
        }
        let ghost t0 = *self;
        match self.layout {
            ShBodyLayout::Shared => {
                let bump: u64 = if progress.body_bump < 4096 {
                    4096
                } else {
                    progress.body_bump
                };
                {
                    let b = &mut self.bodies[0];
                    b.roll_back(bump);
                }
                let ghost t1 = *self;
                let b = &mut self.bodies[0];
                b.live_count = progress.live_count;
                proof {
                    let x = t0.bodies@[0];
                    let y = self.bodies@[0];
                    assert(y.heap_ok());
                    assert(kept_below(&x, &y, bump as int)) by {
                        assert(kept_below(&x, &t1.bodies@[0], bump as int));
                        lemma_counter_kept(&x, &t1.bodies@[0], &y, bump as int);
                    }
                    if keys_below(&t0, bump as int) {
                        lemma_below_kept(&t0, self, bump as int);
                    }
                }
            },
            ShBodyLayout::Sharded => {
                let n: usize = self.n_shards;
                let mut i: usize = 0;
                while i < n
                    invariant
                        i <= n,
                        t0 == *old(self),
                        t0.wf(),
                        t0.layout == ShBodyLayout::Sharded,
                        n == t0.n_shards,
                        same_heads(&t0, self),
                        self.bodies@.len() == t0.bodies@.len(),
                        forall|j: int|
                            0 <= j < self.bodies@.len() ==> {
                                let b = #[trigger] self.bodies@[j];
                                if j < i && t0.main@[j] is None {
                                    b.bump == 4096 && b.live_count == 0 && b.heap_ok()
                                } else {
                                    b == t0.bodies@[j]
                                }
                            },
                    decreases n - i,
                {
                    if self.main[i].is_none() {
                        self.bodies.set(i, ShBody::empty());
                    }
                    i += 1;
                }
                proof {
                    lemma_emptied(&t0, self);
                }
            },
        }
        Ok(())
    }
}

/// The counter does not matter for the blocks.
proof fn lemma_counter_kept(x: &ShBody, y: &ShBody, z: &ShBody, bump: int)
    requires
        kept_below(x, y, bump),
        z.blocks@ == y.blocks@,
        z.bytes@ == y.bytes@,
    ensures
        kept_below(x, z, bump),
{
    assert forall|o: int| #[trigger] x.blocks@.dom().contains(o) && x.blocks@[o].owner is Some
        && o + class_bytes(x.blocks@[o].class) <= bump implies kept(x, z, o) by {
        assert(kept(x, y, o));
    }
}

/// Keys whose blocks lie below the new end keep their creates.
proof fn lemma_below_kept(a: &ScriptHashTable, b: &ScriptHashTable, bump: int)
    requires
        a.wf(),
        a.layout == ShBodyLayout::Shared,
        keys_below(a, bump),
        same_heads(a, b),
        b.bodies@.len() == a.bodies@.len(),
        b.bodies@[0].heap_ok(),
        kept_below(&a.bodies@[0], &b.bodies@[0], bump),
    ensures
        b.wf(),
        same_creates(a, b),
{
    assert forall|k: Seq<u8>| #[trigger] b.located(k) == a.located(k) by {}
    assert forall|k: Seq<u8>| k.len() == 16 implies #[trigger] b.key_sound(k) && b.creates(k)
        == a.creates(k) by {
        assert(a.key_sound(k));
        assert(b.located(k) == a.located(k));
        if let Some((w, h)) = a.located(k) {
            let v = unpack8(w)->Ok_0;
            let x = a.bodies@[0];
            let y = b.bodies@[0];
            assert(sound_below(&a.body_at(k, h), v, k, bump));
            let (pages, fks) = choose|pages: Seq<int>, fks: Seq<Fk>| #[trigger]
                holds_value(&x, v, k, pages, fks) && forall|i: int|
                    0 <= i < pages.len() ==> (#[trigger] pages[i]) + class_bytes(
                        x.blocks@[pages[i]].class,
                    ) <= bump;
            assert forall|i: int| 0 <= i < pages.len() implies kept(&x, &y, #[trigger] pages[i]) by {
                lemma_value_owned(&x, v, k, pages, fks, i);
            }
            lemma_holds_frame(&x, &y, v, k, pages, fks);
            lemma_view_holds(&x, v, k, pages, fks);
            lemma_view_holds(&y, v, k, pages, fks);
        }
    }
    assert(b.parts_ok());
    assert(b.homes_apart());
    assert forall|k: Seq<u8>| k.len() == 16 implies #[trigger] b.creates(k) == a.creates(k) by {
        assert(b.key_sound(k));
    }
}

/// Bodies of shards that are not sealed hold no key.
proof fn lemma_emptied(a: &ScriptHashTable, b: &ScriptHashTable)
    requires
        a.wf(),
        a.layout == ShBodyLayout::Sharded,
        same_heads(a, b),
        b.bodies@.len() == a.bodies@.len(),
        forall|j: int|
            0 <= j < b.bodies@.len() ==> {
                let y = #[trigger] b.bodies@[j];
                if j < a.n_shards && a.main@[j] is None {
                    y.heap_ok()
                } else {
                    y == a.bodies@[j]
                }
            },
    ensures
        b.wf(),
        same_creates(a, b),
{
    assert forall|k: Seq<u8>| #[trigger] b.located(k) == a.located(k) by {}
    assert(b.parts_ok()) by {
        assert forall|i: int| 0 <= i < b.bodies@.len() implies (
        #[trigger] b.bodies@[i]).heap_ok() by {
            assert(a.bodies@[i].heap_ok());
        }
    }
    assert(b.homes_apart());
    assert forall|k: Seq<u8>| k.len() == 16 implies #[trigger] b.key_sound(k) && b.creates(k)
        == a.creates(k) by {
        assert(a.key_sound(k));
        assert(b.located(k) == a.located(k));
        lemma_body_index(a, k, KeyHome::Main);
        if let Some((w, h)) = a.located(k) {
            let bi = body_index(a.layout, a.n_shards as int, k, h);
            assert(b.bodies@[bi] == a.bodies@[bi]);
        }
    }
    assert forall|k: Seq<u8>| k.len() == 16 implies #[trigger] b.creates(k) == a.creates(k) by {
        assert(b.key_sound(k));
    }
}

/// The creates that the records of a head name, one record after the other.
pub open spec fn recs_fks(recs: Seq<Slot>, bytes: Seq<u8>) -> Result<Seq<Fk>, StoreError>
    decreases recs.len(),
{
    if recs.len() == 0 {
        Ok(Seq::empty())
    } else {
        match recs_fks(recs.drop_last(), bytes) {
            Err(e) => Err(e),
            Ok(l) => match unpack8(recs.last().word) {
                Err(e) => Err(e),
                Ok(v) => match value_fks(bytes, v) {
                    Err(e) => Err(e),
                    Ok(f) => Ok(l + f),
                },
            },
        }
    }
}

/// One list of creates behind another, or the first error.
pub open spec fn joined(
    a: Result<Seq<Fk>, StoreError>,
    b: Result<Seq<Fk>, StoreError>,
) -> Result<Seq<Fk>, StoreError> {
    match a {
        Err(e) => Err(e),
        Ok(x) => match b {
            Err(e) => Err(e),
            Ok(y) => Ok(x + y),
        },
    }
}

/// Creates of the first `i` main shards.
pub open spec fn main_fks(t: &ScriptHashTable, i: int) -> Result<Seq<Fk>, StoreError>
    decreases i,
{
    if i <= 0 {
        Ok(Seq::empty())
    } else {
        match t.main@[i - 1] {
            None => main_fks(t, i - 1),
            Some(h) => joined(
                main_fks(t, i - 1),
                recs_fks(
                    h.records(),
                    t.bodies@[crate::scripthash_install::main_body(t.layout, i - 1)].bytes@,
                ),
            ),
        }
    }
}

/// Bytes of the body that the overflow heads use.
pub open spec fn ovf_bytes(t: &ScriptHashTable) -> Seq<u8> {
    t.bodies@[t.bodies@.len() - 1].bytes@
}

/// Creates of the main shards and of the first `i` overflow heads.
pub open spec fn sealed_fks(t: &ScriptHashTable, i: int) -> Result<Seq<Fk>, StoreError>
    decreases i,
{
    if i <= 0 {
        main_fks(t, t.main@.len() as int)
    } else {
        joined(sealed_fks(t, i - 1), recs_fks(t.sealed_ovf@[i - 1].records(), ovf_bytes(t)))
    }
}

/// Creates of all sealed heads.
pub open spec fn l1_fks(t: &ScriptHashTable) -> Result<Seq<Fk>, StoreError> {
    match t.ovf_l1 {
        None => sealed_fks(t, t.sealed_ovf@.len() as int),
        Some(h) => joined(
            sealed_fks(t, t.sealed_ovf@.len() as int),
            recs_fks(h.records(), ovf_bytes(t)),
        ),
    }
}

/// The records of the ingest head in key order.
pub open spec fn ingest_recs(t: &ScriptHashTable, recs: Seq<Slot>) -> bool {
    &&& crate::sealed_head::keys_rise(recs)
    &&& forall|k: Seq<u8>| #[trigger]
        crate::sealed_head::sealed_word(recs, k) == crate::slot_table::lookup(t.ingest.table(), k)
}

/// Appends the creates of records to a list.
fn push_recs(recs: &Vec<Slot>, body: &ShBody, out: &mut Vec<Fk>) -> (r: Result<(), StoreError>)
    ensures
        match r {
            Ok(_) => recs_fks(recs@, body.bytes@) is Ok && final(out)@ == old(out)@ + recs_fks(
                recs@,
                body.bytes@,
            )->Ok_0,
            Err(e) => recs_fks(recs@, body.bytes@) == Err::<Seq<Fk>, StoreError>(e),
        },
{
    let ghost start = out@;
    let mut i: usize = 0;
    proof {
        assert(recs@.subrange(0, 0) =~= Seq::empty());
        assert(start + Seq::<Fk>::empty() =~= start);
    }
    while i < recs.len()
        invariant
            i <= recs@.len(),
            start == old(out)@,
            recs_fks(recs@.subrange(0, i as int), body.bytes@) is Ok,
            out@ == start + recs_fks(recs@.subrange(0, i as int), body.bytes@)->Ok_0,
        decreases recs@.len() - i,
    {
        let ghost before = out@;
        proof {
            let p = recs@.subrange(0, i + 1);
            assert(p.drop_last() =~= recs@.subrange(0, i as int));
            assert(p.last() == recs@[i as int]);
            lemma_recs_prefix(recs@, body.bytes@, i + 1);
        }
        let val = match unpack8_word(recs[i].word) {
            Ok(v) => v,
            Err(e) => {
                return Err(e);
            },
        };
        let mut fks = match body.collect_entries_from(&val) {
            Ok(f) => f,
            Err(e) => {
                return Err(e);
            },
        };
        let ghost f = fks@;
        out.append(&mut fks);
        proof {
            assert(out@ =~= start + recs_fks(recs@.subrange(0, i + 1), body.bytes@)->Ok_0);
        }
        i += 1;
    }
    proof {
        assert(recs@.subrange(0, i as int) =~= recs@);
    }
    Ok(())
}

/// An error among the first records is the error of all.
proof fn lemma_recs_prefix(recs: Seq<Slot>, bytes: Seq<u8>, i: int)
    requires
        0 <= i <= recs.len(),
    ensures
        recs_fks(recs.subrange(0, i), bytes) is Err ==> recs_fks(recs, bytes) == recs_fks(
            recs.subrange(0, i),
            bytes,
        ),
    decreases recs.len() - i,
{
    if i < recs.len() {
        lemma_recs_prefix(recs, bytes, i + 1);
        let p = recs.subrange(0, i + 1);
        assert(p.drop_last() =~= recs.subrange(0, i));
    } else {
        assert(recs.subrange(0, i) =~= recs);
    }
}

/// Records of a sealed head.
pub(crate) fn head_recs(h: &SealedHead) -> (r: Vec<Slot>)
    ensures
        r@ == h.records(),
{
    let mut v: Vec<Slot> = Vec::new();
    let mut i: usize = 0;
    while i < h.len()
        invariant
            i <= h.records().len(),
            v@ == h.records().subrange(0, i as int),
        decreases h.records().len() - i,
    {
        v.push(h.record(i));
        proof {
            assert(v@ =~= h.records().subrange(0, i + 1));
        }
        i += 1;
    }
    proof {
        assert(h.records().subrange(0, i as int) =~= h.records());
    }
    v
}

impl ScriptHashTable {
    /// All creates of the sealed heads.
    fn sealed_creates(&self) -> (r: Result<Vec<Fk>, StoreError>)
        requires
            self.wf(),
        ensures
            match r {
                Ok(v) => l1_fks(self) == Ok::<Seq<Fk>, StoreError>(v@),
                Err(e) => l1_fks(self) == Err::<Seq<Fk>, StoreError>(e),
            },
    {
        let mut out: Vec<Fk> = Vec::new();
        let n: usize = self.main.len();
        let mut i: usize = 0;
        proof {
            assert(out@ =~= Seq::empty());
        }
        while i < n
            invariant
                i <= n,
                n == self.main@.len(),
                self.wf(),
                main_fks(self, i as int) == Ok::<Seq<Fk>, StoreError>(out@),
            decreases n - i,
        {
            if let Some(h) = &self.main[i] {
                let bi: usize = self.main_body_index(i);
                let recs = head_recs(h);
                match push_recs(&recs, &self.bodies[bi], &mut out) {
                    Ok(_) => {},
                    Err(e) => {
                        proof {
                            lemma_main_err(self, i + 1, self.main@.len() as int);
                            lemma_sealed_err(self, 0, self.sealed_ovf@.len() as int);
                        }
                        return Err(e);
                    },
                }
            }
            i += 1;
        }
        let ob: usize = self.bodies.len() - 1;
        let m: usize = self.sealed_ovf.len();
        i = 0;
        while i < m
            invariant
                i <= m,
                m == self.sealed_ovf@.len(),
                self.wf(),
                ob == self.bodies@.len() - 1,
                sealed_fks(self, i as int) == Ok::<Seq<Fk>, StoreError>(out@),
            decreases m - i,
        {
            let recs = head_recs(&self.sealed_ovf[i]);
            match push_recs(&recs, &self.bodies[ob], &mut out) {
                Ok(_) => {},
                Err(e) => {
                    proof {
                        lemma_sealed_err(self, i + 1, self.sealed_ovf@.len() as int);
                    }
                    return Err(e);
                },
            }
            i += 1;
        }
        if let Some(h) = &self.ovf_l1 {
            let recs = head_recs(h);
            match push_recs(&recs, &self.bodies[ob], &mut out) {
                Ok(_) => {},
                Err(e) => {
                    return Err(e);
                },
            }
        }
        Ok(out)
    }

    /// Every live create: those of the main shards, of the overflow heads and of the
    /// ingest head.
    pub fn for_each_live_create(&self) -> (r: Result<Vec<Fk>, StoreError>)
        requires
            self.wf(),
        ensures
            exists|recs: Seq<Slot>| #[trigger]
                ingest_recs(self, recs) && match r {
                    Ok(v) => joined(l1_fks(self), recs_fks(recs, ovf_bytes(self))) == Ok::<
                        Seq<Fk>,
                        StoreError,
                    >(v@),
                    Err(e) => joined(l1_fks(self), recs_fks(recs, ovf_bytes(self))) == Err::<
                        Seq<Fk>,
                        StoreError,
                    >(e),
                },
            counts_exact(self) && r is Ok ==> r->Ok_0@.len() == self.live(),
    {
        let recs = self.ingest.sealed_records();
        proof {
            assert(ingest_recs(self, recs@));
        }
        let mut out = match self.sealed_creates() {
            Ok(v) => v,
            Err(e) => {
                return Err(e);
            },
        };
        let ob: usize = self.bodies.len() - 1;
        match push_recs(&recs, &self.bodies[ob], &mut out) {
            Ok(_) => {},
            Err(e) => {
                return Err(e);
            },
        }
        proof {
            if counts_exact(self) {
                law_live_creates_counted(self, recs@, out@);
            }
        }
        Ok(out)
    }
}

proof fn lemma_main_err(t: &ScriptHashTable, i: int, n: int)
    requires
        0 <= i <= n,
        main_fks(t, i) is Err,
    ensures
        main_fks(t, n) == main_fks(t, i),
    decreases n - i,
{
    if i < n {
        lemma_main_err(t, i, n - 1);
    }
}

proof fn lemma_sealed_err(t: &ScriptHashTable, i: int, n: int)
    requires
        0 <= i <= n,
        sealed_fks(t, i) is Err,
    ensures
        sealed_fks(t, n) == sealed_fks(t, i),
    decreases n - i,
{
    if i < n {
        lemma_sealed_err(t, i, n - 1);
    }
}

proof fn lemma_recs_have(recs: Seq<Slot>, bytes: Seq<u8>, i: int, x: Fk)
    requires
        recs_fks(recs, bytes) is Ok,
        0 <= i < recs.len(),
        unpack8(recs[i].word) is Ok,
        value_fks(bytes, unpack8(recs[i].word)->Ok_0) is Ok,
        value_fks(bytes, unpack8(recs[i].word)->Ok_0)->Ok_0.contains(x),
    ensures
        recs_fks(recs, bytes)->Ok_0.contains(x),
    decreases recs.len(),
{
    let d = recs.drop_last();
    let l = recs_fks(d, bytes)->Ok_0;
    let f = value_fks(bytes, unpack8(recs.last().word)->Ok_0)->Ok_0;
    if i == recs.len() - 1 {
        let j = choose|j: int| 0 <= j < f.len() && f[j] == x;
        assert((l + f)[l.len() + j] == x);
    } else {
        assert(d[i] == recs[i]);
        lemma_recs_have(d, bytes, i, x);
        let j = choose|j: int| 0 <= j < l.len() && l[j] == x;
        assert((l + f)[j] == x);
    }
}

proof fn lemma_join_has(a: Result<Seq<Fk>, StoreError>, b: Result<Seq<Fk>, StoreError>, x: Fk)
    requires
        joined(a, b) is Ok,
        a->Ok_0.contains(x) || b->Ok_0.contains(x),
    ensures
        joined(a, b)->Ok_0.contains(x),
{
    let p = a->Ok_0;
    let q = b->Ok_0;
    if p.contains(x) {
        let j = choose|j: int| 0 <= j < p.len() && p[j] == x;
        assert((p + q)[j] == x);
    } else {
        let j = choose|j: int| 0 <= j < q.len() && q[j] == x;
        assert((p + q)[p.len() + j] == x);
    }
}

proof fn lemma_main_has(t: &ScriptHashTable, s: int, n: int, x: Fk)
    requires
        0 <= s < n <= t.main@.len(),
        main_fks(t, n) is Ok,
        t.main@[s] is Some,
        ({
            let r = recs_fks(
                t.main@[s]->0.records(),
                t.bodies@[crate::scripthash_install::main_body(t.layout, s)].bytes@,
            );
            r is Ok ==> r->Ok_0.contains(x)
        }),
    ensures
        main_fks(t, n)->Ok_0.contains(x),
    decreases n,
{
    if s < n - 1 {
        lemma_main_has(t, s, n - 1, x);
        if let Some(h) = t.main@[n - 1] {
            lemma_join_has(
                main_fks(t, n - 1),
                recs_fks(
                    h.records(),
                    t.bodies@[crate::scripthash_install::main_body(t.layout, n - 1)].bytes@,
                ),
                x,
            );
        }
    } else {
        lemma_join_has(
            main_fks(t, n - 1),
            recs_fks(
                t.main@[s]->0.records(),
                t.bodies@[crate::scripthash_install::main_body(t.layout, s)].bytes@,
            ),
            x,
        );
    }
}

proof fn lemma_sealed_has_fk(t: &ScriptHashTable, s: int, n: int, x: Fk)
    requires
        -1 <= s < n <= t.sealed_ovf@.len() || (s == -1 && n == 0),
        sealed_fks(t, n) is Ok,
        s >= 0 ==> ({
            let r = recs_fks(t.sealed_ovf@[s].records(), ovf_bytes(t));
            r is Ok ==> r->Ok_0.contains(x)
        }),
        s == -1 ==> (main_fks(t, t.main@.len() as int) is Ok ==> main_fks(
            t,
            t.main@.len() as int,
        )->Ok_0.contains(x)),
    ensures
        sealed_fks(t, n)->Ok_0.contains(x),
    decreases n,
{
    if n > 0 {
        let r = recs_fks(t.sealed_ovf@[n - 1].records(), ovf_bytes(t));
        if s < n - 1 {
            lemma_sealed_has_fk(t, s, n - 1, x);
        }
        lemma_join_has(sealed_fks(t, n - 1), r, x);
    }
}

/// Every create of every key is among the live creates.
pub proof fn law_live_creates_complete(
    t: &ScriptHashTable,
    recs: Seq<Slot>,
    k: Seq<u8>,
    x: Fk,
)
    requires
        t.wf(),
        k.len() == 16,
        ingest_recs(t, recs),
        joined(l1_fks(t), recs_fks(recs, ovf_bytes(t))) is Ok,
        t.creates(k).contains(x),
    ensures
        joined(l1_fks(t), recs_fks(recs, ovf_bytes(t)))->Ok_0.contains(x),
{
    assert(t.key_sound(k));
    lemma_body_index(t, k, KeyHome::Main);
    let (w, h) = t.located(k)->0;
    let b = t.body_at(k, h);
    let v = unpack8(w)->Ok_0;
    lemma_body_index(t, k, h);
    let (pages, fks) = lemma_pick(&b, v, k);
    lemma_view_holds(&b, v, k, pages, fks);
    lemma_holds_read(&b, v, k, pages, fks);
    let ing = recs_fks(recs, ovf_bytes(t));
    if h == KeyHome::Ingest {
        assert(crate::sealed_head::sealed_word(recs, k) == Some(w));
        let i = crate::sealed_head::lemma_sealed_has(recs, k);
        lemma_value_ok(recs, b.bytes@, i);
        lemma_recs_have(recs, b.bytes@, i, x);
        lemma_join_has(l1_fks(t), ing, x);
    } else {
        let n = t.sealed_ovf@.len() as int;
        if crate::sealed_head::newest_word(t.sealed_ovf@, k) is Some {
            let s = crate::sealed_head::lemma_newest_some(t.sealed_ovf@, k);
            let rs = t.sealed_ovf@[s].records();
            let i = crate::sealed_head::lemma_sealed_has(rs, k);
            if recs_fks(rs, b.bytes@) is Ok {
                lemma_value_ok(rs, b.bytes@, i);
                lemma_recs_have(rs, b.bytes@, i, x);
            }
            lemma_sealed_has_fk(t, s, n, x);
        } else if crate::scripthash::l1_word(t.ovf_l1, k) is Some {
            let rs = t.ovf_l1->0.records();
            let i = crate::sealed_head::lemma_sealed_has(rs, k);
            lemma_value_ok(rs, b.bytes@, i);
            lemma_recs_have(rs, b.bytes@, i, x);
        } else {
            let s = crate::scripthash_head::prefix_shard(k, t.n_shards as int);
            let rs = t.main@[s]->0.records();
            let i = crate::sealed_head::lemma_sealed_has(rs, k);
            if recs_fks(rs, b.bytes@) is Ok {
                lemma_value_ok(rs, b.bytes@, i);
                lemma_recs_have(rs, b.bytes@, i, x);
            }
            if main_fks(t, t.main@.len() as int) is Ok {
                lemma_main_has(t, s, t.main@.len() as int, x);
            }
            lemma_sealed_has_fk(t, -1, n, x);
        }
        if let Some(g) = t.ovf_l1 {
            lemma_join_has(sealed_fks(t, n), recs_fks(g.records(), ovf_bytes(t)), x);
        }
        lemma_join_has(l1_fks(t), ing, x);
    }
}

/// Every record of a list that reads reads.
proof fn lemma_value_ok(recs: Seq<Slot>, bytes: Seq<u8>, i: int)
    requires
        recs_fks(recs, bytes) is Ok,
        0 <= i < recs.len(),
    ensures
        unpack8(recs[i].word) is Ok,
        value_fks(bytes, unpack8(recs[i].word)->Ok_0) is Ok,
    decreases recs.len(),
{
    if i < recs.len() - 1 {
        assert(recs.drop_last()[i] == recs[i]);
        lemma_value_ok(recs.drop_last(), bytes, i);
    }
}

} // verus!
