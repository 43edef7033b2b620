//! Cold load of the scripthash index: keys come in order of their hashes, and the
//! creates of each key in their own order.
//!
//! The order of the hashes is the order of the shards. The records of a shard are
//! collected and become its sealed head when the first key of a later shard comes.
//! A load that is broken off leaves the shards that were sealed.

use vstd::prelude::*;
use crate::bytes::bytes_at;
use crate::cold_progress::ColdProgress;
use crate::error::StoreError;
use crate::hashhead::HeadScale;
use crate::primitives::Fk;
use crate::scripthash::{ScriptHashTable, ShBodyLayout};
use crate::scripthash_body::{kept, kept_below, kept_but, ShBody};
use crate::scripthash_count::{counts_exact, lemma_count_flush, lemma_tallies_step, tallies};
use crate::scripthash_head::{key16, prefix_shard, prefix_shard_of, sh_per_shard_key_budget, sh_unique_hint_default, shard_budget};
use crate::scripthash_install::{has_key, in_ovf, installed, installed_first, lemma_recs_kept, lemma_table_kept, main_body, rec_sound, recs_sound, same_heads, same_other_bodies, same_ovf};
use crate::scripthash_layout::{head_key_from_full, ShEntry, ShHeadValue};
use crate::scripthash_pack8::{pack8_word, unpack8};
use crate::scripthash_stream::{open_fks, open_room, stream_ok, BulkOpenKey};
use crate::scripthash_values::{holds_value, is_packing, lemma_kept_trans, lemma_packable, sat_add, sat_add_u64, sat_sub};
use crate::segmented_head::{rising, sort_dedup};
use crate::slot_table::Slot;
use crate::sorting::{be_nat, sorted_by_rank};

verus! {

/// A cold load.
pub struct ScriptHashBulkSession {
    /// Packs one shard and leaves the sealing to its caller.
    pub pack_only: bool,
    pub active_shard: Option<usize>,
    /// Keys of earlier shards are skipped.
    pub resume_from_shard: u32,
    pub live_count: u64,
    pub committed_live_count: u64,
    pub committed_keys: u64,
    pub keys_written: u64,
    pub shards_flushed: u32,
    pub max_fk: u64,
    /// Most bytes that the records of one shard took.
    pub peak_table_bytes: usize,
    pub key_budget: u64,
    /// End of the active shard's body when the shard was started.
    pub shard_start_bump: u64,
    /// What to store for a restart, once a shard is sealed.
    pub progress: Option<ColdProgress>,
    pub recs: Vec<Slot>,
    pub open_key: Option<BulkOpenKey>,
    /// The creates of each record.
    pub lists: Ghost<Seq<Seq<Fk>>>,
    /// The table when the active shard was started.
    pub base: Ghost<ScriptHashTable>,
    /// Shards from here on are not loaded yet.
    pub next: Ghost<int>,
}

/// Only the body of one shard has grown since the shard was started.
pub open spec fn grown_from(a: &ScriptHashTable, t: &ScriptHashTable, bi: int) -> bool {
    &&& a.wf()
    &&& same_heads(a, t)
    &&& same_other_bodies(a, t, bi)
    &&& 0 <= bi < a.bodies@.len()
    &&& a.bodies@[bi].live_count == t.bodies@[bi].live_count
    &&& a.bodies@[bi].bump <= t.bodies@[bi].bump
    &&& kept_but(&a.bodies@[bi], &t.bodies@[bi], -1)
}

/// The load and the table fit together.
pub open spec fn session_ok(s: &ScriptHashBulkSession, t: &ScriptHashTable) -> bool {
    &&& t.wf()
    &&& s.next@ >= s.resume_from_shard
    &&& match s.active_shard {
        None => s.open_key is None && s.recs@.len() == 0 && s.lists@.len() == 0,
        Some(si) => {
            let bi = main_body(t.layout, si as int);
            &&& s.resume_from_shard <= si < t.n_shards
            &&& grown_from(&s.base@, t, bi)
            &&& s.base@.bodies@[bi].bump == s.shard_start_bump
            &&& recs_sound(&t.bodies@[bi], s.recs@, s.lists@, t.n_shards as int, si as int)
            &&& s.open_key matches Some(o) ==> stream_ok(&t.bodies@[bi], o) && prefix_shard(
                o.key@,
                t.n_shards as int,
            ) == si
        },
    }
}

/// The creates of the last record with this key.
pub open spec fn list_of(recs: Seq<Slot>, lists: Seq<Seq<Fk>>, k: Seq<u8>) -> Option<Seq<Fk>>
    decreases recs.len(),
{
    if recs.len() == 0 {
        None
    } else if recs.last().key@ == k {
        Some(lists[recs.len() - 1])
    } else {
        list_of(recs.drop_last(), lists, k)
    }
}

/// The creates of a key that are not in a sealed shard yet.
pub open spec fn pending(s: &ScriptHashBulkSession, k: Seq<u8>) -> Option<Seq<Fk>> {
    if s.open_key is Some && key16(s.open_key->0.key@) == k && s.open_key->0.n_total > 0 {
        Some(open_fks(s.open_key->0))
    } else {
        list_of(s.recs@, s.lists@, k)
    }
}

/// The creates of a key as they will be when the load is done. A packing session says what
/// it packs; whether the overflow masks it shows when the pack is published.
pub open spec fn loaded(s: &ScriptHashBulkSession, t: &ScriptHashTable, k: Seq<u8>) -> Seq<Fk> {
    if masked(s, t, k) {
        t.creates(k)
    } else {
        match pending(s, k) {
            Some(l) => l,
            None => if replaced(s, t, k) {
                Seq::empty()
            } else {
                t.creates(k)
            },
        }
    }
}

/// The overflow answers for the key, whatever is loaded.
pub open spec fn masked(s: &ScriptHashBulkSession, t: &ScriptHashTable, k: Seq<u8>) -> bool {
    !s.pack_only && in_ovf(t, k)
}

/// A packed shard takes the place of what the main head holds of it.
pub open spec fn replaced(s: &ScriptHashBulkSession, t: &ScriptHashTable, k: Seq<u8>) -> bool {
    &&& s.pack_only
    &&& s.active_shard == Some(prefix_shard(k, t.n_shards as int) as usize)
}

/// The main head does not hold the key, or the overflow answers for it.
pub open spec fn vacant(t: &ScriptHashTable, k: Seq<u8>) -> bool {
    in_ovf(t, k) || t.located(k) is None
}

/// The same creates for every key.
pub open spec fn same_creates(a: &ScriptHashTable, b: &ScriptHashTable) -> bool {
    forall|k: Seq<u8>| k.len() == 16 ==> #[trigger] b.creates(k) == a.creates(k)
}

/// Shape, marks and overflow of a table stay.
pub open spec fn same_frame(a: &ScriptHashTable, b: &ScriptHashTable) -> bool {
    &&& same_ovf(a, b)
    &&& b.scale == a.scale
    &&& b.layout == a.layout
    &&& b.n_shards == a.n_shards
    &&& b.include_hwm == a.include_hwm
    &&& b.bodies@.len() == a.bodies@.len()
    &&& b.main@.len() == a.main@.len()
}

/// The lists of creates that the session holds, one for each key that it was given.
pub open spec fn all_lists(s: &ScriptHashBulkSession) -> Seq<Seq<Fk>> {
    match s.open_key {
        Some(o) => if o.n_total > 0 {
            s.lists@.push(open_fks(o))
        } else {
            s.lists@
        },
        None => s.lists@,
    }
}

/// Keys of records.
pub open spec fn rec_keys(recs: Seq<Slot>) -> Seq<Seq<u8>> {
    recs.map_values(|s: Slot| s.key@)
}

/// The keys of the lists.
pub open spec fn all_keys(s: &ScriptHashBulkSession) -> Seq<Seq<u8>> {
    match s.open_key {
        Some(o) => if o.n_total > 0 {
            rec_keys(s.recs@).push(key16(o.key@))
        } else {
            rec_keys(s.recs@)
        },
        None => rec_keys(s.recs@),
    }
}

/// The keys after one more create.
pub open spec fn keys_with(keys: Seq<Seq<u8>>, same: bool, k: Seq<u8>) -> Seq<Seq<u8>> {
    if same {
        keys
    } else {
        keys.push(k)
    }
}

/// The key is the one that is being loaded, and it has creates.
pub open spec fn goes_on(s: &ScriptHashBulkSession, key: Seq<u8>) -> bool {
    s.open_key matches Some(o) && o.n_total > 0 && o.key@ == key
}

/// The lists after one more create: it goes to the last key if that is its own, and else it
/// begins a list.
pub open spec fn lists_with(lists: Seq<Seq<Fk>>, same: bool, fk: Fk) -> Seq<Seq<Fk>> {
    if same {
        lists.drop_last().push(pushed(lists.last(), fk))
    } else {
        lists.push(seq![fk])
    }
}

/// Creates of all lists.
pub open spec fn sum_lens(lists: Seq<Seq<Fk>>) -> int
    decreases lists.len(),
{
    if lists.len() == 0 {
        0
    } else {
        sum_lens(lists.drop_last()) + lists.last().len()
    }
}

/// Highest create of a list (0 of an empty one).
pub open spec fn list_max(l: Seq<Fk>) -> u64
    decreases l.len(),
{
    if l.len() == 0 {
        0
    } else {
        larger(list_max(l.drop_last()), l.last().0)
    }
}

/// Highest create of all lists.
pub open spec fn lists_max(lists: Seq<Seq<Fk>>) -> u64
    decreases lists.len(),
{
    if lists.len() == 0 {
        0
    } else {
        larger(lists_max(lists.drop_last()), list_max(lists.last()))
    }
}

/// The larger of two numbers.
pub open spec fn larger(a: u64, b: u64) -> u64 {
    if a > b {
        a
    } else {
        b
    }
}

/// A count that stops at the largest number.
pub open spec fn capped(n: int) -> u64 {
    if n > u64::MAX {
        u64::MAX
    } else {
        n as u64
    }
}

/// The counters of a packing session are those of its records.
pub open spec fn tallied(s: &ScriptHashBulkSession) -> bool {
    &&& s.keys_written == s.recs@.len()
    &&& s.live_count == capped(sum_lens(s.lists@))
    &&& forall|i: int| 0 <= i < s.lists@.len() ==> (#[trigger] s.lists@[i]).len() > 0
    &&& s.max_fk == larger(
        lists_max(s.lists@),
        match s.open_key {
            Some(o) => list_max(open_fks(o)),
            None => 0,
        },
    )
}

/// The counters of a pack are those of its records.
pub open spec fn pack_tallied(p: &ShShardPack) -> bool {
    &&& p.keys == p.recs@.len()
    &&& p.creates == capped(sum_lens(p.lists@))
    &&& forall|i: int| 0 <= i < p.lists@.len() ==> (#[trigger] p.lists@[i]).len() > 0
    &&& p.max_fk == lists_max(p.lists@)
}

proof fn lemma_sum_pos(lists: Seq<Seq<Fk>>)
    ensures
        sum_lens(lists) >= 0,
    decreases lists.len(),
{
    if lists.len() > 0 {
        lemma_sum_pos(lists.drop_last());
    }
}

/// The counters after one more list.
proof fn lemma_tally_push(lists: Seq<Seq<Fk>>, l: Seq<Fk>)
    ensures
        sum_lens(lists.push(l)) == sum_lens(lists) + l.len(),
        lists_max(lists.push(l)) == larger(lists_max(lists), list_max(l)),
        sat_add(capped(sum_lens(lists)), l.len() as int) == capped(sum_lens(lists.push(l))),
{
    lemma_sum_pos(lists);
    assert(lists.push(l).drop_last() =~= lists);
}

/// The highest create after one more.
proof fn lemma_max_push(l: Seq<Fk>, fk: Fk)
    ensures
        list_max(pushed(l, fk)) == larger(list_max(l), fk.0),
{
    if l.len() > 0 && l.last() == fk {
    } else {
        assert(l.push(fk).drop_last() =~= l);
    }
}

/// The shards of a load rise, and the progress to store names the first shard that is
/// not sealed by the load.
pub open spec fn progress_sound(s: &ScriptHashBulkSession) -> bool {
    &&& s.active_shard is None ==> s.next@ == s.resume_from_shard
    &&& s.active_shard matches Some(si) ==> s.next@ <= si
    &&& s.progress matches Some(p) ==> p.next_shard == s.next@
}

/// Creates with those of the key that is being loaded.
pub open spec fn written_of(s: &ScriptHashBulkSession) -> u64 {
    sat_add(
        s.live_count,
        match s.open_key {
            Some(o) => o.n_total as int,
            None => 0,
        },
    )
}

/// The counter of the table is that of the shards that the load has sealed, and the
/// bodies of the others count nothing.
pub open spec fn counted(s: &ScriptHashBulkSession, t: &ScriptHashTable) -> bool {
    &&& !s.pack_only
    &&& progress_sound(s)
    &&& t.live() == s.committed_live_count
    &&& s.committed_live_count <= s.live_count
    &&& t.layout is Sharded ==> forall|i: int|
        0 <= i < t.n_shards && i >= (match s.active_shard {
            Some(si) => si as int,
            None => s.next@,
        }) ==> (#[trigger] t.bodies@[i]).live_count == 0
}

/// What a load notes when it goes from one shard to the next.
pub open spec fn shard_noted(a: &ScriptHashBulkSession, b: &ScriptHashBulkSession, si: int) -> bool {
    match a.active_shard {
        Some(x) => if x == si {
            b.progress == a.progress && b.shards_flushed == a.shards_flushed
        } else {
            &&& b.progress is Some
            &&& (b.progress->0).next_shard == x + 1
            &&& (b.progress->0).live_count == b.live_count
            &&& (b.progress->0).keys_written == b.keys_written
            &&& b.shards_flushed == (if a.shards_flushed == u32::MAX {
                u32::MAX
            } else {
                (a.shards_flushed + 1) as u32
            })
        },
        None => b.progress == a.progress && b.shards_flushed == a.shards_flushed,
    }
}

/// All bodies have room for one more step.
pub open spec fn roomy(t: &ScriptHashTable) -> bool {
    forall|i: int| 0 <= i < t.bodies@.len() ==> (#[trigger] t.bodies@[i]).has_space(16_740_384)
}

/// The load has come to a limit: a body has no room for one more step, or the key
/// that is being loaded has as many creates as can be counted.
pub open spec fn at_end(s: &ScriptHashBulkSession, t: &ScriptHashTable) -> bool {
    !roomy(t) || open_len(s) >= usize::MAX
}

/// Number of creates of the key that is being loaded.
pub open spec fn open_len(s: &ScriptHashBulkSession) -> int {
    match s.open_key {
        Some(o) => open_fks(o).len() as int,
        None => 0,
    }
}

/// No body grew by more than this many bytes.
pub open spec fn spent(a: &ScriptHashTable, b: &ScriptHashTable, room: int) -> bool {
    forall|i: int|
        0 <= i < a.bodies@.len() ==> (#[trigger] b.bodies@[i]).bump <= a.bodies@[i].bump + room
            && b.bodies@[i].bytes@.len() <= a.bodies@[i].bytes@.len() + room
}

/// Bytes that finishing the key that is being loaded takes at most.
pub open spec fn held(s: &ScriptHashBulkSession) -> int {
    match s.open_key {
        Some(o) => open_room(o),
        None => 0,
    }
}

/// Bytes that a body has free where no step is refused for want of room.
pub open spec fn step_room() -> int {
    16_740_384
}

/// A packing session stays at its shard.
pub open spec fn same_place(
    s0: &ScriptHashBulkSession,
    t0: &ScriptHashTable,
    s: &ScriptHashBulkSession,
    t: &ScriptHashTable,
) -> bool {
    &&& s.pack_only == s0.pack_only
    &&& s.pack_only ==> s.active_shard == s0.active_shard
    &&& t.layout == t0.layout
}

/// The load may write to the body: a packing session writes to that of its shard alone.
pub open spec fn writes_to(s: &ScriptHashBulkSession, t: &ScriptHashTable, i: int) -> bool {
    s.pack_only ==> i == main_body(t.layout, s.active_shard->0 as int)
}

/// The bodies, with what is held back, grew by no more than this many bytes.
#[verifier::opaque]
pub open spec fn took(
    s0: &ScriptHashBulkSession,
    t0: &ScriptHashTable,
    s: &ScriptHashBulkSession,
    t: &ScriptHashTable,
    room: int,
) -> bool {
    &&& same_place(s0, t0, s, t)
    &&& t.bodies@.len() == t0.bodies@.len()
    &&& forall|i: int|
        0 <= i < t0.bodies@.len() ==> (#[trigger] t.bodies@[i]).bump + held(s)
            <= t0.bodies@[i].bump + held(s0) + room && t.bodies@[i].bytes@.len() + held(s)
            <= t0.bodies@[i].bytes@.len() + held(s0) + room
}

/// Some body that the load writes to has no room for what is held back and this many bytes.
#[verifier::opaque]
pub open spec fn short(s: &ScriptHashBulkSession, t: &ScriptHashTable, room: int) -> bool {
    exists|i: int|
        0 <= i < t.bodies@.len() && writes_to(s, t, i) && !(#[trigger] t.bodies@[i]).has_space(
            held(s) + room,
        )
}

pub proof fn lemma_took_trans(
    s0: &ScriptHashBulkSession,
    t0: &ScriptHashTable,
    s1: &ScriptHashBulkSession,
    t1: &ScriptHashTable,
    s2: &ScriptHashBulkSession,
    t2: &ScriptHashTable,
    x: int,
    y: int,
)
    requires
        took(s0, t0, s1, t1, x),
        took(s1, t1, s2, t2, y),
    ensures
        took(s0, t0, s2, t2, x + y),
{
    reveal(took);
    assert forall|i: int| 0 <= i < t0.bodies@.len() implies (#[trigger] t2.bodies@[i]).bump + held(
        s2,
    ) <= t0.bodies@[i].bump + held(s0) + x + y && t2.bodies@[i].bytes@.len() + held(s2)
        <= t0.bodies@[i].bytes@.len() + held(s0) + x + y by {
        assert(t1.bodies@[i].bump + held(s1) <= t0.bodies@[i].bump + held(s0) + x);
    }
}

pub proof fn lemma_took_more(
    s0: &ScriptHashBulkSession,
    t0: &ScriptHashTable,
    s: &ScriptHashBulkSession,
    t: &ScriptHashTable,
    x: int,
    y: int,
)
    requires
        took(s0, t0, s, t, x),
        x <= y,
    ensures
        took(s0, t0, s, t, y),
{
    reveal(took);
    assert forall|i: int| 0 <= i < t0.bodies@.len() implies (#[trigger] t.bodies@[i]).bump + held(
        s,
    ) <= t0.bodies@[i].bump + held(s0) + y && t.bodies@[i].bytes@.len() + held(s)
        <= t0.bodies@[i].bytes@.len() + held(s0) + y by {}
}

/// What is short now was short of more before.
pub proof fn lemma_short_before(
    s0: &ScriptHashBulkSession,
    t0: &ScriptHashTable,
    s: &ScriptHashBulkSession,
    t: &ScriptHashTable,
    x: int,
    y: int,
    z: int,
)
    requires
        took(s0, t0, s, t, x),
        short(s, t, y),
        x + y <= z,
    ensures
        short(s0, t0, z),
{
    reveal(took);
    reveal(short);
    let i = choose|i: int|
        0 <= i < t.bodies@.len() && writes_to(s, t, i) && !(#[trigger] t.bodies@[i]).has_space(
            held(s) + y,
        );
    assert(!t0.bodies@[i].has_space(held(s0) + z));
}

/// One body grew, and the others stayed.
proof fn lemma_took_one(
    s0: &ScriptHashBulkSession,
    t0: &ScriptHashTable,
    s: &ScriptHashBulkSession,
    t: &ScriptHashTable,
    bi: int,
    x: int,
)
    requires
        same_place(s0, t0, s, t),
        same_other_bodies(t0, t, bi),
        0 <= bi < t0.bodies@.len(),
        t.bodies@[bi].bump + held(s) <= t0.bodies@[bi].bump + held(s0) + x,
        t.bodies@[bi].bytes@.len() + held(s) <= t0.bodies@[bi].bytes@.len() + held(s0) + x,
        held(s) <= held(s0) + x,
    ensures
        took(s0, t0, s, t, x),
{
    reveal(took);
    assert forall|i: int| 0 <= i < t0.bodies@.len() implies (#[trigger] t.bodies@[i]).bump + held(
        s,
    ) <= t0.bodies@[i].bump + held(s0) + x && t.bodies@[i].bytes@.len() + held(s)
        <= t0.bodies@[i].bytes@.len() + held(s0) + x by {
        if i != bi {
            assert(t.bodies@[i] == t0.bodies@[i]);
        }
    }
}

/// The bodies have the same bytes.
pub(crate) proof fn lemma_took_same(
    s0: &ScriptHashBulkSession,
    t0: &ScriptHashTable,
    s: &ScriptHashBulkSession,
    t: &ScriptHashTable,
    x: int,
)
    requires
        same_place(s0, t0, s, t),
        t.bodies@.len() == t0.bodies@.len(),
        forall|i: int|
            0 <= i < t0.bodies@.len() ==> (#[trigger] t.bodies@[i]).bump == t0.bodies@[i].bump
                && t.bodies@[i].bytes@ == t0.bodies@[i].bytes@,
        held(s) <= held(s0) + x,
    ensures
        took(s0, t0, s, t, x),
{
    reveal(took);
}

/// The body has no room.
proof fn lemma_short_at(s: &ScriptHashBulkSession, t: &ScriptHashTable, i: int, x: int)
    requires
        0 <= i < t.bodies@.len(),
        writes_to(s, t, i),
        !t.bodies@[i].has_space(held(s) + x),
    ensures
        short(s, t, x),
{
    reveal(short);
    assert(!t.bodies@[i].has_space(held(s) + x));
}

/// All bodies have room for one more page.
pub open spec fn passable(t: &ScriptHashTable) -> bool {
    forall|i: int| 0 <= i < t.bodies@.len() ==> (#[trigger] t.bodies@[i]).has_space(8192)
}

/// The sum of one counter.
proof fn lemma_sum_one(bodies: Seq<ShBody>)
    requires
        bodies.len() == 1,
    ensures
        crate::scripthash::sum_live(bodies) == bodies[0].live_count,
{
    reveal_with_fuel(crate::scripthash::sum_live, 2);
    assert(bodies.drop_last().len() == 0);
}

/// Counters that sum up to nothing are all zero.
proof fn lemma_sum_none(bodies: Seq<ShBody>)
    requires
        crate::scripthash::sum_live(bodies) == 0,
    ensures
        forall|i: int| 0 <= i < bodies.len() ==> (#[trigger] bodies[i]).live_count == 0,
    decreases bodies.len(),
{
    if bodies.len() > 0 {
        lemma_sum_none(bodies.drop_last());
        assert forall|i: int| 0 <= i < bodies.len() implies (#[trigger] bodies[i]).live_count
            == 0 by {
            if i < bodies.len() - 1 {
                assert(bodies.drop_last()[i] == bodies[i]);
            }
        }
    }
}

/// One body grew: the table and what was loaded stay.
proof fn lemma_body_grew(
    s: &ScriptHashBulkSession,
    a: &ScriptHashTable,
    b: &ScriptHashTable,
    si: int,
)
    requires
        session_ok(s, a),
        s.active_shard == Some(si as usize),
        0 <= si < a.n_shards,
        same_heads(a, b),
        same_other_bodies(a, b, main_body(a.layout, si)),
        b.bodies@[main_body(a.layout, si)].heap_ok(),
        b.bodies@[main_body(a.layout, si)].live_count == a.bodies@[main_body(
            a.layout,
            si,
        )].live_count,
        b.bodies@[main_body(a.layout, si)].bump >= a.bodies@[main_body(a.layout, si)].bump,
        kept_but(
            &a.bodies@[main_body(a.layout, si)],
            &b.bodies@[main_body(a.layout, si)],
            -1,
        ),
    ensures
        b.wf(),
        same_creates(a, b),
        same_frame(a, b),
        grown_from(&s.base@, b, main_body(a.layout, si)),
        recs_sound(
            &b.bodies@[main_body(a.layout, si)],
            s.recs@,
            s.lists@,
            a.n_shards as int,
            si,
        ),
        b.live() == a.live(),
{
    let bi = main_body(a.layout, si);
    lemma_table_kept(a, b, bi);
    lemma_recs_kept(&a.bodies@[bi], &b.bodies@[bi], s.recs@, s.lists@, a.n_shards as int, si);
    let base = s.base@.bodies@[bi];
    assert(!crate::scripthash_values::owned_at(&base, -1));
    lemma_kept_trans(&base, &a.bodies@[bi], &b.bodies@[bi], -1);
    assert(b.bodies@ =~= a.bodies@.update(bi, b.bodies@[bi]));
    crate::scripthash::lemma_sum_update(a.bodies@, bi, b.bodies@[bi]);
}

/// How the value of a finished key is packed.
pub open spec fn finished_form(o: BulkOpenKey, v: ShHeadValue) -> bool {
    match o.first_page {
        Some(_) => v is Extent,
        None => is_packing(v, open_fks(o), false, usize::MAX as int),
    }
}

/// Counters that a finished key does not touch.
pub open spec fn same_counters(a: &ScriptHashBulkSession, b: &ScriptHashBulkSession) -> bool {
    &&& b.pack_only == a.pack_only
    &&& b.resume_from_shard == a.resume_from_shard
    &&& b.committed_live_count == a.committed_live_count
    &&& b.committed_keys == a.committed_keys
    &&& b.shards_flushed == a.shards_flushed
    &&& b.max_fk == a.max_fk
    &&& b.key_budget == a.key_budget
    &&& b.next@ == a.next@
}

/// The shard of this key is not sealed by the load yet.
pub open spec fn shard_open(s: &ScriptHashBulkSession, n_shards: int, k: Seq<u8>) -> bool {
    if s.pack_only {
        s.active_shard == Some(prefix_shard(k, n_shards) as usize)
    } else {
        prefix_shard(k, n_shards) >= (match s.active_shard {
            Some(si) => si as int,
            None => s.next@,
        })
    }
}

/// What a packing session leaves as it was: all heads, all keys, its shard, and the
/// bodies of other shards.
pub open spec fn packed_frame(
    a: &ScriptHashBulkSession,
    ta: &ScriptHashTable,
    b: &ScriptHashBulkSession,
    tb: &ScriptHashTable,
) -> bool {
    &&& b.active_shard == a.active_shard
    &&& b.pack_only == a.pack_only
    &&& b.committed_live_count == a.committed_live_count
    &&& same_heads(ta, tb)
    &&& same_creates(ta, tb)
    &&& a.active_shard matches Some(si) ==> same_other_bodies(
        ta,
        tb,
        main_body(ta.layout, si as int),
    )
}

pub proof fn lemma_packed_trans(
    a: &ScriptHashBulkSession,
    ta: &ScriptHashTable,
    b: &ScriptHashBulkSession,
    tb: &ScriptHashTable,
    c: &ScriptHashBulkSession,
    tc: &ScriptHashTable,
)
    requires
        packed_frame(a, ta, b, tb),
        packed_frame(b, tb, c, tc),
    ensures
        packed_frame(a, ta, c, tc),
{
    assert forall|k: Seq<u8>| k.len() == 16 implies #[trigger] tc.creates(k) == ta.creates(k) by {
        assert(tc.creates(k) == tb.creates(k));
        assert(tb.creates(k) == ta.creates(k));
    }
}

/// Keys came in order, and the main heads of the shards that are not loaded yet are
/// empty.
pub open spec fn in_order(s: &ScriptHashBulkSession, t: &ScriptHashTable) -> bool {
    &&& forall|i: int, j: int|
        0 <= i < j < s.recs@.len() ==> be_nat((#[trigger] s.recs@[i]).key@) < be_nat(
            (#[trigger] s.recs@[j]).key@,
        )
    &&& s.open_key matches Some(o) ==> forall|i: int|
        0 <= i < s.recs@.len() ==> be_nat((#[trigger] s.recs@[i]).key@) < be_nat(key16(o.key@))
    &&& !s.pack_only ==> forall|k: Seq<u8>|
        k.len() == 16 && shard_open(s, t.n_shards as int, k) ==> #[trigger] vacant(t, k)
}

impl ScriptHashBulkSession {
    /// Creates of the finished keys.
    pub fn creates_written(&self) -> (r: u64)
        ensures
            r == self.live_count,
    {
        self.live_count
    }

    /// Creates with those of the key that is being loaded.
    pub fn stream_creates_written(&self) -> (r: u64)
        ensures
            r == sat_add(
                self.live_count,
                match self.open_key {
                    Some(o) => o.n_total as int,
                    None => 0,
                },
            ),
    {
        let n: u64 = match &self.open_key {
            Some(o) => o.n_total as u64,
            None => 0,
        };
        sat_add_u64(self.live_count, n)
    }

    /// Keys that were packed.
    pub fn keys_written(&self) -> (r: u64)
        ensures
            r == self.keys_written,
    {
        self.keys_written
    }

    /// Shards that were sealed.
    pub fn shards_flushed(&self) -> (r: u32)
        ensures
            r == self.shards_flushed,
    {
        self.shards_flushed
    }

    /// Creates that are held back for the key that is being loaded.
    pub fn buffered_fks(&self) -> (r: usize)
        ensures
            r == (match self.open_key {
                Some(o) => o.buf@.len(),
                None => 0,
            }),
    {
        match &self.open_key {
            Some(o) => o.buf.len(),
            None => 0,
        }
    }

    /// Packs the key that is being loaded.
    #[verifier::rlimit(30)]
    pub fn finish_key(&mut self, table: &mut ScriptHashTable) -> (r: Result<(), StoreError>)
        requires
            session_ok(old(self), old(table)),
        ensures
            session_ok(final(self), final(table)),
            same_creates(old(table), final(table)),
            same_frame(old(table), final(table)),
            final(table).main@ == old(table).main@,
            final(table).live() == old(table).live(),
            final(self).active_shard == old(self).active_shard,
            same_counters(old(self), final(self)),
            final(self).progress == old(self).progress,
            final(self).open_key is None,
            same_heads(old(table), final(table)),
            roomy(old(table)) ==> passable(final(table)),
            in_order(old(self), old(table)) ==> in_order(final(self), final(table)),
            old(self).open_key is None ==> r is Ok,
            old(self).active_shard matches Some(si) ==> same_other_bodies(
                old(table),
                final(table),
                main_body(old(table).layout, si as int),
            ),
            match r {
                Ok(_) => {
                    &&& forall|k: Seq<u8>|
                        k.len() == 16 ==> #[trigger] loaded(final(self), final(table), k)
                            == loaded(old(self), old(table), k)
                    &&& if old(self).open_key is Some && old(self).open_key->0.n_total > 0 {
                        let o = old(self).open_key->0;
                        let last = final(self).recs@.last();
                        &&& final(self).recs@ == old(self).recs@.push(last)
                        &&& final(self).lists@ == old(self).lists@.push(open_fks(o))
                        &&& last.key@ == key16(o.key@)
                        &&& unpack8(last.word) is Ok && finished_form(o, unpack8(last.word)->Ok_0)
                        &&& final(self).live_count == sat_add(
                            old(self).live_count,
                            o.n_total as int,
                        )
                        &&& final(self).keys_written == sat_add(old(self).keys_written, 1)
                        &&& final(self).recs@.len() <= usize::MAX / 24
                            ==> final(self).peak_table_bytes == (if 24 * final(self).recs@.len()
                            > old(self).peak_table_bytes {
                            24 * final(self).recs@.len() as int
                        } else {
                            old(self).peak_table_bytes as int
                        })
                    } else {
                        &&& final(self).recs@ == old(self).recs@
                        &&& final(self).lists@ == old(self).lists@
                        &&& final(self).peak_table_bytes == old(self).peak_table_bytes
                        &&& final(self).live_count == old(self).live_count
                        &&& final(self).keys_written == old(self).keys_written
                        &&& *final(table) == *old(table)
                    }
                },
                Err(e) => {
                    &&& e == StoreError::Io("scripthash body cannot grow")
                    &&& !roomy(old(table))
                    &&& final(self).recs@ == old(self).recs@
                    &&& final(self).lists@ == old(self).lists@
                    &&& same_heads(old(table), final(table))
                    &&& final(table).bodies@ == old(table).bodies@
                    &&& !roomy(final(table))
                },
            },
            tallied(old(self)) && r is Ok ==> tallied(final(self)),
            r is Ok ==> final(self).live_count == written_of(old(self)),
            counted(old(self), old(table)) ==> counted(final(self), final(table)),
            took(old(self), old(table), final(self), final(table), 0),
            r is Err ==> short(old(self), old(table), step_room()),
            spent(old(table), final(table), 16_719_872),
            old(self).open_key is None ==> spent(old(table), final(table), 0),
            r is Ok && tallies(old(self), old(table)) && written_of(old(self)) < u64::MAX
                ==> tallies(final(self), final(table)),
    {
        let ghost s0 = *self;
        let ghost t0 = *table;
        let taken = self.open_key.take();
        let open: BulkOpenKey = match taken {
            None => {
                proof {
                    lemma_took_same(&s0, &t0, self, table, 0);
                    if tallies(&s0, &t0) {
                        lemma_tallies_step(&s0, &t0, self, table);
                    }
                }
                return Ok(());
            },
            Some(o) => o,
        };
        if open.n_total == 0 {
            proof {
                lemma_took_same(&s0, &t0, self, table, 0);
                lemma_order_kept(&s0, &t0, self, table);
                assert forall|k: Seq<u8>| k.len() == 16 implies #[trigger] loaded(self, table, k)
                    == loaded(&s0, &t0, k) by {}
                if tallies(&s0, &t0) {
                    lemma_tallies_step(&s0, &t0, self, table);
                }
            }
            return Ok(());
        }
        let si: usize = match self.active_shard {
            Some(si) => si,
            None => 0,
        };
        let bi: usize = table.main_body_index(si);
        proof {
            assert(bi < table.bodies@.len());
        }
        let n: u64 = open.n_total as u64;
        let key = head_key_from_full(&open.key);
        let ghost fks = open_fks(open);
        let ghost og = open;
        let done = {
            let b = &mut table.bodies[bi];
            open.finish(b)
        };
        let (val, pages) = match done {
            Ok(v) => v,
            Err(e) => {
                proof {
                    assert(table.bodies@ =~= t0.bodies@);
                    lemma_body_grew(&s0, &t0, table, si as int);
                    lemma_order_kept(&s0, &t0, self, table);
                    assert(!t0.bodies@[bi as int].has_space(16_740_384));
                    lemma_short_at(&s0, &t0, bi as int, step_room());
                    lemma_took_same(&s0, &t0, self, table, 0);
                }
                return Err(e);
            },
        };
        proof {
            assert(key@ == key16(og.key@));
            lemma_body_grew(&s0, &t0, table, si as int);
            lemma_packable(&table.bodies@[bi as int], val, key@, pages@, fks);
            if roomy(&t0) {
                assert forall|i: int| 0 <= i < table.bodies@.len() implies (
                #[trigger] table.bodies@[i]).has_space(8192) by {
                    assert(t0.bodies@[i].has_space(16_740_384));
                    if i != bi {
                        assert(table.bodies@[i] == t0.bodies@[i]);
                    }
                }
            }
        }
        let word: u64 = match pack8_word(&val) {
            Ok(w) => w,
            Err(_) => 0,
        };
        self.live_count = sat_add_u64(self.live_count, n);
        self.keys_written = sat_add_u64(self.keys_written, 1);
        self.recs.push(Slot { key, word });
        proof {
            lemma_tally_push(self.lists@, fks);
        }
        self.lists = Ghost(self.lists@.push(fks));
        let total: usize = self.recs.len();
        let bytes: usize = if total > usize::MAX / 24 {
            usize::MAX
        } else {
            total * 24
        };
        if bytes > self.peak_table_bytes {
            self.peak_table_bytes = bytes;
        }
        proof {
            let b = &table.bodies@[bi as int];
            let recs = self.recs@;
            assert(holds_value(b, unpack8(word)->Ok_0, key@, pages@, fks));
            assert(recs.last() == (Slot { key, word }));
            assert(holds_value(
                b,
                unpack8(recs.last().word)->Ok_0,
                recs.last().key@,
                pages@,
                fks,
            ));
            assert(rec_sound(b, recs.last(), fks));
            assert forall|i: int| 0 <= i < recs.len() implies prefix_shard(
                (#[trigger] recs[i]).key@,
                t0.n_shards as int,
            ) == si && rec_sound(b, recs[i], self.lists@[i]) by {
                if i < s0.recs@.len() {
                    assert(recs[i] == s0.recs@[i]);
                    assert(rec_sound(b, s0.recs@[i], s0.lists@[i]));
                } else {
                    assert(og.key@[0] == key@[0]);
                }
            }
            assert forall|k: Seq<u8>| k.len() == 16 implies #[trigger] loaded(self, table, k)
                == loaded(&s0, &t0, k) by {
                assert(recs.drop_last() =~= s0.recs@);
                lemma_list_push(s0.recs@, s0.lists@, fks, k);
                assert(table.creates(k) == t0.creates(k));
            }
            lemma_took_one(&s0, &t0, self, table, bi as int, 0);
            if tallies(&s0, &t0) && written_of(&s0) < u64::MAX {
                assert forall|i: int| 0 <= i < recs.len() implies (i < s0.recs@.len()
                    && #[trigger] recs[i] == s0.recs@[i]) || recs[i].key@ == key16(og.key@) by {}
                assert forall|i: int| 0 <= i < t0.bodies@.len() implies (
                #[trigger] table.bodies@[i]).live_count == t0.bodies@[i].live_count by {
                    if i != bi {
                        assert(table.bodies@[i] == t0.bodies@[i]);
                    }
                }
                lemma_tallies_step(&s0, &t0, self, table);
            }
            if in_order(&s0, &t0) {
                assert forall|i: int, j: int| 0 <= i < j < recs.len() implies be_nat(
                    (#[trigger] recs[i]).key@,
                ) < be_nat((#[trigger] recs[j]).key@) by {
                    assert(recs[i] == s0.recs@[i]);
                    if j < s0.recs@.len() {
                        assert(recs[j] == s0.recs@[j]);
                    }
                }
                assert forall|k: Seq<u8>|
                    !self.pack_only && k.len() == 16 && shard_open(
                        self,
                        table.n_shards as int,
                        k,
                    ) implies #[trigger] vacant(table, k) by {
                    assert(vacant(&t0, k));
                }
            }
        }
        Ok(())
    }
}

/// Order does not depend on the bodies or on the key that is being loaded.
proof fn lemma_order_kept(
    a: &ScriptHashBulkSession,
    ta: &ScriptHashTable,
    b: &ScriptHashBulkSession,
    tb: &ScriptHashTable,
)
    requires
        same_heads(ta, tb),
        b.recs@ == a.recs@,
        b.open_key is None,
        b.active_shard == a.active_shard,
        b.next@ == a.next@,
        b.pack_only == a.pack_only,
    ensures
        in_order(a, ta) ==> in_order(b, tb),
{
    if in_order(a, ta) {
        assert forall|k: Seq<u8>|
            !b.pack_only && k.len() == 16 && shard_open(
                b,
                tb.n_shards as int,
                k,
            ) implies #[trigger] vacant(tb, k) by {
            assert(vacant(ta, k));
        }
    }
}

/// Further lists behind do not matter.
proof fn lemma_list_push(recs: Seq<Slot>, lists: Seq<Seq<Fk>>, fks: Seq<Fk>, k: Seq<u8>)
    requires
        recs.len() <= lists.len(),
    ensures
        list_of(recs, lists.push(fks), k) == list_of(recs, lists, k),
    decreases recs.len(),
{
    if recs.len() > 0 {
        lemma_list_push(recs.drop_last(), lists, fks, k);
    }
}

impl ScriptHashTable {
    /// Sets the counter of a body.
    pub(crate) fn set_live(&mut self, bi: usize, live_count: u64)
        requires
            old(self).wf(),
            bi < old(self).bodies@.len(),
        ensures
            final(self).wf(),
            same_heads(old(self), final(self)),
            same_other_bodies(old(self), final(self), bi as int),
            final(self).bodies@[bi as int] == (ShBody {
                live_count,
                ..old(self).bodies@[bi as int]
            }),
            same_creates(old(self), final(self)),
            forall|k: Seq<u8>| #[trigger] final(self).located(k) == old(self).located(k),
            same_frame(old(self), final(self)),
    {
        let ghost t0 = *self;
        let b = &mut self.bodies[bi];
        b.live_count = live_count;
        proof {
            let x = t0.bodies@[bi as int];
            let y = self.bodies@[bi as int];
            assert(y.heap_ok());
            assert forall|o: int| #[trigger]
                x.blocks@.dom().contains(o) && x.blocks@[o].owner is Some && o != -1 implies kept(
                &x,
                &y,
                o,
            ) by {}
            lemma_table_kept(&t0, self, bi as int);
        }
    }
}

/// Records with rising keys: the creates of a key are those of its record.
pub(crate) proof fn lemma_list_at(recs: Seq<Slot>, lists: Seq<Seq<Fk>>, i: int)
    requires
        forall|i: int, j: int|
            0 <= i < j < recs.len() ==> be_nat((#[trigger] recs[i]).key@) < be_nat(
                (#[trigger] recs[j]).key@,
            ),
        0 <= i < recs.len(),
    ensures
        list_of(recs, lists, recs[i].key@) == Some(lists[i]),
    decreases recs.len(),
{
    if i < recs.len() - 1 {
        assert(be_nat(recs[i].key@) < be_nat(recs[recs.len() - 1].key@));
        let d = recs.drop_last();
        assert(d[i] == recs[i]);
        assert forall|a: int, b: int| 0 <= a < b < d.len() implies be_nat((#[trigger] d[a]).key@)
            < be_nat((#[trigger] d[b]).key@) by {
            assert(recs[a] == d[a] && recs[b] == d[b]);
        }
        lemma_list_at(d, lists, i);
    }
}

pub(crate) proof fn lemma_list_none(recs: Seq<Slot>, lists: Seq<Seq<Fk>>, k: Seq<u8>)
    ensures
        list_of(recs, lists, k) is Some <==> has_key(recs, k),
    decreases recs.len(),
{
    if recs.len() > 0 {
        let d = recs.drop_last();
        lemma_list_none(d, lists, k);
        if has_key(d, k) {
            let i = choose|i: int| 0 <= i < d.len() && (#[trigger] d[i]).key@ == k;
            assert(recs[i].key@ == k);
        }
        if recs.last().key@ == k {
            assert(recs[recs.len() - 1].key@ == k);
        } else if has_key(recs, k) {
            let i = choose|i: int| 0 <= i < recs.len() && (#[trigger] recs[i]).key@ == k;
            assert(d[i].key@ == k);
        }
    }
}

/// What is pending belongs to the active shard.
proof fn lemma_pending_shard(s: &ScriptHashBulkSession, t: &ScriptHashTable, k: Seq<u8>)
    requires
        session_ok(s, t),
        s.open_key is None,
        pending(s, k) is Some,
    ensures
        s.active_shard is Some,
        prefix_shard(k, t.n_shards as int) == s.active_shard->0,
{
    lemma_list_none(s.recs@, s.lists@, k);
    let i = choose|i: int| 0 <= i < s.recs@.len() && (#[trigger] s.recs@[i]).key@ == k;
    assert(s.recs@[i].key@ == k);
}

/// After a shard was sealed, its keys have the creates that were loaded.
proof fn lemma_flushed(
    s: &ScriptHashBulkSession,
    a: &ScriptHashTable,
    b: &ScriptHashTable,
    si: int,
    k: Seq<u8>,
)
    requires
        session_ok(s, a),
        in_order(s, a),
        s.open_key is None,
        !s.pack_only,
        s.active_shard == Some(si as usize),
        0 <= si < a.n_shards,
        installed(a, b, si, s.recs@, s.lists@),
        k.len() == 16,
    ensures
        b.creates(k) == loaded(s, a, k),
{
    lemma_list_none(s.recs@, s.lists@, k);
    if prefix_shard(k, a.n_shards as int) == si {
        assert(shard_open(s, a.n_shards as int, k));
        assert(vacant(a, k));
        let c = b.creates(k);
        if !in_ovf(a, k) && has_key(s.recs@, k) {
            let i = choose|i: int|
                0 <= i < s.recs@.len() && (#[trigger] s.recs@[i]).key@ == k && c == s.lists@[i];
            lemma_list_at(s.recs@, s.lists@, i);
        }
    } else {
        assert(b.creates(k) == a.creates(k));
        if pending(s, k) is Some {
            lemma_pending_shard(s, a, k);
        }
    }
}

/// What a shard's body counts once it is sealed.
proof fn lemma_flush_counts(s: &ScriptHashBulkSession, t: &ScriptHashTable, live: u64)
    requires
        session_ok(s, t),
        tallies(s, t),
        s.active_shard is Some,
        live == (match t.layout {
            ShBodyLayout::Shared => s.live_count as int,
            ShBodyLayout::Sharded => if s.live_count < s.committed_live_count {
                0
            } else {
                s.live_count - s.committed_live_count
            },
        }),
    ensures
        live == t.bodies@[main_body(t.layout, s.active_shard->0 as int)].live_count + sum_lens(
            s.lists@,
        ),
{
    reveal(tallies);
    if t.layout is Sharded {
        assert(t.bodies@[s.active_shard->0 as int].live_count == 0);
    } else {
        lemma_sum_one(t.bodies@);
    }
}

impl ScriptHashBulkSession {
    /// Seals the active shard and ends it.
    #[verifier::rlimit(40)]
    fn flush_active_shard(&mut self, table: &mut ScriptHashTable) -> (r: Result<(), StoreError>)
        requires
            session_ok(old(self), old(table)),
            !old(self).pack_only,
        ensures
            session_ok(final(self), final(table)),
            same_frame(old(table), final(table)),
            roomy(old(table)) ==> passable(final(table)),
            final(self).open_key is None,
            final(self).pack_only == old(self).pack_only,
            final(self).resume_from_shard == old(self).resume_from_shard,
            final(self).max_fk == old(self).max_fk,
            final(self).key_budget == old(self).key_budget,
            in_order(old(self), old(table)) ==> in_order(final(self), final(table)),
            counted(old(self), old(table)) && r is Ok && old(self).active_shard is Some
                ==> final(table).live() == final(self).live_count && (final(table).layout is Sharded
                ==> forall|i: int|
                old(self).active_shard->0 < i < old(table).n_shards ==> (
                #[trigger] final(table).bodies@[i]).live_count == 0),
            r is Ok && old(self).active_shard is Some ==> final(self).live_count == written_of(
                old(self),
            ),
            r is Ok && tallies(old(self), old(table)) && in_order(old(self), old(table))
                && written_of(old(self)) < u64::MAX ==> counts_exact(final(table)),
            took(old(self), old(table), final(self), final(table), 0),
            r is Err ==> short(old(self), old(table), step_room()),
            spent(old(table), final(table), 16_719_872),
            old(self).open_key is None ==> spent(old(table), final(table), 0),
            old(self).open_key is None ==> r is Ok && (passable(old(table)) ==> passable(
                final(table),
            )) && final(self).live_count == old(self).live_count && final(self).keys_written
                == old(self).keys_written,
            match r {
                Ok(_) => {
                    &&& final(self).active_shard is None
                    &&& old(self).active_shard is None ==> *final(self) == *old(self)
                        && *final(table) == *old(table)
                    &&& in_order(old(self), old(table)) ==> forall|k: Seq<u8>|
                        k.len() == 16 ==> #[trigger] final(table).creates(k) == loaded(
                            old(self),
                            old(table),
                            k,
                        )
                    &&& old(self).active_shard matches Some(si) ==> {
                        let bi = main_body(old(table).layout, si as int);
                        let body = final(table).bodies@[bi];
                        &&& final(self).next@ == si + 1
                        &&& final(self).committed_live_count == final(self).live_count
                        &&& final(self).committed_keys == final(self).keys_written
                        &&& final(self).shards_flushed == (if old(self).shards_flushed == u32::MAX {
                            u32::MAX
                        } else {
                            (old(self).shards_flushed + 1) as u32
                        })
                        &&& final(self).progress == Some(
                            ColdProgress {
                                next_shard: (si + 1) as u32,
                                body_bump: body.bump,
                                live_count: final(self).live_count,
                                keys_written: final(self).keys_written,
                            },
                        )
                        &&& body.live_count == (match old(table).layout {
                            ShBodyLayout::Shared => final(self).live_count,
                            ShBodyLayout::Sharded => sat_sub(
                                final(self).live_count,
                                old(self).committed_live_count as int,
                            ),
                        })
                        &&& forall|i: int|
                            0 <= i < old(table).main@.len() && i != si ==> final(table).main@[i]
                                == old(table).main@[i]
                    }
                },
                Err(e) => {
                    &&& e == StoreError::Io("scripthash body cannot grow")
                    &&& !roomy(old(table))
                    &&& same_creates(old(table), final(table))
                },
            },
    {
        let ghost s0 = *self;
        let ghost t0 = *table;
        let si: usize = match self.active_shard {
            Some(si) => si,
            None => {
                proof {
                    lemma_took_same(&s0, &t0, self, table, 0);
                    assert forall|k: Seq<u8>| k.len() == 16 implies #[trigger] table.creates(k)
                        == loaded(&s0, &t0, k) by {}
                    reveal(tallies);
                }
                return Ok(());
            },
        };
        self.finish_key(table)?;
        let ghost s1 = *self;
        let ghost t1 = *table;
        let bi: usize = table.main_body_index(si);
        if self.recs.len() > 0 {
            table.install_sorted_main(si, &self.recs, Ghost(self.lists@));
            proof {
                if in_order(&s0, &t0) {
                    assert forall|k: Seq<u8>| k.len() == 16 implies #[trigger] table.creates(k)
                        == loaded(&s0, &t0, k) by {
                        lemma_flushed(&s1, &t1, table, si as int, k);
                        assert(loaded(&s1, &t1, k) == loaded(&s0, &t0, k));
                    }
                }
            }
        } else {
            proof {
                assert forall|k: Seq<u8>| k.len() == 16 implies #[trigger] table.creates(k)
                    == loaded(&s0, &t0, k) by {
                    assert(loaded(&s1, &t1, k) == loaded(&s0, &t0, k));
                }
            }
        }
        let ghost t2 = *table;
        let shard_live: u64 = match table.layout {
            ShBodyLayout::Shared => self.live_count,
            ShBodyLayout::Sharded => if self.live_count < self.committed_live_count {
                0
            } else {
                self.live_count - self.committed_live_count
            },
        };
        proof {
            assert(0 <= bi < table.bodies@.len());
        }
        table.set_live(bi, shard_live);
        proof {
            assert forall|i: int| 0 <= i < t0.bodies@.len() implies (
            #[trigger] table.bodies@[i]).bump == t1.bodies@[i].bump && table.bodies@[i].bytes@
                == t1.bodies@[i].bytes@ by {
                assert(t2.bodies@[i] == t1.bodies@[i]);
                if i != bi {
                    assert(table.bodies@[i] == t2.bodies@[i]);
                }
            }
            if counted(&s0, &t0) {
                assert(table.bodies@ =~= t2.bodies@.update(bi as int, table.bodies@[bi as int]));
                crate::scripthash::lemma_sum_update(
                    t2.bodies@,
                    bi as int,
                    table.bodies@[bi as int],
                );
                if table.layout is Sharded {
                    assert(t1.bodies@[bi as int].live_count == 0);
                } else {
                    lemma_sum_one(t2.bodies@);
                }
            }
            if passable(&t2) {
                assert forall|i: int| 0 <= i < table.bodies@.len() implies (
                #[trigger] table.bodies@[i]).has_space(8192) by {
                    assert(t2.bodies@[i].has_space(8192));
                    if i != bi {
                        assert(table.bodies@[i] == t2.bodies@[i]);
                    }
                }
            }
        }
        self.committed_live_count = self.live_count;
        self.committed_keys = self.keys_written;
        self.progress = Some(
            ColdProgress {
                next_shard: (si + 1) as u32,
                body_bump: table.bodies[bi].bump,
                live_count: self.live_count,
                keys_written: self.keys_written,
            },
        );
        self.shards_flushed = if self.shards_flushed == 0xffff_ffff {
            0xffff_ffff
        } else {
            self.shards_flushed + 1
        };
        self.recs = Vec::new();
        self.lists = Ghost(Seq::empty());
        self.active_shard = None;
        self.next = Ghost(si + 1);
        proof {
            lemma_took_same(&s1, &t1, self, table, 0);
            lemma_took_trans(&s0, &t0, &s1, &t1, self, table, 0, 0);
            if in_order(&s0, &t0) {
                assert forall|k: Seq<u8>|
                    k.len() == 16 && shard_open(
                        self,
                        table.n_shards as int,
                        k,
                    ) implies #[trigger] vacant(table, k) by {
                    assert(t2.located(k) == table.located(k));
                    assert(shard_open(&s1, t1.n_shards as int, k));
                    assert(vacant(&t1, k));
                    assert(t2.located(k) == t1.located(k));
                }
                assert forall|k: Seq<u8>| k.len() == 16 implies #[trigger] table.creates(k)
                    == loaded(&s0, &t0, k) by {
                    assert(table.creates(k) == t2.creates(k));
                }
                if tallies(&s0, &t0) && written_of(&s0) < u64::MAX {
                    assert forall|k: Seq<u8>| k.len() == 16 implies #[trigger] table.creates(k)
                        == loaded(&s1, &t1, k) by {
                        assert(loaded(&s1, &t1, k) == loaded(&s0, &t0, k));
                    }
                    assert forall|i: int| 0 <= i < t1.bodies@.len() && i != bi implies (
                    #[trigger] table.bodies@[i]).live_count == t1.bodies@[i].live_count by {
                        assert(table.bodies@[i] == t2.bodies@[i]);
                    }
                    lemma_flush_counts(&s1, &t1, shard_live);
                    lemma_count_flush(&s1, &t1, table, si as int);
                }
            }
        }
        Ok(())
    }
}

/// Where the next key of a load in order may be.
pub open spec fn follows(s: &ScriptHashBulkSession, n_shards: int, key: Seq<u8>) -> bool {
    &&& shard_open(s, n_shards, key)
    &&& match s.open_key {
        Some(o) => o.key@ == key || be_nat(key16(o.key@)) < be_nat(key16(key)),
        None => forall|i: int|
            0 <= i < s.recs@.len() ==> be_nat((#[trigger] s.recs@[i]).key@) < be_nat(key16(key)),
    }
}

/// One more create; one that repeats the last changes nothing.
pub open spec fn pushed(l: Seq<Fk>, fk: Fk) -> Seq<Fk> {
    if l.len() > 0 && l.last() == fk {
        l
    } else {
        l.push(fk)
    }
}

/// The creates of a key that is being loaded.
pub open spec fn open_list(s: &ScriptHashBulkSession, key: Seq<u8>) -> Seq<Fk> {
    if s.open_key is Some && s.open_key->0.key@ == key {
        open_fks(s.open_key->0)
    } else {
        Seq::empty()
    }
}

/// Why a create can be refused.
pub open spec fn push_refused(
    s: &ScriptHashBulkSession,
    t: &ScriptHashTable,
    key: Seq<u8>,
    fk: Fk,
    e: StoreError,
) -> bool {
    let si = prefix_shard(key, t.n_shards as int);
    ||| s.pack_only && s.active_shard != Some(si as usize) && e == StoreError::Corrupt(
        "scripthash pack session saw a key for a different shard",
    )
    ||| !s.pack_only && s.active_shard is Some && si < s.active_shard->0 && e
        == StoreError::Corrupt(
        "scripthash bulk put_chain: keys not sorted by scripthash (shard went backwards)",
    )
    ||| fk.0 >= 0x8000_0000_0000_0000 && e == StoreError::Corrupt(
        "scripthash: create_fk must be below 2^63",
    )
    ||| open_list(s, key).len() > 0 && fk.0 < open_list(s, key).last().0 && e
        == StoreError::Corrupt("scripthash bulk stream: create_fk not strictly increasing")
    ||| (!roomy(t) || open_list(s, key).len() >= usize::MAX) && e == StoreError::Io(
        "scripthash body cannot grow",
    )
}

/// Why the creates of one key can be refused.
pub open spec fn chain_refused(
    s: &ScriptHashBulkSession,
    t: &ScriptHashTable,
    key: Seq<u8>,
    entries: Seq<ShEntry>,
    e: StoreError,
) -> bool {
    let si = prefix_shard(key, t.n_shards as int);
    ||| s.pack_only && s.active_shard != Some(si as usize) && e == StoreError::Corrupt(
        "scripthash pack session saw a key for a different shard",
    )
    ||| !s.pack_only && s.active_shard is Some && si < s.active_shard->0 && e
        == StoreError::Corrupt(
        "scripthash bulk put_chain: keys not sorted by scripthash (shard went backwards)",
    )
    ||| (exists|x: u64| #[trigger] entry_has(entries, x) && x >= 0x8000_0000_0000_0000) && e
        == StoreError::Corrupt("scripthash: create_fk must be below 2^63")
    ||| open_list(s, key).len() > 0 && (exists|x: u64| #[trigger]
        entry_has(entries, x) && x < open_list(s, key).last().0) && e == StoreError::Corrupt(
        "scripthash bulk stream: create_fk not strictly increasing",
    )
    ||| e == StoreError::Io("scripthash body cannot grow")
}

/// A body that is not touched keeps its room.
pub proof fn lemma_shard_range(t: &ScriptHashTable, key: Seq<u8>)
    requires
        t.wf(),
        key.len() == 32,
    ensures
        0 <= prefix_shard(key, t.n_shards as int) < t.n_shards,
        prefix_shard(key16(key), t.n_shards as int) == prefix_shard(key, t.n_shards as int),
        0 <= main_body(t.layout, prefix_shard(key, t.n_shards as int)) < t.bodies@.len(),
{
    crate::scripthash_head::law_prefix_shard_monotone(key, key, t.n_shards as int);
    assert(key16(key)[0] == key[0]);
}

impl ScriptHashBulkSession {
    /// Makes the shard of a key the active one. `false` where the shard is sealed
    /// already and its keys are skipped.
    #[verifier::rlimit(40)]
    fn prepare_stream_key(&mut self, table: &mut ScriptHashTable, key: &[u8; 32]) -> (r: Result<
        bool,
        StoreError,
    >)
        requires
            session_ok(old(self), old(table)),
            old(self).open_key is None,
        ensures
            session_ok(final(self), final(table)),
            same_frame(old(table), final(table)),
            passable(old(table)) ==> passable(final(table)),
            spent(old(table), final(table), 0),
            final(self).open_key is None,
            final(self).pack_only == old(self).pack_only,
            final(self).resume_from_shard == old(self).resume_from_shard,
            final(self).max_fk == old(self).max_fk,
            final(self).key_budget == old(self).key_budget,
            old(self).pack_only ==> *final(self) == *old(self) && *final(table) == *old(table),
            r is Ok ==> final(self).live_count == old(self).live_count,
            r is Ok && tallies(old(self), old(table)) && in_order(old(self), old(table))
                && written_of(old(self)) < u64::MAX ==> tallies(final(self), final(table)),
            took(old(self), old(table), final(self), final(table), 0),
            counted(old(self), old(table)) && r is Ok ==> counted(final(self), final(table)),
            match r {
                Ok(false) => {
                    &&& prefix_shard(key@, old(table).n_shards as int)
                        < old(self).resume_from_shard
                    &&& *final(self) == *old(self)
                    &&& *final(table) == *old(table)
                },
                Ok(true) => {
                    let si = prefix_shard(key@, old(table).n_shards as int);
                    &&& si >= old(self).resume_from_shard
                    &&& final(self).active_shard == Some(si as usize)
                    &&& old(self).active_shard == Some(si as usize) ==> *final(self) == *old(self)
                        && *final(table) == *old(table)
                    &&& old(self).active_shard != Some(si as usize) ==> final(self).recs@.len()
                        == 0
                    &&& shard_noted(old(self), final(self), si)
                    &&& !old(self).pack_only && progress_sound(old(self)) ==> progress_sound(
                        final(self),
                    )
                    &&& in_order(old(self), old(table)) && shard_open(
                        old(self),
                        old(table).n_shards as int,
                        key@,
                    ) ==> in_order(final(self), final(table)) && forall|k: Seq<u8>|
                        k.len() == 16 ==> #[trigger] loaded(final(self), final(table), k)
                            == loaded(old(self), old(table), k)
                },
                Err(e) => {
                    let si = prefix_shard(key@, old(table).n_shards as int);
                    ||| old(self).pack_only && old(self).active_shard != Some(si as usize) && e
                        == StoreError::Corrupt(
                        "scripthash pack session saw a key for a different shard",
                    )
                    ||| !old(self).pack_only && old(self).active_shard is Some && si < old(
                        self,
                    ).active_shard->0 && e == StoreError::Corrupt(
                        "scripthash bulk put_chain: keys not sorted by scripthash (shard went backwards)",
                    )
                },
            },
    {
        proof {
            lemma_shard_range(table, key@);
            lemma_took_same(self, table, self, table, 0);
        }
        let si: usize = prefix_shard_of(key, table.n_shards);
        if (si as u64) < self.resume_from_shard as u64 {
            return Ok(false);
        }
        let same = match self.active_shard {
            Some(a) => a == si,
            None => false,
        };
        if self.pack_only {
            if !same {
                return Err(
                    StoreError::Corrupt("scripthash pack session saw a key for a different shard"),
                );
            }
            return Ok(true);
        }
        if same {
            return Ok(true);
        }
        let ghost s0 = *self;
        let ghost t0 = *table;
        if let Some(prev) = self.active_shard {
            if si < prev {
                return Err(
                    StoreError::Corrupt(
                        "scripthash bulk put_chain: keys not sorted by scripthash (shard went backwards)",
                    ),
                );
            }
            self.flush_active_shard(table)?;
        }
        let ghost s1 = *self;
        let ghost t1 = *table;
        let bi: usize = table.main_body_index(si);
        proof {
            assert(0 <= bi < table.bodies@.len());
        }
        self.shard_start_bump = table.bodies[bi].bump;
        self.active_shard = Some(si);
        self.base = Ghost(*table);
        proof {
            reveal(tallies);
            lemma_took_same(&s1, &t1, self, table, 0);
            lemma_took_trans(&s0, &t0, &s1, &t1, self, table, 0, 0);
            if counted(&s0, &t0) && table.layout is Sharded {
                assert forall|i: int| si <= i < table.n_shards implies (
                #[trigger] table.bodies@[i]).live_count == 0 by {
                    if s0.active_shard is None {
                        assert(t0.bodies@[i].live_count == 0);
                    }
                }
            }
            if in_order(&s0, &t0) && shard_open(&s0, t0.n_shards as int, key@) {
                assert forall|k: Seq<u8>|
                    k.len() == 16 && shard_open(
                        self,
                        table.n_shards as int,
                        k,
                    ) implies #[trigger] vacant(table, k) by {
                    assert(shard_open(&s1, t1.n_shards as int, k));
                    assert(vacant(&t1, k));
                }
                assert forall|k: Seq<u8>| k.len() == 16 implies #[trigger] loaded(self, table, k)
                    == loaded(&s0, &t0, k) by {
                    assert(pending(self, k) is None);
                    if s0.active_shard is Some {
                        assert(table.creates(k) == loaded(&s0, &t0, k));
                    }
                }
            }
        }
        Ok(true)
    }
}

impl ScriptHashBulkSession {
    /// Hands the next create to the key that is being loaded.
    #[verifier::rlimit(40)]
    #[verifier::spinoff_prover]
    fn push_open(&mut self, table: &mut ScriptHashTable, fk: Fk) -> (r: Result<(), StoreError>)
        requires
            session_ok(old(self), old(table)),
            old(self).open_key is Some,
            old(self).active_shard is Some,
            fk.0 != 0,
        ensures
            session_ok(final(self), final(table)),
            same_frame(old(table), final(table)),
            same_creates(old(table), final(table)),
            same_heads(old(table), final(table)),
            final(table).live() == old(table).live(),
            final(self).active_shard == old(self).active_shard,
            final(self).recs@ == old(self).recs@,
            final(self).lists@ == old(self).lists@,
            final(self).next@ == old(self).next@,
            final(self).pack_only == old(self).pack_only,
            final(self).resume_from_shard == old(self).resume_from_shard,
            final(self).open_key is Some,
            final(self).open_key->0.key == old(self).open_key->0.key,
            final(self).live_count == old(self).live_count,
            final(self).keys_written == old(self).keys_written,
            final(self).committed_live_count == old(self).committed_live_count,
            final(self).progress == old(self).progress,
            final(self).shards_flushed == old(self).shards_flushed,
            counted(old(self), old(table)) ==> counted(final(self), final(table)),
            took(old(self), old(table), final(self), final(table), 64),
            r is Err && r->Err_0 == StoreError::Io("scripthash body cannot grow") ==> short(
                old(self),
                old(table),
                step_room(),
            ) || open_fks(old(self).open_key->0).len() >= usize::MAX,
            r is Ok ==> written_of(final(self)) == (if open_fks(old(self).open_key->0).len() > 0
                && open_fks(old(self).open_key->0).last() == fk {
                written_of(old(self))
            } else {
                sat_add(written_of(old(self)), 1)
            }),
            same_other_bodies(
                old(table),
                final(table),
                main_body(old(table).layout, old(self).active_shard->0 as int),
            ),
            match r {
                Ok(_) => {
                    &&& open_fks(final(self).open_key->0) == pushed(
                        open_fks(old(self).open_key->0),
                        fk,
                    )
                    &&& final(self).max_fk == (if fk.0 > old(self).max_fk {
                        fk.0
                    } else {
                        old(self).max_fk
                    })
                    &&& fk.0 < 0x8000_0000_0000_0000
                },
                Err(e) => {
                    let l = open_fks(old(self).open_key->0);
                    &&& open_fks(final(self).open_key->0) == l
                    &&& final(self).max_fk == old(self).max_fk
                    &&& ({
                        ||| fk.0 >= 0x8000_0000_0000_0000 && e == StoreError::Corrupt(
                            "scripthash: create_fk must be below 2^63",
                        )
                        ||| l.len() > 0 && fk.0 < l.last().0 && e == StoreError::Corrupt(
                            "scripthash bulk stream: create_fk not strictly increasing",
                        )
                        ||| (!main_roomy(old(table), old(self).active_shard->0 as int) || l.len()
                            >= usize::MAX) && e == StoreError::Io("scripthash body cannot grow")
                                && at_end(final(self), final(table))
                    })
                },
            },
            old(self).pack_only && tallied(old(self)) && r is Ok ==> tallied(final(self)),
            tallies(old(self), old(table)) ==> tallies(final(self), final(table)),
            spent(old(table), final(table), 8192),
    {
        let ghost s0 = *self;
        let ghost t0 = *table;
        let si: usize = match self.active_shard {
            Some(si) => si,
            None => 0,
        };
        let bi: usize = table.main_body_index(si);
        proof {
            assert(bi < table.bodies@.len());
        }
        let mut open: BulkOpenKey = match self.open_key.take() {
            Some(o) => o,
            None => {
                return Ok(());
            },
        };
        let ghost o0 = open;
        let done = {
            let b = &mut table.bodies[bi];
            open.push(b, fk)
        };
        let ghost o1 = open;
        proof {
            lemma_body_grew(&s0, &t0, table, si as int);
        }
        self.open_key = Some(open);
        proof {
            lemma_took_one(&s0, &t0, self, table, bi as int, 64);
            if !t0.bodies@[bi as int].has_space(8192) {
                lemma_short_at(&s0, &t0, bi as int, step_room());
            }
            lemma_max_push(open_fks(o0), fk);
            let l = open_fks(o0);
            if l.len() > 0 {
                assert(o0.last_fk == Some(l.last().0));
                assert(l.last() == fk <==> l.last().0 == fk.0);
            }
        }
        match done {
            Ok(_) => {
                if fk.0 > self.max_fk {
                    self.max_fk = fk.0;
                }
                proof {
                    lemma_took_one(&s0, &t0, self, table, bi as int, 64);
                    lemma_pushed_tallies(&s0, &t0, self, table, bi as int);
                }
                Ok(())
            },
            Err(e) => {
                proof {
                    lemma_pushed_tallies(&s0, &t0, self, table, bi as int);
                }
                Err(e)
            },
        }
    }
}

/// A create more for the key that is being loaded changes no count.
proof fn lemma_pushed_tallies(
    s0: &ScriptHashBulkSession,
    t0: &ScriptHashTable,
    s: &ScriptHashBulkSession,
    t: &ScriptHashTable,
    bi: int,
)
    requires
        same_heads(t0, t),
        same_creates(t0, t),
        same_other_bodies(t0, t, bi),
        t.bodies@[bi].live_count == t0.bodies@[bi].live_count,
        counted(s0, t0) ==> counted(s, t),
        s.live_count == s0.live_count,
        s.committed_live_count == s0.committed_live_count,
        s.lists@ == s0.lists@,
        s.recs@ == s0.recs@,
        s0.open_key is Some,
        s.open_key is Some,
        s.open_key->0.key == s0.open_key->0.key,
    ensures
        tallies(s0, t0) ==> tallies(s, t),
{
    if tallies(s0, t0) {
        assert forall|i: int| 0 <= i < t0.bodies@.len() implies (#[trigger] t.bodies@[i]).live_count
            == t0.bodies@[i].live_count by {
            if i != bi {
                assert(t.bodies@[i] == t0.bodies@[i]);
            }
        }
        lemma_tallies_step(s0, t0, s, t);
    }
}

/// The body of a main shard has room for one more step.
pub open spec fn main_roomy(t: &ScriptHashTable, si: int) -> bool {
    t.bodies@[main_body(t.layout, si)].has_space(8192)
}

proof fn lemma_roomy(t: &ScriptHashTable)
    ensures
        roomy(t) ==> passable(t),
{
    if roomy(t) {
        assert forall|i: int| 0 <= i < t.bodies@.len() implies (
        #[trigger] t.bodies@[i]).has_space(8192) by {
            assert(t.bodies@[i].has_space(16_740_384));
        }
    }
}

/// The two hashes are equal.
fn same_hash(a: &[u8; 32], b: &[u8; 32]) -> (r: bool)
    ensures
        r == (a@ == b@),
{
    proof {
        assert(a@.subrange(0, 32) =~= a@);
    }
    bytes_at(a.as_slice(), 0, b.as_slice())
}

impl ScriptHashBulkSession {
    /// Ends the key that is being loaded and starts another. `false` where the other
    /// key belongs to a shard that is skipped.
    #[verifier::rlimit(40)]
    fn open_for(&mut self, table: &mut ScriptHashTable, key: [u8; 32]) -> (r: Result<
        bool,
        StoreError,
    >)
        requires
            session_ok(old(self), old(table)),
            old(self).open_key matches Some(o) ==> o.key@ != key@,
        ensures
            session_ok(final(self), final(table)),
            same_frame(old(table), final(table)),
            roomy(old(table)) ==> passable(final(table)),
            spent(old(table), final(table), 16_719_872),
            final(self).pack_only == old(self).pack_only,
            final(self).resume_from_shard == old(self).resume_from_shard,
            final(self).max_fk == old(self).max_fk,
            r is Ok && in_order(old(self), old(table)) && follows(
                old(self),
                old(table).n_shards as int,
                key@,
            ) ==> in_order(final(self), final(table)) && forall|k: Seq<u8>|
                k.len() == 16 ==> #[trigger] loaded(final(self), final(table), k) == loaded(
                    old(self),
                    old(table),
                    k,
                ),
            old(self).pack_only ==> packed_frame(old(self), old(table), final(self), final(table)),
            match r {
                Ok(true) => {
                    let si = prefix_shard(key@, old(table).n_shards as int);
                    &&& si >= old(self).resume_from_shard
                    &&& final(self).active_shard == Some(si as usize)
                    &&& final(self).open_key is Some
                    &&& final(self).open_key->0.key@ == key@
                    &&& open_fks(final(self).open_key->0) == Seq::<Fk>::empty()
                    &&& final(self).open_key->0.n_total == 0
                    &&& shard_noted(old(self), final(self), si)
                },
                Ok(false) => {
                    &&& prefix_shard(key@, old(table).n_shards as int)
                        < old(self).resume_from_shard
                    &&& final(self).open_key is None
                    &&& final(self).active_shard == old(self).active_shard
                },
                Err(e) => {
                    &&& push_refused(old(self), old(table), key@, Fk(1), e)
                    &&& e == StoreError::Io("scripthash body cannot grow") ==> at_end(
                        final(self),
                        final(table),
                    )
                    &&& final(self).open_key is None
                },
            },
            old(self).pack_only && tallied(old(self)) && r is Ok ==> tallied(final(self)),
            !old(self).pack_only && progress_sound(old(self)) && r is Ok ==> progress_sound(
                final(self),
            ),
            r is Ok ==> written_of(final(self)) == written_of(old(self)),
            old(self).pack_only && r == Ok::<bool, StoreError>(true) ==> all_lists(final(self))
                == all_lists(old(self)) && all_keys(final(self)) == all_keys(old(self)) && final(self).open_key is Some
                && final(self).open_key->0.n_total == 0,
            r is Ok && tallies(old(self), old(table)) && in_order(old(self), old(table))
                && written_of(old(self)) < u64::MAX && !in_ovf(old(table), key16(key@)) ==> tallies(
                final(self),
                final(table),
            ),
            took(old(self), old(table), final(self), final(table), 0),
            r is Err && r->Err_0 == StoreError::Io("scripthash body cannot grow") ==> short(
                old(self),
                old(table),
                step_room(),
            ),
            counted(old(self), old(table)) && r is Ok ==> counted(final(self), final(table)),
    {
        let ghost s0 = *self;
        let ghost t0 = *table;
        proof {
            lemma_shard_range(table, key@);
            lemma_roomy(table);
        }
        match self.finish_key(table) {
            Ok(_) => {},
            Err(e) => {
                return Err(e);
            },
        }
        let ghost s1 = *self;
        let ghost t1 = *table;
        proof {
            assert(all_keys(&s1) =~= all_keys(&s0));
        }
        let ready = {
            let rr = self.prepare_stream_key(table, &key);
            proof {
                lemma_took_trans(&s0, &t0, &s1, &t1, self, table, 0, 0);
            }
            match rr {
                Ok(x) => x,
                Err(e) => {
                    return Err(e);
                },
            }
        };
        let ghost s2 = *self;
        if ready {
            self.open_key = Some(BulkOpenKey::start(key));
            proof {
                if tallies(&s2, table) && !in_ovf(&t0, key16(key@)) {
                    lemma_tallies_step(&s2, table, self, table);
                }
                lemma_took_same(&s2, table, self, table, 0);
                lemma_took_trans(&s0, &t0, &s2, table, self, table, 0, 0);
                assert(stream_ok(
                    &table.bodies@[main_body(table.layout, self.active_shard->0 as int)],
                    self.open_key->0,
                ));
            }
        }
        proof {
            if in_order(&s0, &t0) && follows(&s0, t0.n_shards as int, key@) {
                assert(forall|i: int|
                    0 <= i < s1.recs@.len() ==> be_nat((#[trigger] s1.recs@[i]).key@) < be_nat(
                        key16(key@),
                    ));
                assert forall|k: Seq<u8>| k.len() == 16 implies #[trigger] loaded(self, table, k)
                    == loaded(&s0, &t0, k) by {
                    assert(loaded(&s1, &t1, k) == loaded(&s0, &t0, k));
                    if ready {
                        assert(loaded(&s2, table, k) == loaded(&s1, &t1, k));
                        assert(pending(self, k) == pending(&s2, k));
                    }
                }
                if ready {
                    assert forall|k: Seq<u8>|
                        !self.pack_only && k.len() == 16 && shard_open(
                            self,
                            table.n_shards as int,
                            k,
                        ) implies #[trigger] vacant(table, k) by {
                        assert(shard_open(&s2, table.n_shards as int, k));
                    }
                }
            }
        }
        Ok(ready)
    }
}

/// A create that was pushed is the last of its key; all else stays.
proof fn lemma_pushed_open(
    a: &ScriptHashBulkSession,
    ta: &ScriptHashTable,
    b: &ScriptHashBulkSession,
    tb: &ScriptHashTable,
    key: Seq<u8>,
    fk: Fk,
    k: Seq<u8>,
)
    requires
        session_ok(a, ta),
        session_ok(b, tb),
        a.open_key is Some,
        b.open_key is Some,
        a.open_key->0.key@ == key,
        b.open_key->0.key@ == key,
        b.recs@ == a.recs@,
        b.lists@ == a.lists@,
        b.active_shard == a.active_shard,
        b.next@ == a.next@,
        b.pack_only == a.pack_only,
        same_heads(ta, tb),
        same_creates(ta, tb),
        open_fks(b.open_key->0) == pushed(open_fks(a.open_key->0), fk),
        k.len() == 16,
    ensures
        loaded(b, tb, k) == (if k == key16(key) && !masked(a, ta, k) {
            pushed(open_fks(a.open_key->0), fk)
        } else {
            loaded(a, ta, k)
        }),
        in_order(a, ta) ==> in_order(b, tb),
{
    assert(open_fks(b.open_key->0).len() > 0);
    assert(b.open_key->0.n_total == open_fks(b.open_key->0).len());
    assert(tb.creates(k) == ta.creates(k));
    if in_order(a, ta) {
        assert forall|q: Seq<u8>|
            !b.pack_only && q.len() == 16 && shard_open(
                b,
                tb.n_shards as int,
                q,
            ) implies #[trigger] vacant(tb, q) by {
            assert(vacant(ta, q));
        }
    }
}

impl ScriptHashBulkSession {
    /// Takes the next create of a load: keys in order of their hashes, the creates of
    /// a key in their own order. One that repeats the last is skipped.
    #[verifier::rlimit(40)]
    #[verifier::spinoff_prover]
    pub fn push_sorted_fk(&mut self, table: &mut ScriptHashTable, key: [u8; 32], fk: Fk) -> (r:
        Result<(), StoreError>)
        requires
            session_ok(old(self), old(table)),
        ensures
            session_ok(final(self), final(table)),
            same_frame(old(table), final(table)),
            final(self).pack_only == old(self).pack_only,
            final(self).resume_from_shard == old(self).resume_from_shard,
            old(self).pack_only ==> packed_frame(old(self), old(table), final(self), final(table)),
            r is Ok && fk.0 == 0 ==> *final(self) == *old(self) && *final(table) == *old(table),
            fk.0 == 0 ==> r is Ok,
            r is Ok && fk.0 != 0 && prefix_shard(key@, old(table).n_shards as int) >= old(
                self,
            ).resume_from_shard ==> {
                &&& final(self).open_key is Some
                &&& final(self).open_key->0.key@ == key@
                &&& final(self).active_shard == Some(
                    prefix_shard(key@, old(table).n_shards as int) as usize,
                )
                &&& open_list(final(self), key@) == pushed(open_list(old(self), key@), fk)
                &&& final(self).max_fk == (if fk.0 > old(self).max_fk {
                    fk.0
                } else {
                    old(self).max_fk
                })
                &&& shard_noted(
                    old(self),
                    final(self),
                    prefix_shard(key@, old(table).n_shards as int),
                )
            },
            !old(self).pack_only && progress_sound(old(self)) && r is Ok ==> progress_sound(
                final(self),
            ),
            r is Ok && fk.0 != 0 && prefix_shard(key@, old(table).n_shards as int) < old(
                self,
            ).resume_from_shard ==> final(self).active_shard == old(self).active_shard
                && final(self).open_key is None,
            r is Ok && fk.0 != 0 && in_order(old(self), old(table)) && follows(
                old(self),
                old(table).n_shards as int,
                key@,
            ) ==> in_order(final(self), final(table)) && forall|k: Seq<u8>|
                k.len() == 16 ==> #[trigger] loaded(final(self), final(table), k) == (if k == key16(
                    key@,
                ) && !masked(old(self), old(table), k) && prefix_shard(
                    key@,
                    old(table).n_shards as int,
                ) >= old(self).resume_from_shard {
                    pushed(open_list(old(self), key@), fk)
                } else {
                    loaded(old(self), old(table), k)
                }),
            r is Err ==> push_refused(old(self), old(table), key@, fk, r->Err_0),
            r is Err && r->Err_0 == StoreError::Io("scripthash body cannot grow") ==> at_end(
                final(self),
                final(table),
            ),
            open_len(final(self)) <= open_len(old(self)) + 1,
            r is Ok ==> written_of(final(self)) == (if fk.0 == 0 || prefix_shard(
                key@,
                old(table).n_shards as int,
            ) < old(self).resume_from_shard || (open_list(old(self), key@).len() > 0 && open_list(
                old(self),
                key@,
            ).last() == fk) {
                written_of(old(self))
            } else {
                sat_add(written_of(old(self)), 1)
            }),
            counted(old(self), old(table)) && r is Ok ==> counted(final(self), final(table)),
            took(old(self), old(table), final(self), final(table), 64),
            r is Err && r->Err_0 == StoreError::Io("scripthash body cannot grow") ==> short(
                old(self),
                old(table),
                step_room(),
            ) || open_list(old(self), key@).len() >= usize::MAX,
            spent(old(table), final(table), 16_740_384),
            old(self).pack_only && tallied(old(self)) && r is Ok ==> tallied(final(self)),
            old(self).pack_only && r is Ok && fk.0 != 0 && prefix_shard(
                key@,
                old(table).n_shards as int,
            ) >= old(self).resume_from_shard ==> all_lists(final(self)) == lists_with(
                all_lists(old(self)),
                goes_on(old(self), key@),
                fk,
            ) && all_keys(final(self)) == keys_with(
                all_keys(old(self)),
                goes_on(old(self), key@),
                key16(key@),
            ) && goes_on(final(self), key@),
            r is Ok && tallies(old(self), old(table)) && in_order(old(self), old(table))
                && written_of(old(self)) < u64::MAX && !in_ovf(old(table), key16(key@)) ==> tallies(
                final(self),
                final(table),
            ),
    {
        proof {
            lemma_took_same(self, table, self, table, 64);
        }
        if fk.is_null() {
            return Ok(());
        }
        let ghost s0 = *self;
        let ghost t0 = *table;
        let ghost n = t0.n_shards as int;
        proof {
            lemma_shard_range(table, key@);
            lemma_roomy(table);
        }
        let same = match &self.open_key {
            Some(o) => same_hash(&o.key, &key),
            None => false,
        };
        proof {
            lemma_took_same(self, table, self, table, 0);
        }
        if !same {
            let opened = self.open_for(table, key);
            proof {
                lemma_took_more(&s0, &t0, self, table, 0, 64);
            }
            match opened {
                Ok(true) => {},
                Ok(false) => {
                    return Ok(());
                },
                Err(e) => {
                    return Err(e);
                },
            }
        }
        let ghost s3 = *self;
        let ghost t3 = *table;
        proof {
            assert(open_list(&s3, key@) =~= open_list(&s0, key@));
            if roomy(&t0) {
                assert(t3.bodies@[main_body(t3.layout, s3.active_shard->0 as int)].has_space(8192));
            }
        }
        let done = self.push_open(table, fk);
        proof {
            if s0.pack_only && done is Ok {
                lemma_lists_pushed(&s0, &s3, self, key@, fk);
            }
            lemma_took_trans(&s0, &t0, &s3, &t3, self, table, 0, 64);
            if short(&s3, &t3, step_room()) {
                lemma_short_before(&s0, &t0, &s3, &t3, 0, step_room(), step_room());
            }
            if done is Ok && in_order(&s0, &t0) && follows(&s0, n, key@) {
                assert forall|k: Seq<u8>| k.len() == 16 implies #[trigger] loaded(self, table, k)
                    == (if k == key16(key@) && !masked(&s0, &t0, k) {
                    pushed(open_list(&s0, key@), fk)
                } else {
                    loaded(&s0, &t0, k)
                }) && in_order(self, table) by {
                    assert(masked(&s3, &t3, k) == masked(&s0, &t0, k));
                    lemma_pushed_open(&s3, &t3, self, table, key@, fk, k);
                }
                lemma_pushed_open(&s3, &t3, self, table, key@, fk, key16(key@));
            }
        }
        done
    }
}

/// The lists after a create went to the key that is open.
proof fn lemma_lists_pushed(
    s0: &ScriptHashBulkSession,
    s1: &ScriptHashBulkSession,
    s2: &ScriptHashBulkSession,
    key: Seq<u8>,
    fk: Fk,
)
    requires
        s1.open_key is Some,
        s1.open_key->0.key@ == key,
        s1.open_key->0.n_total == open_fks(s1.open_key->0).len(),
        *s1 == *s0 || (s1.open_key->0.n_total == 0 && all_lists(s1) == all_lists(s0) && all_keys(s1)
            == all_keys(s0) && !goes_on(s0, key)),
        s2.open_key is Some,
        s2.open_key->0.key@ == key,
        s2.open_key->0.n_total == open_fks(s2.open_key->0).len(),
        s2.lists@ == s1.lists@,
        s2.recs@ == s1.recs@,
        open_fks(s2.open_key->0) == pushed(open_fks(s1.open_key->0), fk),
    ensures
        all_lists(s2) == lists_with(all_lists(s0), goes_on(s0, key), fk),
        all_keys(s2) == keys_with(all_keys(s0), goes_on(s0, key), key16(key)),
        goes_on(s2, key),
{
    let l = open_fks(s1.open_key->0);
    if s1.open_key->0.n_total == 0 {
        assert(l =~= Seq::empty());
        assert(pushed(l, fk) =~= seq![fk]);
    } else {
        assert(all_lists(s0).drop_last() =~= s1.lists@);
    }
}

/// A list after more creates, one by one.
pub open spec fn push_all(l: Seq<Fk>, fks: Seq<u64>) -> Seq<Fk>
    decreases fks.len(),
{
    if fks.len() == 0 {
        l
    } else {
        pushed(push_all(l, fks.drop_last()), Fk(fks.last()))
    }
}

/// Rising creates on an empty list are that list.
pub(crate) proof fn lemma_push_all(fks: Seq<u64>)
    requires
        rising(fks),
    ensures
        push_all(Seq::empty(), fks) == fks.map_values(|x: u64| Fk(x)),
    decreases fks.len(),
{
    if fks.len() == 0 {
        assert(fks.map_values(|x: u64| Fk(x)) =~= Seq::empty());
    } else {
        let d = fks.drop_last();
        assert(rising(d)) by {
            assert forall|i: int, j: int| 0 <= i < j < d.len() implies (#[trigger] d[i]) < (
            #[trigger] d[j]) by {
                assert(fks[i] < fks[j]);
            }
        }
        lemma_push_all(d);
        let p = push_all(Seq::empty(), d);
        if p.len() > 0 {
            assert(p.last() == Fk(d[d.len() - 1]));
            assert(fks[d.len() - 1] < fks[fks.len() - 1]);
        }
        assert(p.push(Fk(fks.last())) =~= fks.map_values(|x: u64| Fk(x)));
    }
}

/// The creates of the entries, in order and without repeats.
pub open spec fn entry_list(entries: Seq<ShEntry>, fks: Seq<u64>) -> bool {
    &&& rising(fks)
    &&& forall|x: u64| #[trigger] fks.contains(x) <==> entry_has(entries, x)
}

/// The entries hold this create.
pub open spec fn entry_has(entries: Seq<ShEntry>, x: u64) -> bool {
    x != 0 && exists|i: int| 0 <= i < entries.len() && (#[trigger] entries[i]).create_tx_fk.0 == x
}

/// The creates of the entries, in order and without repeats.
fn entry_fk_list(entries: &[ShEntry]) -> (r: Vec<u64>)
    ensures
        entry_list(entries@, r@),
        r@.len() <= entries@.len(),
{
    let mut all: Vec<u64> = Vec::new();
    let mut i: usize = 0;
    while i < entries.len()
        invariant
            i <= entries@.len(),
            all@.len() <= i,
            forall|x: u64| #[trigger]
                all@.contains(x) <==> entry_has(entries@.subrange(0, i as int), x),
        decreases entries@.len() - i,
    {
        let x: u64 = entries[i].create_tx_fk.0;
        let ghost before = all@;
        if x != 0 {
            all.push(x);
        }
        proof {
            let p = entries@.subrange(0, i as int);
            let q = entries@.subrange(0, i + 1);
            assert(q[i as int].create_tx_fk.0 == x);
            assert forall|y: u64| #[trigger] all@.contains(y) <==> entry_has(q, y) by {
                if all@.contains(y) {
                    let j = choose|j: int| 0 <= j < all@.len() && all@[j] == y;
                    if j < before.len() {
                        assert(before.contains(y));
                        let m = choose|m: int|
                            0 <= m < p.len() && (#[trigger] p[m]).create_tx_fk.0 == y;
                        assert(q[m].create_tx_fk.0 == y);
                    }
                }
                if entry_has(q, y) {
                    let m = choose|m: int|
                        0 <= m < q.len() && (#[trigger] q[m]).create_tx_fk.0 == y;
                    if m < i {
                        assert(p[m].create_tx_fk.0 == y);
                        assert(before.contains(y));
                        let j = choose|j: int| 0 <= j < before.len() && before[j] == y;
                        assert(all@[j] == y);
                    } else {
                        assert(all@[all@.len() - 1] == y);
                    }
                }
            }
        }
        i += 1;
    }
    proof {
        assert(entries@.subrange(0, i as int) =~= entries@);
    }
    sort_dedup(&all)
}

impl ScriptHashBulkSession {
    /// Loads the creates of one key; they are put in order here.
    #[verifier::rlimit(40)]
    pub fn put_chain(&mut self, table: &mut ScriptHashTable, key: [u8; 32], entries: &[ShEntry]) -> (r:
        Result<(), StoreError>)
        requires
            session_ok(old(self), old(table)),
        ensures
            session_ok(final(self), final(table)),
            same_frame(old(table), final(table)),
            final(self).pack_only == old(self).pack_only,
            final(self).resume_from_shard == old(self).resume_from_shard,
            old(self).pack_only ==> packed_frame(old(self), old(table), final(self), final(table)),
            r is Err && in_order(old(self), old(table)) && follows(
                old(self),
                old(table).n_shards as int,
                key@,
            ) && open_list(old(self), key@).len() == 0 && (forall|x: u64| #[trigger]
                entry_has(entries@, x) ==> x < 0x8000_0000_0000_0000) ==> r->Err_0
                == StoreError::Io("scripthash body cannot grow"),
            r is Err && r->Err_0 == StoreError::Io("scripthash body cannot grow") ==> at_end(
                final(self),
                final(table),
            ),
            open_len(final(self)) <= open_len(old(self)) + entries@.len(),
            !old(self).pack_only && progress_sound(old(self)) && r is Ok ==> progress_sound(
                final(self),
            ),
            r is Err ==> chain_refused(old(self), old(table), key@, entries@, r->Err_0),
            r is Ok ==> final(self).active_shard == old(self).active_shard
                || final(self).active_shard == Some(
                prefix_shard(key@, old(table).n_shards as int) as usize,
            ),
            spent(old(table), final(table), (entries@.len() + 1) as int * 16_740_384),
            took(old(self), old(table), final(self), final(table), 64 * entries@.len() as int),
            r is Err && r->Err_0 == StoreError::Io("scripthash body cannot grow") ==> short(
                old(self),
                old(table),
                64 * entries@.len() as int + step_room(),
            ) || open_len(old(self)) + entries@.len() >= usize::MAX,
            entries@.len() == 0 ==> r is Ok && *final(self) == *old(self) && *final(table) == *old(
                table,
            ),
            r is Ok && entries@.len() > 0 ==> final(self).open_key is None,
            r is Ok && tallies(old(self), old(table)) && in_order(old(self), old(table)) && follows(
                old(self),
                old(table).n_shards as int,
                key@,
            ) && !in_ovf(old(table), key16(key@)) && written_of(final(self)) < u64::MAX ==> tallies(
                final(self),
                final(table),
            ),
            counted(old(self), old(table)) && r is Ok ==> counted(final(self), final(table)),
            r is Ok && open_list(old(self), key@).len() == 0 ==> exists|fks: Seq<u64>| #[trigger]
                entry_list(entries@, fks) && written_of(final(self)) == sat_add(
                    written_of(old(self)),
                    if prefix_shard(key@, old(table).n_shards as int) >= old(
                        self,
                    ).resume_from_shard {
                        fks.len() as int
                    } else {
                        0
                    },
                ),
            r is Ok && (old(self).active_shard is Some || (prefix_shard(
                key@,
                old(table).n_shards as int,
            ) >= old(self).resume_from_shard && exists|x: u64| #[trigger] entry_has(entries@, x)))
                ==> final(self).active_shard is Some,
            r is Ok && entries@.len() > 0 && in_order(old(self), old(table)) && follows(
                old(self),
                old(table).n_shards as int,
                key@,
            ) ==> in_order(final(self), final(table)) && exists|fks: Seq<u64>| #[trigger]
                entry_list(entries@, fks) && chain_loaded(
                    old(self),
                    old(table),
                    final(self),
                    final(table),
                    key@,
                    fks,
                ),
            r is Ok && entries@.len() > 0 && in_order(old(self), old(table)) && follows(
                old(self),
                old(table).n_shards as int,
                key@,
            ) ==> forall|i: int|
                0 <= i < final(self).recs@.len() ==> be_nat(
                    (#[trigger] final(self).recs@[i]).key@,
                ) <= be_nat(key16(key@)),
            r is Ok && entries@.len() > 0 && in_order(old(self), old(table)) && follows(
                old(self),
                old(table).n_shards as int,
                key@,
            ) ==> (final(self).active_shard matches Some(si) ==> si <= prefix_shard(
                key@,
                old(table).n_shards as int,
            )) && (final(self).active_shard is None ==> old(self).active_shard is None
                && final(self).next@ == old(self).next@),
    {
        if entries.len() == 0 {
            proof {
                lemma_took_same(self, table, self, table, 0);
                let none = Seq::<u64>::empty();
                assert(entry_list(entries@, none));
            }
            return Ok(());
        }
        let ghost s0 = *self;
        let ghost t0 = *table;
        let ghost n = t0.n_shards as int;
        let fks = entry_fk_list(entries);
        let ghost good = in_order(&s0, &t0) && follows(&s0, n, key@);
        let ghost start = open_list(&s0, key@);
        let mut i: usize = 0;
        proof {
            lemma_took_same(self, table, self, table, 0);
            assert(fks@.subrange(0, 0) =~= Seq::empty());
            if good {
                assert(chain_state(&s0, &t0, self, table, key@, fks@.subrange(0, 0)));
            }
        }
        while i < fks.len()
            invariant
                i <= fks@.len(),
                s0 == *old(self),
                t0 == *old(table),
                session_ok(&s0, &t0),
                entries@.len() > 0,
                entry_list(entries@, fks@),
                session_ok(self, table),
                same_frame(&t0, table),
                n == t0.n_shards,
                self.pack_only == s0.pack_only,
                self.resume_from_shard == s0.resume_from_shard,
                good == (in_order(&s0, &t0) && follows(&s0, n, key@)),
                s0.pack_only ==> packed_frame(&s0, &t0, self, table),
                i == 0 ==> *self == s0 && *table == t0,
                fks@.len() <= entries@.len(),
                i > 0 && prefix_shard(key@, n) >= s0.resume_from_shard ==> {
                    &&& self.active_shard == Some(prefix_shard(key@, n) as usize)
                    &&& open_list(self, key@).len() > 0
                    &&& open_list(self, key@).last().0 == fks@[i - 1]
                },
                i > 0 && prefix_shard(key@, n) < s0.resume_from_shard ==> self.active_shard
                    == s0.active_shard && open_list(self, key@).len() == 0,
                !s0.pack_only && progress_sound(&s0) ==> progress_sound(self),
                open_len(self) <= open_len(&s0) + i,
                counted(&s0, &t0) ==> counted(self, table),
                good && tallies(&s0, &t0) && !in_ovf(&t0, key16(key@)) && written_of(self)
                    < u64::MAX ==> tallies(self, table),
                took(&s0, &t0, self, table, 64 * i),
                open_list(&s0, key@).len() == 0 ==> written_of(self) == sat_add(
                    written_of(&s0),
                    if prefix_shard(key@, n) >= s0.resume_from_shard {
                        i as int
                    } else {
                        0
                    },
                ),
                spent(&t0, table, i * 16_740_384),
                good ==> chain_state(
                    &s0,
                    &t0,
                    self,
                    table,
                    key@,
                    fks@.subrange(0, i as int),
                ),
            decreases fks@.len() - i,
        {
            let ghost s1 = *self;
            let ghost t1 = *table;
            let x: u64 = fks[i];
            proof {
                assert(fks@.contains(x));
                let p = fks@.subrange(0, i + 1);
                assert(p.drop_last() =~= fks@.subrange(0, i as int));
                assert(p.last() == x);
                if i > 0 {
                    assert(fks@[i - 1] < fks@[i as int]);
                }
            }
            let done = self.push_sorted_fk(table, key, Fk(x));
            proof {
                if s0.pack_only {
                    lemma_packed_trans(&s0, &t0, &s1, &t1, self, table);
                }
                lemma_took_trans(&s0, &t0, &s1, &t1, self, table, 64 * i, 64);
                if short(&s1, &t1, step_room()) {
                    lemma_short_before(
                        &s0,
                        &t0,
                        &s1,
                        &t1,
                        64 * i,
                        step_room(),
                        64 * entries@.len() as int + step_room(),
                    );
                }
            }
            match done {
                Ok(_) => {},
                Err(e) => {
                    proof {
                        lemma_took_more(
                            &s0,
                            &t0,
                            self,
                            table,
                            64 * (i + 1),
                            64 * entries@.len() as int,
                        );
                        assert(entry_has(entries@, x));
                        lemma_shard_range(&t0, key@);
                        if i > 0 {
                            assert(fks@[i - 1] < fks@[i as int]);
                        }
                        if good && open_list(&s0, key@).len() == 0 && x
                            < 0x8000_0000_0000_0000 {
                            lemma_chain_refusal(&s0, &t0, &s1, &t1, key@, fks@, i as int, e);
                        }
                    }
                    return Err(e);
                },
            }
            proof {
                if good {
                    lemma_chain_step(&s0, &t0, &s1, &t1, self, table, key@, fks@, i as int);
                }
            }
            i += 1;
        }
        let ghost s2 = *self;
        let ghost t2 = *table;
        let done = self.finish_key(table);
        proof {
            if s0.pack_only {
                lemma_packed_trans(&s0, &t0, &s2, &t2, self, table);
            }
            lemma_took_trans(&s0, &t0, &s2, &t2, self, table, 64 * i, 0);
            lemma_took_more(&s0, &t0, self, table, 64 * i, 64 * entries@.len() as int);
            if short(&s2, &t2, step_room()) {
                lemma_short_before(
                    &s0,
                    &t0,
                    &s2,
                    &t2,
                    64 * i,
                    step_room(),
                    64 * entries@.len() as int + step_room(),
                );
            }
        }
        match done {
            Ok(_) => {},
            Err(e) => {
                return Err(e);
            },
        }
        proof {
            if exists|x: u64| #[trigger] entry_has(entries@, x) {
                let x = choose|x: u64| #[trigger] entry_has(entries@, x);
                assert(fks@.contains(x));
            }
            if good {
                assert(fks@.subrange(0, i as int) =~= fks@);
                assert forall|k: Seq<u8>| k.len() == 16 implies #[trigger] loaded(self, table, k)
                    == (if k == key16(key@) && !masked(&s0, &t0, k) && fks@.len() > 0 {
                    push_all(open_list(&s0, key@), fks@)
                } else {
                    loaded(&s0, &t0, k)
                }) by {
                    assert(loaded(self, table, k) == loaded(&s2, &t2, k));
                }
                assert(chain_loaded(&s0, &t0, self, table, key@, fks@));
                assert forall|j: int| 0 <= j < self.recs@.len() implies be_nat(
                    (#[trigger] self.recs@[j]).key@,
                ) <= be_nat(key16(key@)) by {
                    if j < s2.recs@.len() {
                        assert(self.recs@[j] == s2.recs@[j]);
                    }
                }
            }
        }
        Ok(())
    }
}

/// Some creates of the key are loaded.
pub open spec fn chain_state(
    s0: &ScriptHashBulkSession,
    t0: &ScriptHashTable,
    s: &ScriptHashBulkSession,
    t: &ScriptHashTable,
    key: Seq<u8>,
    done: Seq<u64>,
) -> bool {
    &&& in_order(s, t)
    &&& follows(s, t0.n_shards as int, key)
    &&& open_list(s, key) == push_all(open_list(s0, key), done)
    &&& chain_loaded(s0, t0, s, t, key, done)
    &&& done.len() > 0 ==> s.active_shard == Some(prefix_shard(key, t0.n_shards as int) as usize)
        && s.open_key is Some && s.open_key->0.key@ == key
    &&& done.len() == 0 ==> s.active_shard == s0.active_shard && s.next@ == s0.next@
}

/// Creates of one key in order are refused for want of room only.
proof fn lemma_chain_refusal(
    s0: &ScriptHashBulkSession,
    t0: &ScriptHashTable,
    s: &ScriptHashBulkSession,
    t: &ScriptHashTable,
    key: Seq<u8>,
    fks: Seq<u64>,
    i: int,
    e: StoreError,
)
    requires
        0 <= i < fks.len(),
        rising(fks),
        t0.wf(),
        key.len() == 32,
        t.n_shards == t0.n_shards,
        chain_state(s0, t0, s, t, key, fks.subrange(0, i)),
        open_list(s0, key).len() == 0,
        fks[i] < 0x8000_0000_0000_0000,
        push_refused(s, t, key, Fk(fks[i]), e),
    ensures
        e == StoreError::Io("scripthash body cannot grow"),
{
    lemma_shard_range(t0, key);
    let p = fks.subrange(0, i);
    assert(rising(p)) by {
        assert forall|a: int, b: int| 0 <= a < b < p.len() implies (#[trigger] p[a]) < (
        #[trigger] p[b]) by {
            assert(fks[a] < fks[b]);
        }
    }
    assert(open_list(s0, key) =~= Seq::empty());
    lemma_push_all(p);
    let l = open_list(s, key);
    if l.len() > 0 {
        assert(l.last() == Fk(fks[i - 1]));
        assert(fks[i - 1] < fks[i]);
    }
}

proof fn lemma_chain_step(
    s0: &ScriptHashBulkSession,
    t0: &ScriptHashTable,
    s1: &ScriptHashBulkSession,
    t1: &ScriptHashTable,
    s2: &ScriptHashBulkSession,
    t2: &ScriptHashTable,
    key: Seq<u8>,
    fks: Seq<u64>,
    i: int,
)
    requires
        0 <= i < fks.len(),
        session_ok(s0, t0),
        session_ok(s1, t1),
        session_ok(s2, t2),
        key.len() == 32,
        same_frame(t0, t1),
        t2.n_shards == t0.n_shards,
        s1.pack_only == s0.pack_only,
        s1.resume_from_shard == s0.resume_from_shard,
        chain_state(s0, t0, s1, t1, key, fks.subrange(0, i)),
        in_order(s2, t2),
        s2.open_key is Some,
        s2.open_key->0.key@ == key,
        s2.active_shard == Some(prefix_shard(key, t0.n_shards as int) as usize),
        open_list(s2, key) == pushed(open_list(s1, key), Fk(fks[i])),
        forall|k: Seq<u8>|
            k.len() == 16 ==> #[trigger] loaded(s2, t2, k) == (if k == key16(key) && !masked(
                s1,
                t1,
                k,
            ) {
                pushed(open_list(s1, key), Fk(fks[i]))
            } else {
                loaded(s1, t1, k)
            }),
        prefix_shard(key, t0.n_shards as int) >= s0.resume_from_shard,
    ensures
        chain_state(s0, t0, s2, t2, key, fks.subrange(0, i + 1)),
{
    let p = fks.subrange(0, i + 1);
    assert(p.drop_last() =~= fks.subrange(0, i));
    assert(p.last() == fks[i]);
    lemma_shard_range(t0, key);
    assert forall|k: Seq<u8>| k.len() == 16 implies #[trigger] loaded(s2, t2, k) == (if k == key16(
        key,
    ) && !masked(s0, t0, k) && p.len() > 0 && prefix_shard(key, t0.n_shards as int)
        >= s0.resume_from_shard {
        push_all(open_list(s0, key), p)
    } else {
        loaded(s0, t0, k)
    }) by {
        assert(masked(s1, t1, k) == masked(s0, t0, k));
        if k != key16(key) || masked(s0, t0, k) {
            assert(loaded(s1, t1, k) == loaded(s0, t0, k));
        }
    }
}

/// The creates of one key were added to what is loaded, and nothing else.
pub open spec fn chain_loaded(
    a: &ScriptHashBulkSession,
    ta: &ScriptHashTable,
    b: &ScriptHashBulkSession,
    tb: &ScriptHashTable,
    key: Seq<u8>,
    fks: Seq<u64>,
) -> bool {
    forall|k: Seq<u8>|
        k.len() == 16 ==> #[trigger] loaded(b, tb, k) == (if k == key16(key) && !masked(a, ta, k)
            && fks.len() > 0 && prefix_shard(key, ta.n_shards as int) >= a.resume_from_shard {
            push_all(open_list(a, key), fks)
        } else {
            loaded(a, ta, k)
        })
}

impl ScriptHashTable {
    /// Starts a load from scratch. A hint of 0 stands for the default of the scale.
    ///
    /// The hint is a number of keys, not of creates.
    pub fn bulk_session(&self, unique_hint: u64) -> (r: Result<ScriptHashBulkSession, StoreError>)
        requires
            self.wf(),
        ensures
            match r {
                Ok(s) => {
                    &&& self.heads_empty()
                    &&& session_ok(&s, self)
                    &&& in_order(&s, self)
                    &&& s.active_shard is None
                    &&& !s.pack_only
                    &&& s.resume_from_shard == 0
                    &&& s.next@ == 0
                    &&& s.live_count == self.bodies@[0].live_count
                    &&& s.committed_live_count == s.live_count
                    &&& s.keys_written == 0
                    &&& s.max_fk == 0
                    &&& s.shards_flushed == 0
                    &&& s.progress is None
                    &&& progress_sound(&s)
                    &&& s.peak_table_bytes == 0
                    &&& s.key_budget == shard_budget(
                        hint_or_default(unique_hint, self.scale) as int,
                        self.n_shards as int,
                    )
                    &&& forall|k: Seq<u8>|
                        k.len() == 16 ==> #[trigger] loaded(&s, self, k) == Seq::<Fk>::empty()
                    &&& self.live() == 0 ==> counted(&s, self)
                    &&& self.live() == 0 && counts_exact(self) ==> tallies(&s, self)
                },
                Err(e) => !self.heads_empty() && e == StoreError::Corrupt(
                    "scripthash bulk_session requires empty head (reinit first)",
                ),
            },
    {
        if !self.head_is_empty() {
            return Err(
                StoreError::Corrupt("scripthash bulk_session requires empty head (reinit first)"),
            );
        }
        let s = self.new_session(unique_hint, 0);
        proof {
            reveal(tallies);
            if self.live() == 0 {
                lemma_sum_none(self.bodies@);
            }
            assert forall|k: Seq<u8>| k.len() == 16 implies (#[trigger] self.located(k))
                is None by {
                crate::scripthash::law_empty_heads(self, k);
            }
            assert forall|k: Seq<u8>| k.len() == 16 implies #[trigger] loaded(&s, self, k)
                == Seq::<Fk>::empty() by {
                assert(self.located(k) is None);
            }
        }
        Ok(s)
    }

    /// A load that has not begun.
    fn new_session(&self, unique_hint: u64, resume_from_shard: u32) -> (s: ScriptHashBulkSession)
        requires
            self.wf(),
        ensures
            session_ok(&s, self),
            s.active_shard is None,
            !s.pack_only,
            s.resume_from_shard == resume_from_shard,
            s.next@ == resume_from_shard,
            s.live_count == self.bodies@[0].live_count,
            s.committed_live_count == s.live_count,
            s.keys_written == 0,
            s.committed_keys == 0,
            s.max_fk == 0,
            s.shards_flushed == 0,
            s.progress is None,
            s.recs@.len() == 0,
            s.lists@.len() == 0,
            s.base@ == *self,
            s.open_key is None,
            s.peak_table_bytes == 0,
            s.key_budget == shard_budget(
                hint_or_default(unique_hint, self.scale) as int,
                self.n_shards as int,
            ),
    {
        let hint: u64 = if unique_hint == 0 {
            sh_unique_hint_default(None, self.scale)
        } else {
            unique_hint
        };
        let ghost none = Seq::<Seq<Fk>>::empty();
        ScriptHashBulkSession {
            pack_only: false,
            active_shard: None,
            resume_from_shard,
            live_count: self.bodies[0].live_count,
            committed_live_count: self.bodies[0].live_count,
            committed_keys: 0,
            keys_written: 0,
            shards_flushed: 0,
            max_fk: 0,
            peak_table_bytes: 0,
            key_budget: sh_per_shard_key_budget(hint, self.n_shards),
            shard_start_bump: 0,
            progress: None,
            recs: Vec::new(),
            open_key: None,
            lists: Ghost(none),
            base: Ghost(*self),
            next: Ghost(resume_from_shard as int),
        }
    }

    /// Starts the packing of one shard; the shard is sealed by
    /// `publish_packed_shard`.
    pub fn pack_shard_session(&self, shard: usize) -> (r: Result<
        ScriptHashBulkSession,
        StoreError,
    >)
        requires
            self.wf(),
            shard < self.n_shards,
        ensures
            r is Ok,
            ({
                let s = r->Ok_0;
                &&& session_ok(&s, self)
                &&& s.active_shard == Some(shard)
                &&& s.pack_only
                &&& s.resume_from_shard == 0
                &&& s.live_count == 0
                &&& s.committed_live_count == self.bodies@[main_body(
                    self.layout,
                    shard as int,
                )].live_count
                &&& s.keys_written == 0
                &&& s.max_fk == 0
                &&& s.recs@.len() == 0
                &&& s.open_key is None
                &&& tallied(&s)
            }),
    {
        let mut s = self.new_session(0, 0);
        let bi: usize = self.main_body_index(shard);
        proof {
            assert(0 <= bi < self.bodies@.len());
        }
        s.pack_only = true;
        s.active_shard = Some(shard);
        s.live_count = 0;
        s.committed_live_count = self.bodies[bi].live_count;
        s.shard_start_bump = self.bodies[bi].bump;
        Ok(s)
    }

    /// Goes on with a load that was broken off: shards below the mark are kept, and
    /// their keys are skipped.
    pub fn bulk_session_resume(&self, unique_hint: u64, progress: &ColdProgress) -> (r: Result<
        ScriptHashBulkSession,
        StoreError,
    >)
        requires
            self.wf(),
        ensures
            match r {
                Ok(s) => {
                    &&& progress.next_shard < self.n_shards
                    &&& session_ok(&s, self)
                    &&& s.active_shard is None
                    &&& !s.pack_only
                    &&& s.resume_from_shard == progress.next_shard
                    &&& s.next@ == progress.next_shard
                    &&& s.live_count == progress.live_count
                    &&& s.committed_live_count == progress.live_count
                    &&& s.keys_written == progress.keys_written
                    &&& s.committed_keys == progress.keys_written
                    &&& s.shards_flushed == progress.next_shard
                    &&& s.max_fk == 0
                    &&& s.open_key is None
                    &&& s.progress is None
                    &&& progress_sound(&s)
                    &&& s.peak_table_bytes == 0
                    &&& s.key_budget == shard_budget(
                        hint_or_default(unique_hint, self.scale) as int,
                        self.n_shards as int,
                    )
                    &&& forall|k: Seq<u8>|
                        k.len() == 16 ==> #[trigger] loaded(&s, self, k) == self.creates(k)
                    &&& (forall|i: int|
                        progress.next_shard <= i < self.n_shards ==> (#[trigger] self.main@[i])
                            is None) ==> in_order(&s, self)
                },
                Err(e) => progress.next_shard >= self.n_shards && e == StoreError::Corrupt(
                    "scripthash bulk_session_resume: already complete",
                ),
            },
    {
        if progress.next_shard as u64 >= self.n_shards as u64 {
            return Err(
                StoreError::Corrupt("scripthash bulk_session_resume: already complete"),
            );
        }
        let mut s = self.new_session(unique_hint, progress.next_shard);
        s.live_count = progress.live_count;
        s.committed_live_count = progress.live_count;
        s.keys_written = progress.keys_written;
        s.committed_keys = progress.keys_written;
        s.shards_flushed = progress.next_shard;
        proof {
            if forall|i: int|
                progress.next_shard <= i < self.n_shards ==> (#[trigger] self.main@[i]) is None {
                assert forall|k: Seq<u8>|
                    k.len() == 16 && shard_open(
                        &s,
                        self.n_shards as int,
                        k,
                    ) implies #[trigger] vacant(self, k) by {
                    crate::scripthash::lemma_body_index(self, k, crate::scripthash::KeyHome::Main);
                    assert(self.main@[prefix_shard(k, self.n_shards as int)] is None);
                }
            }
        }
        Ok(s)
    }
}

/// What a load has sealed is in the table: the progress names no shard whose keys are
/// still pending.
pub proof fn law_progress_is_durable(s: &ScriptHashBulkSession, t: &ScriptHashTable, k: Seq<u8>)
    requires
        session_ok(s, t),
        progress_sound(s),
        !s.pack_only,
        s.progress is Some,
        k.len() == 16,
        prefix_shard(k, t.n_shards as int) < (s.progress->0).next_shard,
    ensures
        pending(s, k) is None,
        loaded(s, t, k) == t.creates(k),
{
    if pending(s, k) is Some {
        let n = t.n_shards as int;
        if s.open_key is Some && key16(s.open_key->0.key@) == k {
            let full = s.open_key->0.key@;
            assert(k[0] == full[0]);
            assert(prefix_shard(k, n) == prefix_shard(full, n));
        } else {
            lemma_list_none(s.recs@, s.lists@, k);
            let i = choose|i: int| 0 <= i < s.recs@.len() && (#[trigger] s.recs@[i]).key@ == k;
            assert(prefix_shard(s.recs@[i].key@, n) == s.active_shard->0);
        }
    }
}

/// A load that was given up and resumed goes on where it was: the keys of the shards
/// that its progress covers have the creates that were loaded before.
pub proof fn law_resume_continues(
    s: &ScriptHashBulkSession,
    t: &ScriptHashTable,
    s2: &ScriptHashBulkSession,
    t2: &ScriptHashTable,
    k: Seq<u8>,
)
    requires
        session_ok(s, t),
        progress_sound(s),
        !s.pack_only,
        s.progress is Some,
        same_creates(t, t2),
        k.len() == 16,
        loaded(s2, t2, k) == t2.creates(k),
        prefix_shard(k, t.n_shards as int) < (s.progress->0).next_shard,
    ensures
        loaded(s2, t2, k) == loaded(s, t, k),
{
    law_progress_is_durable(s, t, k);
}

/// The number of keys to expect.
pub open spec fn hint_or_default(unique_hint: u64, scale: HeadScale) -> u64 {
    if unique_hint != 0 {
        unique_hint
    } else {
        match scale {
            HeadScale::Tiny => 4096,
            HeadScale::Mainnet => 2_000_000_000,
        }
    }
}

/// Records of one packed shard.
pub struct ShShardPack {
    pub recs: Vec<Slot>,
    pub creates: u64,
    pub max_fk: u64,
    pub keys: u64,
    pub bump: u64,
    /// The creates of each record.
    pub lists: Ghost<Seq<Seq<Fk>>>,
}

/// The keys of the records rise.
pub open spec fn recs_rise(recs: Seq<Slot>) -> bool {
    forall|i: int, j: int|
        0 <= i < j < recs.len() ==> be_nat((#[trigger] recs[i]).key@) < be_nat(
            (#[trigger] recs[j]).key@,
        )
}

/// The records name creates in the body of the shard.
pub open spec fn pack_sound(p: &ShShardPack, t: &ScriptHashTable, shard: int) -> bool {
    &&& recs_sound(
        &t.bodies@[main_body(t.layout, shard)],
        p.recs@,
        p.lists@,
        t.n_shards as int,
        shard,
    )
}

impl ScriptHashBulkSession {
    /// Seals the last shard. Gives the creates and the keys.
    pub fn finish(self, table: &mut ScriptHashTable) -> (r: Result<(u64, u64), StoreError>)
        requires
            session_ok(&self, old(table)),
            !self.pack_only,
        ensures
            final(table).wf(),
            same_frame(old(table), final(table)),
            match r {
                Ok(_) => in_order(&self, old(table)) ==> forall|k: Seq<u8>|
                    k.len() == 16 ==> #[trigger] final(table).creates(k) == loaded(
                        &self,
                        old(table),
                        k,
                    ),
                Err(e) => {
                    &&& e == StoreError::Io("scripthash body cannot grow")
                    &&& !roomy(old(table))
                    &&& same_creates(old(table), final(table))
                },
            },
            r is Ok ==> (r->Ok_0).0 == (if self.open_key is Some {
                sat_add(self.live_count, self.open_key->0.n_total as int)
            } else {
                self.live_count
            }),
            r is Ok ==> (r->Ok_0).1 == (if self.open_key is Some && self.open_key->0.n_total > 0 {
                sat_add(self.keys_written, 1)
            } else {
                self.keys_written
            }),
            r is Err ==> !roomy(final(table)),
            r is Err ==> short(&self, old(table), step_room()),
            r is Ok && counted(&self, old(table)) ==> final(table).live() == (
            if self.active_shard is Some {
                written_of(&self) as nat
            } else {
                old(table).live()
            }),
            spent(old(table), final(table), 16_719_872),
            r is Ok && tallies(&self, old(table)) && in_order(&self, old(table)) && written_of(
                &self,
            ) < u64::MAX ==> counts_exact(final(table)),
    {
        let mut s = self;
        let ghost s0 = s;
        let ghost t0 = *table;
        s.finish_key(table)?;
        let ghost s1 = s;
        let ghost t1 = *table;
        let done = s.flush_active_shard(table);
        proof {
            assert(done is Ok);
            if in_order(&s0, &t0) {
                assert forall|k: Seq<u8>| k.len() == 16 implies #[trigger] table.creates(k)
                    == loaded(&s0, &t0, k) by {
                    assert(loaded(&s1, &t1, k) == loaded(&s0, &t0, k));
                }
            }
        }
        Ok((s.live_count, s.keys_written))
    }

    /// Ends the packing of one shard.
    #[verifier::rlimit(40)]
    pub fn finish_pack(self, table: &mut ScriptHashTable) -> (r: Result<ShShardPack, StoreError>)
        requires
            session_ok(&self, old(table)),
            self.pack_only ==> self.active_shard is Some,
        ensures
            final(table).wf(),
            same_frame(old(table), final(table)),
            same_creates(old(table), final(table)),
            final(table).main@ == old(table).main@,
            match r {
                Ok(p) => {
                    let si = self.active_shard->0 as int;
                    let bi = main_body(old(table).layout, si);
                    &&& self.pack_only
                    &&& p.lists@ == all_lists(&self)
                    &&& rec_keys(p.recs@) == all_keys(&self)
                    &&& pack_sound(&p, final(table), si)
                    &&& p.max_fk == self.max_fk
                    &&& p.bump == final(table).bodies@[bi].bump
                    &&& final(table).bodies@[bi].live_count == (match old(table).layout {
                        ShBodyLayout::Shared => sat_add(
                            self.committed_live_count,
                            p.creates as int,
                        ),
                        ShBodyLayout::Sharded => p.creates,
                    })
                    &&& same_other_bodies(old(table), final(table), bi)
                    &&& forall|k: Seq<u8>|
                        k.len() == 16 ==> #[trigger] list_of(p.recs@, p.lists@, k) == pending(
                            &self,
                            k,
                        )
                    &&& in_order(&self, old(table)) ==> recs_rise(p.recs@)
                    &&& self.open_key is None ==> final(table).bodies@[bi].bump == old(
                        table,
                    ).bodies@[bi].bump
                    &&& if self.open_key is Some && self.open_key->0.n_total > 0 {
                        let o = self.open_key->0;
                        &&& p.recs@ == self.recs@.push(p.recs@.last())
                        &&& p.recs@.last().key@ == key16(o.key@)
                        &&& p.lists@ == self.lists@.push(open_fks(o))
                        &&& p.creates == sat_add(self.live_count, o.n_total as int)
                        &&& p.keys == sat_add(self.keys_written, 1)
                    } else {
                        &&& p.recs@ == self.recs@
                        &&& p.lists@ == self.lists@
                        &&& p.creates == self.live_count
                        &&& p.keys == self.keys_written
                    }
                },
                Err(e) => if !self.pack_only {
                    e == StoreError::Corrupt("scripthash finish_pack requires pack_shard_session")
                } else {
                    &&& !roomy(old(table))
                    &&& !roomy(final(table))
                    &&& short(&self, old(table), step_room())
                    &&& e == StoreError::Io("scripthash body cannot grow")
                },
            },
            forall|i: int|
                0 <= i < old(table).bodies@.len() ==> (#[trigger] final(table).bodies@[i]).bump
                    <= old(table).bodies@[i].bump + held(&self) && final(table).bodies@[i].bytes@.len() <= old(table).bodies@[i].bytes@.len() + held(&self),
            tallied(&self) && r is Ok ==> pack_tallied(&r->Ok_0),
    {
        if !self.pack_only {
            return Err(
                StoreError::Corrupt("scripthash finish_pack requires pack_shard_session"),
            );
        }
        let mut s = self;
        let ghost s0 = s;
        let ghost t0 = *table;
        let si: usize = match s.active_shard {
            Some(si) => si,
            None => 0,
        };
        let bi: usize = table.main_body_index(si);
        s.finish_key(table)?;
        let ghost s1 = s;
        let ghost t1 = *table;
        let live: u64 = match table.layout {
            ShBodyLayout::Shared => sat_add_u64(s.committed_live_count, s.live_count),
            ShBodyLayout::Sharded => s.live_count,
        };
        proof {
            assert(0 <= bi < table.bodies@.len());
        }
        table.set_live(bi, live);
        let bump: u64 = table.bodies[bi].bump;
        proof {
            reveal(took);
            assert forall|i: int| 0 <= i < t0.bodies@.len() implies (
            #[trigger] table.bodies@[i]).bump <= t0.bodies@[i].bump + held(&s0)
                && table.bodies@[i].bytes@.len() <= t0.bodies@[i].bytes@.len() + held(&s0) by {
                assert(t1.bodies@[i].bump + held(&s1) <= t0.bodies@[i].bump + held(&s0));
                if i != bi {
                    assert(table.bodies@[i] == t1.bodies@[i]);
                }
            }
            let x = t1.bodies@[bi as int];
            let y = table.bodies@[bi as int];
            assert forall|o: int| #[trigger]
                x.blocks@.dom().contains(o) && x.blocks@[o].owner is Some && o != -1 implies kept(
                &x,
                &y,
                o,
            ) by {}
            lemma_recs_kept(&x, &y, s1.recs@, s1.lists@, t0.n_shards as int, si as int);
            assert forall|k: Seq<u8>| k.len() == 16 implies #[trigger] list_of(
                s1.recs@,
                s1.lists@,
                k,
            ) == pending(&s0, k) by {
                if s0.open_key is Some && s0.open_key->0.n_total > 0 {
                    assert(s1.recs@.drop_last() =~= s0.recs@);
                    lemma_list_push(s0.recs@, s0.lists@, open_fks(s0.open_key->0), k);
                }
            }
        }
        let lists = s.lists;
        proof {
            assert(rec_keys(s1.recs@) =~= all_keys(&s0));
        }
        Ok(
            ShShardPack {
                recs: s.recs,
                creates: s.live_count,
                max_fk: s.max_fk,
                keys: s.keys_written,
                bump,
                lists,
            },
        )
    }

    /// Gives up the shard that is being loaded: its body ends where the shard began.
    /// A packing session leaves the body as it is.
    pub fn abandon_incomplete(self, table: &mut ScriptHashTable)
        requires
            session_ok(&self, old(table)),
        ensures
            final(table).wf(),
            same_frame(old(table), final(table)),
            same_creates(old(table), final(table)),
            final(table).main@ == old(table).main@,
            self.pack_only || self.active_shard is None ==> *final(table) == *old(table),
            !self.pack_only ==> (self.active_shard matches Some(si) ==> {
                let bi = main_body(old(table).layout, si as int);
                &&& same_other_bodies(old(table), final(table), bi)
                &&& final(table).bodies@[bi].bump == self.shard_start_bump
                &&& final(table).bodies@[bi].live_count == (match old(table).layout {
                    ShBodyLayout::Shared => self.committed_live_count,
                    ShBodyLayout::Sharded => 0,
                })
            }),
    {
        if self.pack_only {
            return;
        }
        let si: usize = match self.active_shard {
            Some(si) => si,
            None => {
                return;
            },
        };
        let ghost t0 = *table;
        let bi: usize = table.main_body_index(si);
        let len: usize = table.bodies[bi].bytes.len();
        assert(self.shard_start_bump <= len);
        {
            let b = &mut table.bodies[bi];
            b.roll_back(self.shard_start_bump);
        }
        proof {
            lemma_rolled_back(&self.base@, &t0, table, bi as int);
        }
        let ghost t1 = *table;
        let live: u64 = match table.layout {
            ShBodyLayout::Shared => self.committed_live_count,
            ShBodyLayout::Sharded => 0,
        };
        table.set_live(bi, live);
        proof {
            assert forall|k: Seq<u8>| k.len() == 16 implies #[trigger] table.creates(k)
                == t0.creates(k) by {
                assert(table.creates(k) == t1.creates(k));
                assert(t1.creates(k) == t0.creates(k));
            }
        }
    }
}

/// A body that ends where the shard began has all blocks from before.
proof fn lemma_rolled_back(
    base: &ScriptHashTable,
    a: &ScriptHashTable,
    b: &ScriptHashTable,
    bi: int,
)
    requires
        grown_from(base, a, bi),
        a.wf(),
        same_heads(a, b),
        same_other_bodies(a, b, bi),
        b.bodies@[bi].heap_ok(),
        kept_below(&a.bodies@[bi], &b.bodies@[bi], base.bodies@[bi].bump as int),
    ensures
        b.wf(),
        same_creates(a, b),
        same_frame(a, b),
{
    let x = base.bodies@[bi];
    let m = a.bodies@[bi];
    let y = b.bodies@[bi];
    assert forall|o: int| #[trigger]
        x.blocks@.dom().contains(o) && x.blocks@[o].owner is Some && o != -1 implies kept(
        &x,
        &y,
        o,
    ) by {
        assert(kept(&x, &m, o));
        assert(m.blocks@.dom().contains(o));
        assert(kept(&m, &y, o));
    }
    lemma_table_kept(base, b, bi);
    lemma_table_kept(base, a, bi);
    assert forall|k: Seq<u8>| k.len() == 16 implies #[trigger] b.creates(k) == a.creates(k) by {
        assert(b.creates(k) == base.creates(k));
        assert(a.creates(k) == base.creates(k));
    }
}

/// The creates of a key of a shard after its pack was published.
pub open spec fn published_list(t: &ScriptHashTable, pack: &ShShardPack, k: Seq<u8>) -> Seq<Fk> {
    if in_ovf(t, k) {
        t.creates(k)
    } else {
        match list_of(pack.recs@, pack.lists@, k) {
            Some(l) => l,
            None => Seq::empty(),
        }
    }
}

impl ScriptHashTable {
    /// Seals a packed shard. Gives the end of its body. The overflow masks its keys.
    pub fn publish_packed_shard(&mut self, shard: usize, pack: &ShShardPack) -> (r: Result<
        u64,
        StoreError,
    >)
        requires
            old(self).wf(),
            shard < old(self).n_shards,
            pack_sound(pack, old(self), shard as int),
        ensures
            final(self).wf(),
            same_frame(old(self), final(self)),
            r == Ok::<u64, StoreError>(pack.bump),
            final(self).bodies@ == old(self).bodies@,
            final(self).main@[shard as int] is Some,
            forall|i: int|
                0 <= i < old(self).main@.len() && i != shard ==> final(self).main@[i] == old(
                    self,
                ).main@[i],
            installed(old(self), final(self), shard as int, pack.recs@, pack.lists@),
            recs_rise(pack.recs@) ==> forall|k: Seq<u8>|
                k.len() == 16 && prefix_shard(k, old(self).n_shards as int) == shard
                    ==> #[trigger] final(self).creates(k) == published_list(old(self), pack, k),
            sorted_by_rank(pack.recs@) ==> installed_first(
                old(self),
                final(self),
                shard as int,
                pack.recs@,
                pack.lists@,
            ),
    {
        let ghost a = *self;
        self.install_sorted_main(shard, &pack.recs, Ghost(pack.lists@));
        proof {
            if recs_rise(pack.recs@) {
                assert forall|k: Seq<u8>|
                    k.len() == 16 && prefix_shard(k, a.n_shards as int) == shard implies #[trigger] self.creates(
                    k,
                ) == published_list(&a, pack, k) by {
                    lemma_list_none(pack.recs@, pack.lists@, k);
                    let c = self.creates(k);
                    if !in_ovf(&a, k) && has_key(pack.recs@, k) {
                        let i = choose|i: int|
                            0 <= i < pack.recs@.len() && (#[trigger] pack.recs@[i]).key@ == k && c
                                == pack.lists@[i];
                        lemma_list_at(pack.recs@, pack.lists@, i);
                    }
                }
            }
        }
        Ok(pack.bump)
    }

    /// Seals a main shard with the given records, counter and body end.
    pub fn publish_sorted_shard(
        &mut self,
        shard: usize,
        recs: &Vec<Slot>,
        live_count: u64,
        bump: u64,
    ) -> (r: Result<(), StoreError>)
        requires
            old(self).wf(),
            shard < old(self).n_shards,
            exists|lists: Seq<Seq<Fk>>|
                recs_sound(
                    &old(self).bodies@[main_body(old(self).layout, shard as int)],
                    recs@,
                    lists,
                    old(self).n_shards as int,
                    shard as int,
                ),
            old(self).bodies@[main_body(old(self).layout, shard as int)].bump <= bump
                <= crate::scripthash_body::SH_BODY_MAX,
            bump <= usize::MAX,
        ensures
            final(self).wf(),
            same_frame(old(self), final(self)),
            r is Ok,
            ({
                let bi = main_body(old(self).layout, shard as int);
                &&& same_other_bodies(old(self), final(self), bi)
                &&& final(self).bodies@[bi].live_count == live_count
                &&& final(self).bodies@[bi].bump == bump
                &&& final(self).main@[shard as int] is Some
                &&& exists|lists: Seq<Seq<Fk>>| #[trigger]
                    installed(old(self), final(self), shard as int, recs@, lists) && recs_sound(
                        &old(self).bodies@[bi],
                        recs@,
                        lists,
                        old(self).n_shards as int,
                        shard as int,
                    )
            }),
    {
        let ghost a = *self;
        let bi: usize = self.main_body_index(shard);
        let ghost lists = choose|lists: Seq<Seq<Fk>>|
            recs_sound(
                &a.bodies@[bi as int],
                recs@,
                lists,
                a.n_shards as int,
                shard as int,
            );
        self.install_sorted_main(shard, recs, Ghost(lists));
        let ghost b = *self;
        proof {
            assert(0 <= bi < self.bodies@.len());
        }
        {
            let body = &mut self.bodies[bi];
            body.grow_to(bump);
        }
        proof {
            lemma_table_kept(&b, self, bi as int);
        }
        let ghost c = *self;
        self.set_live(bi, live_count);
        proof {
            assert(installed(&a, self, shard as int, recs@, lists)) by {
                assert forall|k: Seq<u8>| k.len() == 16 implies #[trigger] self.creates(k)
                    == b.creates(k) by {
                    assert(self.creates(k) == c.creates(k));
                    assert(c.creates(k) == b.creates(k));
                }
            }
        }
        Ok(())
    }
}

} // verus!
