//! Open-addressed scripthash head: 16-byte key to one packed value.
//!
//! The key is the first 16 bytes of the scripthash. Calls take full 32-byte
//! hashes and truncate them. A cleared key keeps its slot, so that probing for
//! other keys still passes it.
//!
//! The number of used slots may be unknown after a large table was opened
//! without its count; such a table is never taken for empty.

use vstd::prelude::*;
use vstd::arithmetic::power2::is_pow2;
use crate::bytes::{get_u64, le64, lemma_le_nat_of_seq, lemma_p256_values, push_u64, u64_at};
use crate::error::StoreError;
use crate::hashhead::{least_pow2, lemma_least_pow2_unique, next_pow2, HeadScale};
use crate::open_address::{MAX_LOAD_DEN, MAX_LOAD_NUM};
use crate::scripthash_layout::{head_key_from_full, key_of, lemma_key_of, ShHeadKey, ShHeadValue};
use crate::scripthash_pack8::{law_pack8_roundtrip, pack8, pack8_word, packed_form, unpack8, unpack8_word, SH_HEAD_SLOT_SIZE};
use crate::sealed_head::{keys_rise, lemma_sealed_at, lemma_sealed_has, sealed_word};
use crate::slot_table::{all_empty, chain_ok, count_used, empty_slots, find, find_slot, find_stop, key_eq, lemma_count_bound, lemma_count_update, lemma_find_char, lemma_find_with_room, lemma_put, lemma_put_map, lemma_room, lemma_stored_found, lookup, place, refill, scan_used, slot_dead, slot_empty, slot_for, slot_is_dead, slot_is_empty, slot_of, slots_map, slots_shape, zero_key, InsertResult, Slot};
use crate::sorting::{be_nat, bytes_order, sort_ranked, sorted_by_rank, Cmp3, Ranked};

verus! {

/// A table without a stored count is scanned only up to this size.
pub const OCC_SCAN_BYTE_CAP: u64 = 16_777_216;

/// Slots of a table without keys.
pub const DEFAULT_SLOTS: u64 = 64;

/// Least number of slots that keeps `keys` keys at 7/8 load.
pub open spec fn slots_needed(keys: int) -> int {
    let eight = if 8 * keys > u64::MAX {
        u64::MAX as int
    } else {
        8 * keys
    };
    let min = (eight + 6) / 7;
    if min < 64 {
        64
    } else {
        min
    }
}

/// Slot count for `keys` unique keys at 7/8 maximum load (a power of two).
pub fn sh_slots_for_keys(keys: u64) -> (r: u64)
    ensures
        least_pow2(r as int, slots_needed(keys as int)),
{
    let eight: u64 = match keys.checked_mul(MAX_LOAD_DEN) {
        Some(x) => x,
        None => u64::MAX,
    };
    let q: u64 = eight / MAX_LOAD_NUM;
    let min: u64 = if eight % MAX_LOAD_NUM == 0 {
        q
    } else {
        q + 1
    };
    next_pow2(
        if min < DEFAULT_SLOTS {
            DEFAULT_SLOTS
        } else {
            min
        },
    )
}

/// Unique-key estimate: an explicit one, else the default of the scale.
pub fn sh_unique_hint_default(given: Option<u64>, scale: HeadScale) -> (r: u64)
    ensures
        r == match (given, scale) {
            (Some(n), _) => if n == 0 {
                1u64
            } else {
                n
            },
            (None, HeadScale::Tiny) => 4096,
            (None, HeadScale::Mainnet) => 2_000_000_000,
        },
{
    match given {
        Some(n) => if n == 0 {
            1
        } else {
            n
        },
        None => match scale {
            HeadScale::Tiny => 4_096,
            HeadScale::Mainnet => 2_000_000_000,
        },
    }
}

/// `a / b` rounded up.
pub open spec fn ceil_div(a: int, b: int) -> int {
    (a + b - 1) / b
}

/// Key budget of one shard: an even share of the estimate and a quarter more.
pub open spec fn shard_budget(unique_hint: int, n_shards: int) -> int {
    let n = if n_shards < 1 {
        1
    } else {
        n_shards
    };
    let h = if unique_hint < 1 {
        1
    } else {
        unique_hint
    };
    let five = 5 * ceil_div(h, n);
    ceil_div(
        if five > u64::MAX {
            u64::MAX as int
        } else {
            five
        },
        4,
    )
}

fn div_up(a: u64, b: u64) -> (r: u64)
    requires
        b >= 1,
    ensures
        r == ceil_div(a as int, b as int),
{
    let q: u64 = a / b;
    proof {
        let (ai, bi) = (a as int, b as int);
        vstd::arithmetic::div_mod::lemma_fundamental_div_mod(ai, bi);
        vstd::arithmetic::div_mod::lemma_mod_bound(ai, bi);
        let qi = ai / bi;
        let m = ai % bi;
        if m == 0 {
            assert(ai + bi - 1 == qi * bi + (bi - 1)) by (nonlinear_arith)
                requires
                    ai == bi * qi + m,
                    m == 0,
            ;
            vstd::arithmetic::div_mod::lemma_fundamental_div_mod_converse(
                ai + bi - 1,
                bi,
                qi,
                bi - 1,
            );
        } else {
            assert(ai + bi - 1 == (qi + 1) * bi + (m - 1)) by (nonlinear_arith)
                requires
                    ai == bi * qi + m,
            ;
            vstd::arithmetic::div_mod::lemma_fundamental_div_mod_converse(
                ai + bi - 1,
                bi,
                qi + 1,
                m - 1,
            );
            assert(qi < ai) by (nonlinear_arith)
                requires
                    ai == bi * qi + m,
                    bi >= 1,
                    0 < m < bi,
                    qi >= 0,
            ;
        }
    }
    if a % b == 0 {
        q
    } else {
        q + 1
    }
}

/// Key budget of one shard.
pub fn sh_per_shard_key_budget(unique_hint: u64, n_shards: usize) -> (r: u64)
    ensures
        r == shard_budget(unique_hint as int, n_shards as int),
        r >= 1,
{
    let n: u64 = if n_shards < 1 {
        1
    } else {
        n_shards as u64
    };
    let h: u64 = if unique_hint < 1 {
        1
    } else {
        unique_hint
    };
    let share: u64 = div_up(h, n);
    proof {
        assert(share >= 1) by (nonlinear_arith)
            requires
                share == (h + n - 1) / n as int,
                h >= 1,
                n >= 1,
        ;
    }
    let five: u64 = match share.checked_mul(5) {
        Some(x) => x,
        None => u64::MAX,
    };
    div_up(five, 4)
}

/// Shard of a hash: its high bits, so that hash order is shard order.
pub open spec fn prefix_shard(full: Seq<u8>, n_shards: int) -> int {
    if n_shards <= 1 {
        0
    } else {
        full[0] as int * n_shards / 256
    }
}

/// The shard counts that a hash can be split by.
pub open spec fn shard_count_ok(n_shards: int) -> bool {
    n_shards <= 1 || (is_pow2(n_shards) && n_shards <= 256)
}

/// Shard of a full hash (`n_shards` is a power of two up to 256).
pub fn prefix_shard_of(full: &[u8; 32], n_shards: usize) -> (r: usize)
    requires
        shard_count_ok(n_shards as int),
    ensures
        r == prefix_shard(full@, n_shards as int),
        r < n_shards || r == 0,
{
    if n_shards <= 1 {
        return 0;
    }
    proof {
        assert(0 <= full@[0] as int * n_shards as int <= 255 * n_shards) by (nonlinear_arith)
            requires
                0 <= full@[0] as int <= 255,
                n_shards >= 0,
        ;
        assert(full@[0] as int * n_shards as int / 256 < n_shards) by (nonlinear_arith)
            requires
                0 <= full@[0] as int * n_shards as int <= 255 * n_shards,
                n_shards >= 1,
        ;
    }
    full[0] as usize * n_shards / 256
}

/// A hash with a larger first byte never lies in an earlier shard, and every
/// shard number is below the shard count.
pub proof fn law_prefix_shard_monotone(a: Seq<u8>, b: Seq<u8>, n_shards: int)
    requires
        a.len() == 32,
        b.len() == 32,
        a[0] <= b[0],
        shard_count_ok(n_shards),
    ensures
        0 <= prefix_shard(a, n_shards) <= prefix_shard(b, n_shards),
        n_shards >= 1 ==> prefix_shard(b, n_shards) < n_shards,
{
    if n_shards > 1 {
        let x = a[0] as int * n_shards;
        let y = b[0] as int * n_shards;
        assert(0 <= x <= y <= 255 * n_shards) by (nonlinear_arith)
            requires
                x == a[0] as int * n_shards,
                y == b[0] as int * n_shards,
                0 <= a[0] as int <= b[0] as int <= 255,
                n_shards > 1,
        ;
    }
}

/// Head key of a full hash.
pub open spec fn key16(full: Seq<u8>) -> Seq<u8> {
    full.subrange(0, 16)
}

/// What a head answers for a stored word.
pub open spec fn head_answer(w: Option<u64>) -> Result<Option<ShHeadValue>, StoreError> {
    match w {
        None => Ok(None),
        Some(w) => match unpack8(w) {
            Ok(v) => Ok(Some(v)),
            Err(e) => Err(e),
        },
    }
}

/// One head entry: full hash and value.
pub type HeadEntry = ([u8; 32], ShHeadValue);

/// The map after the entries with an empty value were cleared.
pub open spec fn cleared(m: Map<Seq<u8>, u64>, entries: Seq<HeadEntry>) -> Map<Seq<u8>, u64>
    decreases entries.len(),
{
    if entries.len() == 0 {
        m
    } else {
        let rest = cleared(m, entries.drop_last());
        if entries.last().1 is Empty {
            rest.remove(key16(entries.last().0@))
        } else {
            rest
        }
    }
}

/// The map after the entries with a value were stored, in order.
pub open spec fn upserted(m: Map<Seq<u8>, u64>, entries: Seq<HeadEntry>) -> Map<Seq<u8>, u64>
    decreases entries.len(),
{
    if entries.len() == 0 {
        m
    } else {
        let rest = upserted(m, entries.drop_last());
        if entries.last().1 is Empty {
            rest
        } else {
            rest.insert(key16(entries.last().0@), pack8(entries.last().1)->Ok_0)
        }
    }
}

/// Error of the first entry whose value has no packed form.
pub open spec fn first_pack_err(entries: Seq<HeadEntry>) -> Option<StoreError>
    decreases entries.len(),
{
    if entries.len() == 0 {
        None
    } else {
        match first_pack_err(entries.drop_last()) {
            Some(e) => Some(e),
            None => match pack8(entries.last().1) {
                Ok(_) => None,
                Err(e) => Some(e),
            },
        }
    }
}

/// The slots that the entries with a value ask for, in order.
pub open spec fn wanted(entries: Seq<HeadEntry>) -> Seq<(Seq<u8>, u64)>
    decreases entries.len(),
{
    if entries.len() == 0 {
        Seq::empty()
    } else if entries.last().1 is Empty {
        wanted(entries.drop_last())
    } else {
        wanted(entries.drop_last()).push(
            (key16(entries.last().0@), pack8(entries.last().1)->Ok_0),
        )
    }
}

/// The map after storing keys and words in order.
pub open spec fn stored(m: Map<Seq<u8>, u64>, ups: Seq<(Seq<u8>, u64)>) -> Map<Seq<u8>, u64>
    decreases ups.len(),
{
    if ups.len() == 0 {
        m
    } else {
        stored(m, ups.drop_last()).insert(ups.last().0, ups.last().1)
    }
}

proof fn lemma_stored_wanted(m: Map<Seq<u8>, u64>, entries: Seq<HeadEntry>)
    ensures
        stored(m, wanted(entries)) == upserted(m, entries),
    decreases entries.len(),
{
    if entries.len() > 0 {
        lemma_stored_wanted(m, entries.drop_last());
        if !(entries.last().1 is Empty) {
            let w = wanted(entries);
            assert(w.drop_last() =~= wanted(entries.drop_last()));
        }
    }
}

/// Keys and words of slots.
pub open spec fn slot_pairs(ups: Seq<Slot>) -> Seq<(Seq<u8>, u64)> {
    ups.map_values(|s: Slot| (s.key@, s.word))
}

/// Where slots spill to when the table must not grow: those stored in place,
/// and those left over. After the first one left over no new key is taken.
pub open spec fn spill(slots: Seq<Slot>, ups: Seq<Slot>, allow_new: bool) -> (
    Seq<Slot>,
    Seq<Slot>,
    bool,
)
    decreases ups.len(),
{
    if ups.len() == 0 {
        (slots, Seq::empty(), allow_new)
    } else {
        let (t, rem, allow) = spill(slots, ups.drop_last(), allow_new);
        let s = ups.last();
        let p = find_slot(t, s.key@);
        if find(t, s.key@) >= t.len() || (slot_empty(t[p]) && !allow) {
            (t, rem.push(s), false)
        } else {
            (t.update(p, s), rem, allow)
        }
    }
}

/// What making room for keys does to a head: the slot count grows to what they need where
/// the number of used slots is known, and all else stays.
pub open spec fn reserved(a: &ScriptHashHead, b: &ScriptHashHead, more: int) -> bool {
    &&& b@ == a@
    &&& b.counter() == a.counter()
    &&& b.used_slots() == a.used_slots()
    &&& if more > 0 && a.used_slots() is Some {
        grown_for(
            a.table().len() as int,
            b.table().len() as int,
            a.used_slots()->0 as int,
            more,
        )
    } else {
        b.table() == a.table()
    }
}

/// One of the pairs has the key.
pub open spec fn asks(ups: Seq<(Seq<u8>, u64)>, k: Seq<u8>) -> bool {
    exists|j: int| 0 <= j < ups.len() && (#[trigger] ups[j]).0 == k
}

/// How many keys of the pairs have no slot; a key that comes twice counts once.
pub open spec fn fresh(slots: Seq<Slot>, ups: Seq<(Seq<u8>, u64)>) -> nat
    decreases ups.len(),
{
    if ups.len() == 0 {
        0
    } else {
        fresh(slots, ups.drop_last()) + if has_slot(slots, ups.last().0) || asks(
            ups.drop_last(),
            ups.last().0,
        ) {
            0nat
        } else {
            1nat
        }
    }
}

/// `b` has slots for the keys of `a` and of the pairs, and one for each.
pub open spec fn slots_with(a: Seq<Slot>, b: Seq<Slot>, ups: Seq<(Seq<u8>, u64)>) -> bool {
    &&& forall|k: Seq<u8>| #[trigger] has_slot(b, k) <==> has_slot(a, k) || asks(ups, k)
    &&& count_used(b) == count_used(a) + fresh(a, ups)
}

proof fn lemma_with_push(
    a: Seq<Slot>,
    b: Seq<Slot>,
    c: Seq<Slot>,
    ups: Seq<(Seq<u8>, u64)>,
    p: (Seq<u8>, u64),
)
    requires
        slots_with(a, b, ups),
        slots_with(b, c, seq![p]),
    ensures
        slots_with(a, c, ups.push(p)),
{
    let q = ups.push(p);
    let one = seq![p];
    assert(q.drop_last() =~= ups);
    assert(one.drop_last() =~= Seq::empty());
    assert(one[0] == p);
    reveal_with_fuel(fresh, 2);
    assert forall|k: Seq<u8>| #[trigger] has_slot(c, k) <==> has_slot(a, k) || asks(q, k) by {
        assert(has_slot(b, k) <==> has_slot(a, k) || asks(ups, k));
        if asks(ups, k) {
            let j = choose|j: int| 0 <= j < ups.len() && (#[trigger] ups[j]).0 == k;
            assert(q[j] == ups[j]);
        }
        if k == p.0 {
            assert(q[ups.len() as int].0 == k);
            assert(one[0].0 == k);
        }
        if asks(q, k) {
            let j = choose|j: int| 0 <= j < q.len() && (#[trigger] q[j]).0 == k;
            if j < ups.len() {
                assert(ups[j].0 == k);
            }
        }
    }
    assert(has_slot(b, p.0) <==> has_slot(a, p.0) || asks(ups, p.0));
    assert(!asks(Seq::<(Seq<u8>, u64)>::empty(), p.0));
}

proof fn lemma_fresh_same(a: Seq<Slot>, b: Seq<Slot>, ups: Seq<(Seq<u8>, u64)>)
    requires
        forall|k: Seq<u8>| #[trigger] has_slot(b, k) <==> has_slot(a, k),
    ensures
        fresh(b, ups) == fresh(a, ups),
    decreases ups.len(),
{
    if ups.len() > 0 {
        lemma_fresh_same(a, b, ups.drop_last());
        assert(has_slot(b, ups.last().0) <==> has_slot(a, ups.last().0));
    }
}

proof fn lemma_with_after(
    a: Seq<Slot>,
    b: Seq<Slot>,
    c: Seq<Slot>,
    ups: Seq<(Seq<u8>, u64)>,
)
    requires
        slots_with(a, b, Seq::empty()),
        slots_with(b, c, ups),
    ensures
        slots_with(a, c, ups),
{
    assert forall|k: Seq<u8>| #[trigger] has_slot(b, k) <==> has_slot(a, k) by {
        assert(!asks(Seq::<(Seq<u8>, u64)>::empty(), k));
    }
    lemma_fresh_same(a, b, ups);
}

/// The slot that an upsert goes to is empty exactly if its key had none.
proof fn lemma_with_put(slots: Seq<Slot>, s: Slot)
    requires
        chain_ok(slots),
        !slot_empty(s),
        find(slots, s.key@) < slots.len(),
    ensures
        slots_with(slots, slots.update(find_slot(slots, s.key@), s), seq![(s.key@, s.word)]),
{
    let p = find_slot(slots, s.key@);
    let one = seq![(s.key@, s.word)];
    lemma_find_char(slots, s.key@);
    lemma_count_update(slots, p, s);
    assert(one.drop_last() =~= Seq::empty());
    reveal_with_fuel(fresh, 2);
    assert(!asks(Seq::<(Seq<u8>, u64)>::empty(), s.key@));
    if has_slot(slots, s.key@) {
        let i = choose|i: int|
            0 <= i < slots.len() && !slot_empty(#[trigger] slots[i]) && slots[i].key@ == s.key@;
        lemma_slot_at(slots, i);
    } else if !slot_empty(slots[p]) {
        assert(slots[p].key@ == s.key@);
    }
    assert forall|k: Seq<u8>| #[trigger]
        has_slot(slots.update(p, s), k) <==> has_slot(slots, k) || asks(one, k) by {
        lemma_slot_put(slots, s, k);
        if k == s.key@ {
            assert(one[0].0 == k);
        }
    }
}

/// A slot that is written again under its key stays that key's slot.
proof fn lemma_with_clear(slots: Seq<Slot>, s: Slot)
    requires
        chain_ok(slots),
        !slot_empty(s),
        find(slots, s.key@) < slots.len(),
        !slot_empty(slots[find_slot(slots, s.key@)]),
    ensures
        slots_with(slots, slots.update(find_slot(slots, s.key@), s), Seq::empty()),
{
    let p = find_slot(slots, s.key@);
    lemma_find_char(slots, s.key@);
    lemma_count_update(slots, p, s);
    assert(slots[p].key@ == s.key@);
    assert forall|k: Seq<u8>| #[trigger]
        has_slot(slots.update(p, s), k) <==> has_slot(slots, k) || asks(
            Seq::<(Seq<u8>, u64)>::empty(),
            k,
        ) by {
        lemma_slot_put(slots, s, k);
    }
}

/// A table with the same stored slots.
proof fn lemma_with_refill(a: Seq<Slot>, b: Seq<Slot>)
    requires
        count_used(b) == count_used(a),
        forall|q: int| 0 <= q < b.len() && !slot_empty(#[trigger] b[q]) ==> a.contains(b[q]),
        forall|j: int| 0 <= j < a.len() && !slot_empty(#[trigger] a[j]) ==> b.contains(a[j]),
    ensures
        slots_with(a, b, Seq::empty()),
{
    assert forall|k: Seq<u8>| #[trigger]
        has_slot(b, k) <==> has_slot(a, k) || asks(Seq::<(Seq<u8>, u64)>::empty(), k) by {
        if has_slot(b, k) {
            let i = choose|i: int|
                0 <= i < b.len() && !slot_empty(#[trigger] b[i]) && b[i].key@ == k;
            let j = choose|j: int| 0 <= j < a.len() && a[j] == b[i];
            assert(a[j].key@ == k);
        }
        if has_slot(a, k) {
            let i = choose|i: int|
                0 <= i < a.len() && !slot_empty(#[trigger] a[i]) && a[i].key@ == k;
            let j = choose|j: int| 0 <= j < b.len() && b[j] == a[i];
            assert(b[j].key@ == k);
        }
    }
}

/// What storing entries does to a head: values are stored and empty values clear, and the
/// slot count grows only where the load limit asks for it. Each key without a slot takes one.
pub open spec fn stored_entries(
    a: &ScriptHashHead,
    b: &ScriptHashHead,
    entries: Seq<HeadEntry>,
) -> bool {
    let n = wanted(entries).len() as int;
    &&& b@ == upserted(cleared(a@, entries), entries)
    &&& b.table().len() >= a.table().len()
    &&& slots_with(a.table(), b.table(), wanted(entries))
    &&& a.used_slots() matches Some(u) ==> {
        &&& grown_for(a.table().len() as int, b.table().len() as int, u as int, n)
        &&& b.used_slots() matches Some(v) && v == b.counter() && (n > 0 ==> 8 * v <= 7
            * b.table().len())
    }
}

/// What storing one value does to the slots of a sound head whose count is known: the key
/// takes a slot where it has none, and the slot count grows only where the load limit asks
/// for it.
pub open spec fn one_stored(
    a: &ScriptHashHead,
    b: &ScriptHashHead,
    full: Seq<u8>,
    value: ShHeadValue,
    done: bool,
) -> bool {
    let more: int = if !done || value is Empty {
        0
    } else {
        1
    };
    &&& b.table().len() >= a.table().len()
    &&& forall|k: Seq<u8>| #[trigger]
        has_slot(b.table(), k) <==> has_slot(a.table(), k) || (more == 1 && k == key16(full))
    &&& a.used_slots() matches Some(u) ==> {
        &&& b.used_slots() == Some(
            (u + (if has_slot(a.table(), key16(full)) {
                0
            } else {
                more
            })) as u64,
        )
        &&& grown_for(a.table().len() as int, b.table().len() as int, u as int, more)
    }
}

/// Open-addressed head.
pub struct ScriptHashHead {
    slots: Vec<Slot>,
    occupied: u64,
    /// When false, `occupied` says nothing.
    occ_known: bool,
}

impl ScriptHashHead {
    /// The slots.
    pub closed spec fn table(&self) -> Seq<Slot> {
        self.slots@
    }

    /// The count of used slots, where it is known.
    pub closed spec fn used_slots(&self) -> Option<u64> {
        if self.occ_known {
            Some(self.occupied)
        } else {
            None
        }
    }

    /// The counter as it is kept.
    pub closed spec fn counter(&self) -> u64 {
        self.occupied
    }

    /// Keys and packed values.
    pub open spec fn view(&self) -> Map<Seq<u8>, u64> {
        slots_map(self.table())
    }

    /// The slot count is usable and the counter does not exceed it.
    pub open spec fn shape(&self) -> bool {
        slots_shape(self.table()) && self.counter() <= self.table().len()
    }

    /// Every stored key is found, and a known count is right.
    pub open spec fn inv(&self) -> bool {
        &&& self.shape()
        &&& chain_ok(self.table())
        &&& self.used_slots() matches Some(n) ==> n == count_used(self.table()) && n
            == self.counter()
    }

    /// `more` further keys keep the table within the address space.
    pub open spec fn can_take(&self, more: int) -> bool {
        self.table().len() + more <= usize::MAX / 16
    }

    /// True if every stored key is found where it lies, and the count of used slots is known
    /// and right.
    pub fn check(&self) -> (r: bool)
        requires
            slots_shape(self.table()),
        ensures
            r == (self.inv() && self.used_slots() is Some),
    {
        let mut n: u64 = 0;
        let mut i: usize = 0;
        proof {
            assert(self.slots@.subrange(0, 0) =~= Seq::empty());
        }
        while i < self.slots.len()
            invariant
                i <= self.slots@.len(),
                slots_shape(self.slots@),
                n == count_used(self.slots@.subrange(0, i as int)),
                n <= i,
                forall|j: int|
                    0 <= j < i && !slot_empty(#[trigger] self.slots@[j]) ==> find(
                        self.slots@,
                        self.slots@[j].key@,
                    ) < self.slots@.len() && find_slot(self.slots@, self.slots@[j].key@) == j,
            decreases self.slots@.len() - i,
        {
            proof {
                let p = self.slots@.subrange(0, i + 1);
                assert(p.drop_last() =~= self.slots@.subrange(0, i as int));
            }
            if !slot_is_empty(&self.slots[i]) {
                n += 1;
                let at: usize = match find_stop(&self.slots, &self.slots[i].key) {
                    Some(j) => j,
                    None => self.slots.len(),
                };
                if at != i {
                    proof {
                        reveal(chain_ok);
                        assert(!slot_empty(self.slots@[i as int]));
                    }
                    return false;
                }
            }
            i += 1;
        }
        proof {
            reveal(chain_ok);
            assert(self.slots@.subrange(0, i as int) =~= self.slots@);
        }
        self.occ_known && self.occupied == n
    }

    /// A new head with at least `slots` slots.
    pub fn create_with_slots(slots: u64) -> (r: Self)
        requires
            slots <= usize::MAX / 16,
        ensures
            r.inv(),
            r@ == Map::<Seq<u8>, u64>::empty(),
            least_pow2(
                r.table().len() as int,
                if slots < 2 {
                    2
                } else {
                    slots as int
                },
            ),
            r.used_slots() == Some(0u64),
            all_empty(r.table()),
    {
        let n: u64 = next_pow2(
            if slots < 2 {
                2
            } else {
                slots
            },
        );
        ScriptHashHead { slots: empty_slots(n as usize), occupied: 0, occ_known: true }
    }

    /// Empties every slot.
    pub fn reinit_empty(&mut self)
        requires
            old(self).shape(),
        ensures
            final(self).inv(),
            final(self)@ == Map::<Seq<u8>, u64>::empty(),
            final(self).table().len() == old(self).table().len(),
            final(self).used_slots() == Some(0u64),
            all_empty(final(self).table()),
    {
        self.slots = empty_slots(self.slots.len());
        self.occupied = 0;
        self.occ_known = true;
    }

    /// Value stored for a hash.
    pub fn get(&self, full: &[u8; 32]) -> (r: Result<Option<ShHeadValue>, StoreError>)
        requires
            slots_shape(self.table()),
        ensures
            r == head_answer(lookup(self.table(), key16(full@))),
    {
        let key = head_key_from_full(full);
        proof {
            lemma_find_char(self.slots@, key@);
        }
        match find_stop(&self.slots, &key) {
            None => Ok(None),
            Some(i) => {
                let w: u64 = self.slots[i].word;
                if slot_is_dead(&self.slots[i]) {
                    return Ok(None);
                }
                match unpack8_word(w) {
                    Ok(v) => Ok(Some(v)),
                    Err(e) => Err(e),
                }
            },
        }
    }

    /// Packed word stored for a head key (0 if there is none).
    pub fn word_of(&self, key: &ShHeadKey) -> (r: u64)
        requires
            slots_shape(self.table()),
        ensures
            r == (match lookup(self.table(), key@) {
                Some(w) => w,
                None => 0,
            }),
    {
        proof {
            lemma_find_char(self.slots@, key@);
        }
        match find_stop(&self.slots, key) {
            None => 0,
            Some(i) => if slot_is_dead(&self.slots[i]) {
                0
            } else {
                self.slots[i].word
            },
        }
    }

    /// Values stored for several hashes, or the error of the first bad one.
    pub fn get_many(&self, fulls: &[[u8; 32]]) -> (r: Result<Vec<Option<ShHeadValue>>, StoreError>)
        requires
            self.shape(),
        ensures
            match r {
                Ok(v) => v@.len() == fulls@.len() && forall|i: int|
                    0 <= i < fulls@.len() ==> head_answer(
                        lookup(self.table(), key16((#[trigger] fulls@[i])@)),
                    ) == Ok::<Option<ShHeadValue>, StoreError>(v@[i]),
                Err(e) => exists|i: int|
                    0 <= i < fulls@.len() && head_answer(
                        lookup(self.table(), key16((#[trigger] fulls@[i])@)),
                    ) == Err::<Option<ShHeadValue>, StoreError>(e) && forall|j: int|
                        0 <= j < i ==> head_answer(
                            lookup(self.table(), key16((#[trigger] fulls@[j])@)),
                        ) is Ok,
            },
    {
        let mut out: Vec<Option<ShHeadValue>> = Vec::new();
        let mut i: usize = 0;
        while i < fulls.len()
            invariant
                i <= fulls@.len(),
                self.shape(),
                out@.len() == i,
                forall|j: int|
                    0 <= j < i ==> head_answer(
                        lookup(self.table(), key16((#[trigger] fulls@[j])@)),
                    ) == Ok::<Option<ShHeadValue>, StoreError>(out@[j]),
            decreases fulls@.len() - i,
        {
            match self.get(&fulls[i]) {
                Ok(v) => out.push(v),
                Err(e) => {
                    assert(head_answer(lookup(self.table(), key16(fulls@[i as int]@))) == Err::<
                        Option<ShHeadValue>,
                        StoreError,
                    >(e));
                    return Err(e);
                },
            }
            i += 1;
        }
        Ok(out)
    }

    /// Clears the value of a key; its slot stays in the probe chain, and stays in use.
    ///
    /// True if the key had a slot.
    pub fn clear_key(&mut self, full: &[u8; 32]) -> (r: bool)
        requires
            old(self).shape(),
        ensures
            r == ({
                let t = old(self).table();
                find(t, key16(full@)) < t.len() && !slot_empty(t[find_slot(t, key16(full@))])
            }),
            !r ==> *final(self) == *old(self),
            final(self).table() == (if r {
                old(self).table().update(
                    find_slot(old(self).table(), key16(full@)),
                    slot_for(key_of(*full), 0),
                )
            } else {
                old(self).table()
            }),
            final(self).used_slots() == old(self).used_slots(),
            final(self).counter() == old(self).counter(),
            final(self).shape(),
            old(self).inv() ==> final(self).inv() && final(self)@ == old(self)@.remove(
                key16(full@),
            ),
            old(self).inv() && old(self)@.dom().contains(key16(full@)) ==> r,
            old(self).inv() ==> slots_with(old(self).table(), final(self).table(), Seq::empty()),
    {
        let key = head_key_from_full(full);
        proof {
            lemma_key_of(*full);
            assert(key =~= key_of(*full));
            lemma_find_char(self.slots@, key@);
            let s0 = self.slots@;
            if lookup(s0, key@) is None {
                assert(slots_map(s0).remove(key@) =~= slots_map(s0));
            }
        }
        match find_stop(&self.slots, &key) {
            None => false,
            Some(i) => {
                if slot_is_empty(&self.slots[i]) {
                    return false;
                }
                let s: Slot = slot_of(&key, 0);
                proof {
                    lemma_count_update(self.slots@, i as int, s);
                    if chain_ok(self.slots@) {
                        lemma_put(self.slots@, s);
                        lemma_put_map(self.slots@, s);
                        lemma_with_clear(self.slots@, s);
                    }
                }
                self.slots.set(i, s);
                true
            },
        }
    }

    /// Rebuilds the table with at least `new_slots` slots.
    fn rehash_to(&mut self, new_slots: u64)
        requires
            old(self).shape(),
            new_slots <= usize::MAX / 2,
        ensures
            final(self).shape(),
            ({
                let want = if new_slots < 2 {
                    2int
                } else {
                    new_slots as int
                };
                if want <= old(self).table().len() {
                    *final(self) == *old(self)
                } else {
                    least_pow2(final(self).table().len() as int, want)
                }
            }),
            final(self).table().len() >= old(self).table().len(),
            count_used(final(self).table()) <= count_used(old(self).table()),
            old(self).used_slots() is Some ==> final(self).used_slots() is Some,
            old(self).inv() ==> final(self).inv() && final(self)@ == old(self)@ && (
            old(self).used_slots() is Some ==> final(self).used_slots()
                == old(self).used_slots()),
            old(self).inv() ==> slots_with(old(self).table(), final(self).table(), Seq::empty()),
            final(self).table().len() > old(self).table().len() ==> final(self).used_slots() is Some,
    {
        let want: u64 = if new_slots < 2 {
            2
        } else {
            new_slots
        };
        let n: u64 = next_pow2(want);
        proof {
            if want <= self.slots@.len() && n as int > self.slots@.len() {
                crate::hashhead::lemma_pow2_gap(self.slots@.len() as int, n as int);
            }
            lemma_count_bound(self.slots@);
        }
        if n <= self.slots.len() as u64 {
            return;
        }
        let used: usize = scan_used(&self.slots);
        let ghost before = self.slots@;
        self.slots = refill(&self.slots, n as usize);
        proof {
            if chain_ok(before) {
                lemma_with_refill(before, self.slots@);
            }
        }
        self.occupied = used as u64;
        self.occ_known = true;
    }

    /// Makes room for `additional` keys, where the count is known.
    pub fn reserve_additional(&mut self, additional: u64)
        requires
            old(self).shape(),
            old(self).can_take(additional as int),
        ensures
            final(self).shape(),
            final(self).table().len() >= old(self).table().len(),
            final(self).table().len() <= usize::MAX / 2,
            count_used(final(self).table()) <= count_used(old(self).table()),
            old(self).used_slots() is Some ==> final(self).used_slots() is Some,
            old(self).inv() ==> final(self).inv() && final(self)@ == old(self)@
                && final(self).used_slots() == old(self).used_slots() && final(self).counter()
                == old(self).counter() && reserved(old(self), final(self), additional as int),
            old(self).used_slots() is Some && additional > 0 ==> {
                let want = slots_needed(old(self).used_slots()->0 + additional);
                if want <= old(self).table().len() {
                    *final(self) == *old(self)
                } else {
                    least_pow2(final(self).table().len() as int, want)
                }
            },
            old(self).used_slots() is None || additional == 0 ==> *final(self) == *old(self),
            old(self).inv() ==> slots_with(old(self).table(), final(self).table(), Seq::empty()),
    {
        if additional == 0 {
            return;
        }
        if !self.occ_known {
            return;
        }
        let need: u64 = sh_slots_for_keys(self.occupied + additional);
        proof {
            if slots_needed(self.occupied + additional) <= self.slots@.len()
                && need as int > self.slots@.len() {
                crate::hashhead::lemma_pow2_gap(self.slots@.len() as int, need as int);
            }
        }
        if need > self.slots.len() as u64 {
            self.rehash_to(need);
            proof {
                let l = final(self).table().len() as int;
                lemma_pow2_self(need as int, l);
            }
        }
    }
}

proof fn lemma_pow2_self(need: int, l: int)
    requires
        is_pow2(need),
        need >= 1,
        least_pow2(l, need),
    ensures
        l == need,
{
    assert(least_pow2(need, need));
    lemma_least_pow2_unique(l, need, need);
}

/// The slot count after `more` values came to a head with `used` slots in use: it grows
/// only where the load limit asks for it.
pub open spec fn grown_for(old_len: int, new_len: int, used: int, more: int) -> bool {
    if more == 0 || slots_needed(used + more) <= old_len {
        new_len == old_len
    } else {
        least_pow2(new_len, slots_needed(used + more))
    }
}

/// A table with the slots that its keys need is at most seven eighths full.
proof fn lemma_load(keys: int, len: int)
    requires
        0 <= keys <= usize::MAX / 8,
        len >= slots_needed(keys),
    ensures
        8 * keys <= 7 * len,
{
}

/// The map after the entries at a key that none of them has.
proof fn lemma_upserted_other(m: Map<Seq<u8>, u64>, entries: Seq<HeadEntry>, k: Seq<u8>)
    requires
        forall|i: int| 0 <= i < entries.len() ==> key16((#[trigger] entries[i]).0@) != k,
    ensures
        upserted(m, entries).dom().contains(k) == m.dom().contains(k),
        m.dom().contains(k) ==> upserted(m, entries)[k] == m[k],
        cleared(m, entries).dom().contains(k) == m.dom().contains(k),
        m.dom().contains(k) ==> cleared(m, entries)[k] == m[k],
    decreases entries.len(),
{
    if entries.len() > 0 {
        let d = entries.drop_last();
        assert forall|i: int| 0 <= i < d.len() implies key16((#[trigger] d[i]).0@) != k by {
            assert(d[i] == entries[i]);
        }
        assert(entries.last() == entries[entries.len() - 1]);
        lemma_upserted_other(m, d, k);
    }
}

/// The map after the entries at the key of one of them.
proof fn lemma_upserted_at(m: Map<Seq<u8>, u64>, entries: Seq<HeadEntry>, i: int)
    requires
        0 <= i < entries.len(),
        !(entries[i].1 is Empty),
        distinct_keys(entries),
    ensures
        upserted(m, entries).dom().contains(key16(entries[i].0@)),
        upserted(m, entries)[key16(entries[i].0@)] == pack8(entries[i].1)->Ok_0,
    decreases entries.len(),
{
    let d = entries.drop_last();
    if i < d.len() {
        assert(d[i] == entries[i]);
        assert(distinct_keys(d)) by {
            assert forall|a: int, b: int| 0 <= a < b < d.len() implies key16((#[trigger] d[a]).0@)
                != key16((#[trigger] d[b]).0@) by {
                assert(d[a] == entries[a] && d[b] == entries[b]);
            }
        }
        lemma_upserted_at(m, d, i);
        assert(key16(entries[i].0@) != key16(entries[entries.len() - 1].0@));
    }
}

/// No two entries have the same head key.
pub open spec fn distinct_keys(entries: Seq<HeadEntry>) -> bool {
    forall|i: int, j: int|
        0 <= i < j < entries.len() ==> key16((#[trigger] entries[i]).0@) != key16(
            (#[trigger] entries[j]).0@,
        )
}

/// A head answers for each stored entry with its value and for all other hashes as before;
/// its slots do not shrink, and the load limit holds.
pub proof fn law_insert_many(a: &ScriptHashHead, b: &ScriptHashHead, entries: Seq<HeadEntry>)
    requires
        a.inv(),
        b.inv(),
        a.used_slots() is Some,
        entries.len() > 0,
        stored_entries(a, b, entries),
        distinct_keys(entries),
        forall|i: int|
            0 <= i < entries.len() ==> !((#[trigger] entries[i]).1 is Empty) && pack8(entries[i].1)
                is Ok,
    ensures
        forall|i: int|
            0 <= i < entries.len() ==> head_answer(
                lookup(b.table(), key16((#[trigger] entries[i]).0@)),
            ) == Ok::<Option<ShHeadValue>, StoreError>(Some(packed_form(entries[i].1))),
        forall|full: Seq<u8>|
            (forall|i: int| 0 <= i < entries.len() ==> key16((#[trigger] entries[i]).0@) != key16(full))
                ==> #[trigger] lookup(b.table(), key16(full)) == lookup(a.table(), key16(full)),
        b.table().len() >= a.table().len(),
        8 * b.counter() <= 7 * b.table().len(),
{
    assert(wanted(entries).len() > 0) by {
        assert(!(entries[entries.len() - 1].1 is Empty));
    }
    let m = cleared(a@, entries);
    assert forall|i: int| 0 <= i < entries.len() implies head_answer(
        lookup(b.table(), key16((#[trigger] entries[i]).0@)),
    ) == Ok::<Option<ShHeadValue>, StoreError>(Some(packed_form(entries[i].1))) by {
        lemma_upserted_at(m, entries, i);
        law_pack8_roundtrip(entries[i].1);
        assert(b@.dom().contains(key16(entries[i].0@)));
    }
    assert forall|full: Seq<u8>|
        (forall|i: int| 0 <= i < entries.len() ==> key16((#[trigger] entries[i]).0@) != key16(full)) implies #[trigger] lookup(
        b.table(),
        key16(full),
    ) == lookup(a.table(), key16(full)) by {
        let k = key16(full);
        lemma_upserted_other(a@, entries, k);
        lemma_upserted_other(m, entries, k);
        assert(b@.dom().contains(k) == a@.dom().contains(k));
        if a@.dom().contains(k) {
            assert(b@[k] == a@[k]);
        }
    }
}

/// Making room changes no answer and no count, and gives the slots that the keys need.
pub proof fn law_reserve(a: &ScriptHashHead, b: &ScriptHashHead, more: int, slots: int)
    requires
        a.inv(),
        b.inv(),
        more >= 0,
        reserved(a, b, more),
        a.used_slots() is Some ==> least_pow2(
            slots,
            slots_needed(a.used_slots()->0 + more),
        ),
    ensures
        forall|k: Seq<u8>| #[trigger] lookup(b.table(), k) == lookup(a.table(), k),
        b.counter() == a.counter(),
        b.table().len() == (if more > 0 && a.used_slots() is Some && slots > a.table().len() {
            slots
        } else {
            a.table().len() as int
        }),
{
    assert forall|k: Seq<u8>| #[trigger] lookup(b.table(), k) == lookup(a.table(), k) by {
        assert(b@.dom().contains(k) == a@.dom().contains(k));
        if a@.dom().contains(k) {
            assert(b@[k] == a@[k]);
        }
    }
    if more > 0 && a.used_slots() is Some {
        let want = slots_needed(a.used_slots()->0 + more);
        if want <= a.table().len() {
            if slots > a.table().len() {
                crate::hashhead::lemma_pow2_gap(a.table().len() as int, slots);
            }
        } else {
            lemma_least_pow2_unique(b.table().len() as int, slots, want);
        }
    }
}

impl ScriptHashHead {
    /// Stores several values; an empty value clears its key first.
    ///
    /// The table grows as needed. Where a value has no packed form only the
    /// keys with an empty value are cleared.
    pub fn insert_many(&mut self, entries: &[HeadEntry]) -> (r: Result<(), StoreError>)
        requires
            old(self).shape(),
            old(self).can_take(entries@.len() as int),
        ensures
            final(self).shape(),
            r == (match first_pack_err(entries@) {
                Some(e) => Err::<(), StoreError>(e),
                None => Ok(()),
            }),
            old(self).inv() ==> final(self).inv() && final(self)@
                == if first_pack_err(entries@) is Some {
                cleared(old(self)@, entries@)
            } else {
                upserted(cleared(old(self)@, entries@), entries@)
            },
            old(self).used_slots() is Some ==> final(self).used_slots() is Some,
            final(self).table().len() >= old(self).table().len(),
            r is Ok && old(self).inv() ==> stored_entries(old(self), final(self), entries@),
            r is Err ==> final(self).table().len() == old(self).table().len()
                && final(self).used_slots() == old(self).used_slots(),
            old(self).inv() ==> slots_with(
                old(self).table(),
                final(self).table(),
                if r is Ok {
                    wanted(entries@)
                } else {
                    Seq::empty()
                },
            ),
            old(self).used_slots() is None ==> (final(self).used_slots() is Some
                <==> final(self).table().len() > old(self).table().len()),
            old(self).inv() && old(self).used_slots() is Some ==> final(self).used_slots()->0
                <= old(self).used_slots()->0 + wanted(entries@).len(),
            r is Ok && old(self).inv() && old(self).used_slots() is Some ==> grown_for(
                old(self).table().len() as int,
                final(self).table().len() as int,
                old(self).used_slots()->0 as int,
                wanted(entries@).len() as int,
            ) && (wanted(entries@).len() > 0 ==> 8 * final(self).used_slots()->0 <= 7 * final(self).table().len()),
    {
        self.clear_all(entries);
        match pack_all(entries) {
            Err(e) => Err(e),
            Ok(ups) => {
                proof {
                    lemma_stored_wanted(cleared(old(self)@, entries@), entries@);
                }
                proof {
                    assert(slot_pairs(ups@).len() == ups@.len());
                }
                let ghost mid = self.table();
                self.store_all(&ups);
                proof {
                    if old(self).inv() {
                        lemma_with_after(old(self).table(), mid, self.table(), wanted(entries@));
                    }
                }
                Ok(())
            },
        }
    }

    /// Clears the keys that come with an empty value.
    fn clear_all(&mut self, entries: &[HeadEntry])
        requires
            old(self).shape(),
        ensures
            final(self).shape(),
            final(self).table().len() == old(self).table().len(),
            final(self).used_slots() == old(self).used_slots(),
            old(self).inv() ==> final(self).inv() && final(self)@
                == cleared(old(self)@, entries@),
            old(self).inv() ==> slots_with(old(self).table(), final(self).table(), Seq::empty()),
    {
        let mut i: usize = 0;
        proof {
            assert(entries@.subrange(0, 0) =~= Seq::empty());
        }
        while i < entries.len()
            invariant
                i <= entries@.len(),
                self.shape(),
                self.table().len() == old(self).table().len(),
                self.used_slots() == old(self).used_slots(),
                old(self).inv() ==> self.inv() && self@ == cleared(
                    old(self)@,
                    entries@.subrange(0, i as int),
                ),
                old(self).inv() ==> slots_with(old(self).table(), self.table(), Seq::empty()),
            decreases entries@.len() - i,
        {
            proof {
                let p = entries@.subrange(0, i + 1);
                assert(p.drop_last() =~= entries@.subrange(0, i as int));
                assert(p.last() == entries@[i as int]);
            }
            if entries[i].1.is_empty() {
                let ghost mid = self.table();
                let _had: bool = self.clear_key(&entries[i].0);
                proof {
                    if old(self).inv() {
                        lemma_with_after(old(self).table(), mid, self.table(), Seq::empty());
                    }
                }
            }
            i += 1;
        }
        proof {
            assert(entries@.subrange(0, entries@.len() as int) =~= entries@);
        }
    }

    /// Stores the slots in order; the table grows as needed.
    fn store_all(&mut self, ups: &Vec<Slot>)
        requires
            old(self).shape(),
            old(self).can_take(ups@.len() as int),
            forall|j: int| 0 <= j < ups@.len() ==> !slot_dead(#[trigger] ups@[j]),
        ensures
            final(self).shape(),
            old(self).used_slots() is Some ==> final(self).used_slots() is Some,
            old(self).inv() ==> final(self).inv() && final(self)@ == stored(
                old(self)@,
                slot_pairs(ups@),
            ),
            old(self).inv() ==> slots_with(
                old(self).table(),
                final(self).table(),
                slot_pairs(ups@),
            ),
            old(self).used_slots() is None ==> (final(self).used_slots() is Some
                <==> final(self).table().len() > old(self).table().len()),
            final(self).table().len() >= old(self).table().len(),
            old(self).inv() && old(self).used_slots() is Some ==> final(self).used_slots()->0
                <= old(self).used_slots()->0 + ups@.len(),
            old(self).inv() && old(self).used_slots() is Some ==> grown_for(
                old(self).table().len() as int,
                final(self).table().len() as int,
                old(self).used_slots()->0 as int,
                ups@.len() as int,
            ) && (ups@.len() > 0 ==> 8 * final(self).used_slots()->0 <= 7 * final(self).table().len()),
    {
        proof {
            lemma_count_bound(self.table());
        }
        self.reserve_additional(ups.len() as u64);
        let ghost cnt0 = count_used(self.table());
        let ghost len0 = self.table().len();
        let ghost roomy = old(self).inv() && old(self).used_slots() is Some && ups@.len() > 0;
        proof {
            if roomy {
                lemma_load(old(self).used_slots()->0 + ups@.len(), len0 as int);
            }
        }
        let mut k: usize = 0;
        proof {
            assert(slot_pairs(ups@.subrange(0, 0)) =~= Seq::empty());
        }
        while k < ups.len()
            invariant
                k <= ups@.len(),
                self.shape(),
                self.table().len() <= usize::MAX / 2,
                count_used(self.table()) <= cnt0 + k,
                self.table().len() >= len0,
                k == 0 ==> self.table().len() == len0,
                roomy == (old(self).inv() && old(self).used_slots() is Some && ups@.len() > 0),
                roomy ==> self.table().len() == len0 && 8 * (cnt0 + ups@.len()) <= 7 * len0,
                cnt0 + ups@.len() <= usize::MAX / 16,
                forall|j: int| 0 <= j < ups@.len() ==> !slot_dead(#[trigger] ups@[j]),
                old(self).used_slots() is Some ==> self.used_slots() is Some,
                old(self).inv() ==> self.inv() && self@ == stored(
                    old(self)@,
                    slot_pairs(ups@.subrange(0, k as int)),
                ),
                old(self).inv() ==> slots_with(
                    old(self).table(),
                    self.table(),
                    slot_pairs(ups@.subrange(0, k as int)),
                ),
                old(self).used_slots() is None ==> (self.used_slots() is Some
                    <==> self.table().len() > old(self).table().len()),
                self.table().len() >= old(self).table().len(),
            decreases ups@.len() - k,
        {
            let s: Slot = ups[k];
            let ghost mid = self.table();
            proof {
                let p = ups@.subrange(0, k + 1);
                let q = ups@.subrange(0, k as int);
                assert(slot_pairs(p).drop_last() =~= slot_pairs(q));
                assert(slot_pairs(p).last() == (s.key@, s.word));
            }
            self.store_growing(s, (ups.len() - k) as u64);
            proof {
                if old(self).inv() {
                    let p = ups@.subrange(0, k + 1);
                    let q = ups@.subrange(0, k as int);
                    lemma_with_push(
                        old(self).table(),
                        mid,
                        self.table(),
                        slot_pairs(q),
                        (s.key@, s.word),
                    );
                    assert(slot_pairs(p) =~= slot_pairs(q).push((s.key@, s.word)));
                }
            }
            k += 1;
        }
        proof {
            assert(ups@.subrange(0, ups@.len() as int) =~= ups@);
        }
    }

    /// Stores a slot, after rebuilding a full table larger.
    fn store_growing(&mut self, s: Slot, remain: u64)
        requires
            old(self).shape(),
            old(self).table().len() <= usize::MAX / 2,
            count_used(old(self).table()) <= usize::MAX / 16,
            1 <= remain <= usize::MAX / 16,
            !slot_dead(s),
        ensures
            final(self).shape(),
            final(self).table().len() <= usize::MAX / 2,
            count_used(final(self).table()) <= count_used(old(self).table()) + 1,
            old(self).used_slots() is Some ==> final(self).used_slots() is Some,
            old(self).inv() ==> final(self).inv() && final(self)@ == old(self)@.insert(
                s.key@,
                s.word,
            ),
            final(self).table().len() >= old(self).table().len(),
            count_used(old(self).table()) < old(self).table().len() ==> final(self).table().len()
                == old(self).table().len(),
            old(self).inv() ==> slots_with(
                old(self).table(),
                final(self).table(),
                seq![(s.key@, s.word)],
            ),
            old(self).used_slots() is None ==> (final(self).used_slots() is Some
                <==> final(self).table().len() > old(self).table().len()),
    {
        proof {
            lemma_count_bound(self.table());
            if count_used(self.table()) < self.table().len() {
                let e = lemma_room(self.table());
                lemma_find_with_room(self.table(), s.key@, e);
            }
        }
        if find_stop(&self.slots, &s.key).is_none() {
            let len: u64 = self.slots.len() as u64;
            let keys: u64 = if self.occ_known {
                sh_slots_for_keys(self.occupied + remain)
            } else {
                sh_slots_for_keys(remain)
            };
            let need: u64 = if keys > 2 * len {
                keys
            } else {
                2 * len
            };
            proof {
                assert(is_pow2(need as int)) by {
                    reveal_with_fuel(is_pow2, 2);
                    assert((2 * len as int) / 2 == len);
                }
            }
            self.rehash_to(need);
            proof {
                lemma_pow2_self(need as int, self.table().len() as int);
                let e = lemma_room(self.table());
                lemma_find_with_room(self.table(), s.key@, e);
            }
        }
        let ghost mid = self.table();
        proof {
            if old(self).inv() {
                lemma_with_refill(mid, mid);
            }
        }
        self.put_slot(s);
        proof {
            if old(self).inv() {
                if mid == old(self).table() {
                    lemma_with_refill(old(self).table(), mid);
                }
                lemma_with_after(
                    old(self).table(),
                    mid,
                    self.table(),
                    seq![(s.key@, s.word)],
                );
            }
        }
    }

    /// Stores a slot for which probing stops.
    fn put_slot(&mut self, s: Slot)
        requires
            old(self).shape(),
            !slot_dead(s),
            find(old(self).table(), s.key@) < old(self).table().len(),
        ensures
            final(self).shape(),
            final(self).table() == old(self).table().update(
                find_slot(old(self).table(), s.key@),
                s,
            ),
            count_used(final(self).table()) <= count_used(old(self).table()) + 1,
            old(self).used_slots() is Some <==> final(self).used_slots() is Some,
            old(self).inv() ==> final(self).inv() && final(self)@ == old(self)@.insert(
                s.key@,
                s.word,
            ),
            old(self).inv() ==> slots_with(
                old(self).table(),
                final(self).table(),
                seq![(s.key@, s.word)],
            ),
    {
        proof {
            lemma_find_char(self.slots@, s.key@);
            lemma_count_update(self.slots@, find_slot(self.slots@, s.key@), s);
            assert((Slot { key: s.key, word: s.word }) == s);
            lemma_count_bound(self.slots@.update(find_slot(self.slots@, s.key@), s));
            if chain_ok(self.slots@) {
                lemma_put(self.slots@, s);
                lemma_put_map(self.slots@, s);
                lemma_with_put(self.slots@, s);
            }
        }
        match place(&mut self.slots, &s.key, s.word, true) {
            InsertResult::Done(was_empty) => {
                if was_empty && self.occ_known && self.occupied < self.slots.len() as u64 {
                    self.occupied = self.occupied + 1;
                }
            },
            InsertResult::NeedSlot => {},
        }
    }

    /// Stores one value.
    pub fn insert(&mut self, full: &[u8; 32], value: &ShHeadValue) -> (r: Result<(), StoreError>)
        requires
            old(self).shape(),
            old(self).can_take(1),
        ensures
            final(self).shape(),
            r == (match pack8(*value) {
                Err(e) => Err::<(), StoreError>(e),
                Ok(_) => Ok(()),
            }),
            old(self).inv() ==> {
                &&& final(self).inv()
                &&& final(self)@ == match pack8(*value) {
                    Err(_) => old(self)@,
                    Ok(w) => if *value is Empty {
                        old(self)@.remove(key16(full@))
                    } else {
                        old(self)@.insert(key16(full@), w)
                    },
                }
            },
            old(self).used_slots() is Some ==> final(self).used_slots() is Some,
            final(self).table().len() >= old(self).table().len(),
            old(self).inv() ==> one_stored(old(self), final(self), full@, *value, r is Ok),
    {
        let one: [HeadEntry; 1] = [(*full, *value)];
        proof {
            reveal_with_fuel(cleared, 2);
            reveal_with_fuel(upserted, 2);
            reveal_with_fuel(wanted, 2);
            reveal_with_fuel(first_pack_err, 2);
            assert(one@.drop_last() =~= Seq::empty());
            assert(one@.last() == (*full, *value));
        }
        let r = self.insert_many(one.as_slice());
        proof {
            reveal_with_fuel(fresh, 2);
            let w = wanted(one@);
            assert(forall|k: Seq<u8>| !asks(Seq::<(Seq<u8>, u64)>::empty(), k));
            if !(*value is Empty) {
                assert(w.drop_last() =~= Seq::empty());
                assert(w[0].0 == key16(full@));
                assert(forall|k: Seq<u8>| asks(w, k) <==> k == key16(full@));
            }
        }
        r
    }

    /// Number of used slots as it is kept.
    pub fn occupied(&self) -> (r: u64)
        ensures
            r == self.counter(),
    {
        self.occupied
    }

    /// Slots in use, if the number is known.
    pub fn used(&self) -> (r: Option<u64>)
        ensures
            r == self.used_slots(),
    {
        if self.occ_known {
            Some(self.occupied)
        } else {
            None
        }
    }

    /// Slot count.
    pub fn slots(&self) -> (r: u64)
        ensures
            r == self.table().len(),
    {
        self.slots.len() as u64
    }

    /// The count is known and zero.
    pub fn is_known_empty(&self) -> (r: bool)
        ensures
            r == (self.used_slots() == Some(0u64)),
    {
        self.occ_known && self.occupied == 0
    }

    /// At least four fifths of the slots are in use, as far as that is known.
    pub fn load_reached(&self) -> (r: bool)
        ensures
            r == (self.used_slots() matches Some(n) && 5 * n >= 4 * self.table().len()),
    {
        self.occ_known && 5 * self.occupied as u128 >= 4 * self.slots.len() as u128
    }

    /// Puts a finished table in place of an empty one.
    pub fn install_cold_image(&mut self, table: Vec<Slot>, slots: u64, occupied: u64) -> (r: Result<
        (),
        StoreError,
    >)
        requires
            slots <= usize::MAX / 2,
        ensures
            ({
                let want = if slots < 2 {
                    2int
                } else {
                    slots as int
                };
                if !least_pow2(table@.len() as int, want) {
                    r == Err::<(), StoreError>(
                        StoreError::Corrupt("scripthash install_cold_image: table len mismatch"),
                    ) && *final(self) == *old(self)
                } else if old(self).used_slots() != Some(0u64) {
                    r == Err::<(), StoreError>(
                        StoreError::Corrupt("scripthash install_cold_image: not empty"),
                    ) && *final(self) == *old(self)
                } else {
                    r == Ok::<(), StoreError>(()) && final(self).table() == table@
                        && final(self).used_slots() == Some(occupied) && final(self).counter()
                        == occupied
                }
            }),
    {
        let n: u64 = next_pow2(
            if slots < 2 {
                2
            } else {
                slots
            },
        );
        proof {
            let want = if slots < 2 {
                2int
            } else {
                slots as int
            };
            if least_pow2(table@.len() as int, want) {
                lemma_least_pow2_unique(table@.len() as int, n as int, want);
            }
        }
        if table.len() as u64 != n {
            return Err(StoreError::Corrupt("scripthash install_cold_image: table len mismatch"));
        }
        if !self.is_known_empty() {
            return Err(StoreError::Corrupt("scripthash install_cold_image: not empty"));
        }
        self.slots = table;
        self.occupied = occupied;
        self.occ_known = true;
        Ok(())
    }

    /// Every key with a value, in slot order, its key padded with zeros.
    pub fn for_each_occupied(&self) -> (r: Result<Vec<HeadEntry>, StoreError>)
        ensures
            match r {
                Ok(v) => {
                    let live = live_slots(self.table());
                    v@.len() == live.len() && forall|i: int|
                        0 <= i < live.len() ==> (#[trigger] v@[i]).0@ == live[i].key@ + zero_key()
                            && unpack8(live[i].word) == Ok::<ShHeadValue, StoreError>(v@[i].1)
                },
                Err(e) => {
                    let live = live_slots(self.table());
                    exists|i: int|
                        0 <= i < live.len() && unpack8((#[trigger] live[i]).word) == Err::<
                            ShHeadValue,
                            StoreError,
                        >(e)
                },
            },
    {
        let mut out: Vec<HeadEntry> = Vec::new();
        let mut i: usize = 0;
        proof {
            assert(self.slots@.subrange(0, 0) =~= Seq::empty());
        }
        while i < self.slots.len()
            invariant
                i <= self.slots@.len(),
                ({
                    let live = live_slots(self.slots@.subrange(0, i as int));
                    out@.len() == live.len() && forall|k: int|
                        0 <= k < live.len() ==> (#[trigger] out@[k]).0@ == live[k].key@ + zero_key()
                            && unpack8(live[k].word) == Ok::<ShHeadValue, StoreError>(out@[k].1)
                }),
            decreases self.slots@.len() - i,
        {
            let s: Slot = self.slots[i];
            proof {
                let p = self.slots@.subrange(0, i + 1);
                assert(p.drop_last() =~= self.slots@.subrange(0, i as int));
                assert(p.last() == s);
            }
            if !slot_is_dead(&s) {
                match unpack8_word(s.word) {
                    Ok(v) => {
                        out.push((full_from_key(&s.key), v));
                    },
                    Err(e) => {
                        proof {
                            lemma_live_prefix(self.slots@, i + 1);
                            let part = live_slots(self.slots@.subrange(0, i + 1));
                            assert(part.last() == s);
                            assert(live_slots(self.slots@)[part.len() - 1] == s);
                        }
                        return Err(e);
                    },
                }
            }
            i += 1;
        }
        proof {
            assert(self.slots@.subrange(0, i as int) =~= self.slots@);
        }
        Ok(out)
    }
}

/// The slots with a value, in order.
pub open spec fn live_slots(slots: Seq<Slot>) -> Seq<Slot>
    decreases slots.len(),
{
    if slots.len() == 0 {
        Seq::empty()
    } else if !slot_dead(slots.last()) {
        live_slots(slots.drop_last()).push(slots.last())
    } else {
        live_slots(slots.drop_last())
    }
}

proof fn lemma_live_prefix(slots: Seq<Slot>, i: int)
    requires
        0 <= i <= slots.len(),
    ensures
        live_slots(slots.subrange(0, i)).len() <= live_slots(slots).len(),
        forall|k: int|
            0 <= k < live_slots(slots.subrange(0, i)).len() ==> live_slots(slots)[k]
                == #[trigger] live_slots(slots.subrange(0, i))[k],
    decreases slots.len() - i,
{
    if i < slots.len() {
        lemma_live_prefix(slots, i + 1);
        let p = slots.subrange(0, i + 1);
        assert(p.drop_last() =~= slots.subrange(0, i));
        assert forall|k: int| 0 <= k < live_slots(slots.subrange(0, i)).len() implies live_slots(
            slots,
        )[k] == #[trigger] live_slots(slots.subrange(0, i))[k] by {
            assert(live_slots(p)[k] == live_slots(slots.subrange(0, i))[k]);
        }
    } else {
        assert(slots.subrange(0, i) =~= slots);
    }
}

/// The slots that the entries with a value ask for.
fn pack_all(entries: &[HeadEntry]) -> (r: Result<Vec<Slot>, StoreError>)
    ensures
        match r {
            Err(e) => first_pack_err(entries@) == Some(e),
            Ok(ups) => {
                &&& first_pack_err(entries@) is None
                &&& slot_pairs(ups@) == wanted(entries@)
                &&& ups@.len() <= entries@.len()
                &&& forall|k: int| 0 <= k < ups@.len() ==> !slot_dead(#[trigger] ups@[k])
            },
        },
{
    let mut ups: Vec<Slot> = Vec::new();
    let mut i: usize = 0;
    proof {
        assert(entries@.subrange(0, 0) =~= Seq::empty());
        assert(slot_pairs(ups@) =~= Seq::empty());
    }
    while i < entries.len()
        invariant
            i <= entries@.len(),
            ups@.len() <= i,
            slot_pairs(ups@) == wanted(entries@.subrange(0, i as int)),
            forall|k: int| 0 <= k < ups@.len() ==> !slot_dead(#[trigger] ups@[k]),
            first_pack_err(entries@.subrange(0, i as int)) is None,
        decreases entries@.len() - i,
    {
        proof {
            let p = entries@.subrange(0, i + 1);
            assert(p.drop_last() =~= entries@.subrange(0, i as int));
            assert(p.last() == entries@[i as int]);
            lemma_pack_err_prefix(entries@, i + 1);
        }
        match pack8_word(&entries[i].1) {
            Ok(w) => {
                proof {
                    law_pack8_roundtrip(entries@[i as int].1);
                }
                if !entries[i].1.is_empty() {
                    let ghost before = ups@;
                    ups.push(Slot { key: head_key_from_full(&entries[i].0), word: w });
                    proof {
                        assert(slot_pairs(ups@) =~= slot_pairs(before).push(
                            (key16(entries@[i as int].0@), w),
                        ));
                    }
                }
            },
            Err(e) => {
                return Err(e);
            },
        }
        i += 1;
    }
    proof {
        assert(entries@.subrange(0, i as int) =~= entries@);
    }
    Ok(ups)
}

proof fn lemma_pack_err_prefix(entries: Seq<HeadEntry>, i: int)
    requires
        0 <= i <= entries.len(),
    ensures
        first_pack_err(entries.subrange(0, i)) is Some ==> first_pack_err(entries)
            == first_pack_err(entries.subrange(0, i)),
    decreases entries.len() - i,
{
    if i < entries.len() {
        lemma_pack_err_prefix(entries, i + 1);
        let p = entries.subrange(0, i + 1);
        assert(p.drop_last() =~= entries.subrange(0, i));
    } else {
        assert(entries.subrange(0, i) =~= entries);
    }
}

/// A head key as a full hash, padded with zeros.
pub fn full_from_key(key: &ShHeadKey) -> (r: [u8; 32])
    ensures
        r@ == key@ + zero_key(),
        key16(r@) == key@,
{
    let mut f: [u8; 32] = [0u8; 32];
    let mut i: usize = 0;
    while i < 16
        invariant
            i <= 16,
            forall|j: int| 0 <= j < i ==> f@[j] == key@[j],
            forall|j: int| i <= j < 32 ==> f@[j] == 0,
        decreases 16 - i,
    {
        f[i] = key[i];
        i += 1;
    }
    proof {
        assert(f@ =~= key@ + zero_key());
        assert(key16(f@) =~= key@);
    }
    f
}

/// Key and value of an upsert by head key.
pub type KeyEntry = (ShHeadKey, ShHeadValue);

/// Error of the first upsert whose value has no packed form.
pub open spec fn first_key_err(ups: Seq<KeyEntry>) -> Option<StoreError>
    decreases ups.len(),
{
    if ups.len() == 0 {
        None
    } else {
        match first_key_err(ups.drop_last()) {
            Some(e) => Some(e),
            None => match pack8(ups.last().1) {
                Ok(_) => None,
                Err(e) => Some(e),
            },
        }
    }
}

/// The slots of upserts.
pub open spec fn key_slots(ups: Seq<KeyEntry>) -> Seq<Slot> {
    ups.map_values(|u: KeyEntry| slot_for(u.0, pack8(u.1)->Ok_0))
}

proof fn lemma_key_err_prefix(ups: Seq<KeyEntry>, i: int)
    requires
        0 <= i <= ups.len(),
    ensures
        first_key_err(ups.subrange(0, i)) is Some ==> first_key_err(ups) == first_key_err(
            ups.subrange(0, i),
        ),
    decreases ups.len() - i,
{
    if i < ups.len() {
        lemma_key_err_prefix(ups, i + 1);
        let p = ups.subrange(0, i + 1);
        assert(p.drop_last() =~= ups.subrange(0, i));
    } else {
        assert(ups.subrange(0, i) =~= ups);
    }
}

fn pack_keys(ups: &[KeyEntry]) -> (r: Result<Vec<Slot>, StoreError>)
    ensures
        match r {
            Err(e) => first_key_err(ups@) == Some(e),
            Ok(v) => first_key_err(ups@) is None && v@ == key_slots(ups@),
        },
{
    let mut v: Vec<Slot> = Vec::new();
    let mut i: usize = 0;
    proof {
        assert(ups@.subrange(0, 0) =~= Seq::empty());
    }
    while i < ups.len()
        invariant
            i <= ups@.len(),
            first_key_err(ups@.subrange(0, i as int)) is None,
            v@ =~= key_slots(ups@.subrange(0, i as int)),
        decreases ups@.len() - i,
    {
        proof {
            let p = ups@.subrange(0, i + 1);
            assert(p.drop_last() =~= ups@.subrange(0, i as int));
            assert(p.last() == ups@[i as int]);
            lemma_key_err_prefix(ups@, i + 1);
        }
        match pack8_word(&ups[i].1) {
            Ok(w) => v.push(slot_of(&ups[i].0, w)),
            Err(e) => return Err(e),
        }
        i += 1;
        proof {
            assert(v@ =~= key_slots(ups@.subrange(0, i as int)));
        }
    }
    proof {
        assert(ups@.subrange(0, i as int) =~= ups@);
    }
    Ok(v)
}

/// Spilling keeps a sound table sound, takes every key while there is room,
/// and leaves nothing over exactly if all of them were stored.
pub proof fn law_spill(slots: Seq<Slot>, ups: Seq<Slot>, allow_new: bool)
    requires
        chain_ok(slots),
        forall|i: int| 0 <= i < ups.len() ==> !slot_dead(#[trigger] ups[i]),
    ensures
        ({
            let (t, rem, allow) = spill(slots, ups, allow_new);
            &&& chain_ok(t)
            &&& t.len() == slots.len()
            &&& rem.len() <= ups.len()
            &&& rem.len() == 0 ==> slots_map(t) == stored(slots_map(slots), slot_pairs(ups))
            &&& rem.len() == 0 ==> allow == allow_new
            &&& allow_new && count_used(slots) + ups.len() <= slots.len() ==> rem.len() == 0
                && count_used(t) <= count_used(slots) + ups.len()
        }),
    decreases ups.len(),
{
    if ups.len() > 0 {
        let pre = ups.drop_last();
        assert forall|i: int| 0 <= i < pre.len() implies !slot_dead(#[trigger] pre[i]) by {
            assert(pre[i] == ups[i]);
        }
        law_spill(slots, pre, allow_new);
        let (t, rem, allow) = spill(slots, pre, allow_new);
        let s = ups.last();
        assert(!slot_dead(s)) by {
            assert(ups[ups.len() - 1] == s);
        }
        lemma_find_char(t, s.key@);
        if count_used(t) < t.len() {
            let e = lemma_room(t);
            lemma_find_with_room(t, s.key@, e);
        }
        if find(t, s.key@) < t.len() {
            lemma_put(t, s);
            lemma_put_map(t, s);
        }
        assert(slot_pairs(ups).drop_last() =~= slot_pairs(pre));
        assert(slot_pairs(ups).last() == (s.key@, s.word));
    }
}

/// The table has a slot for the key.
pub open spec fn has_slot(slots: Seq<Slot>, k: Seq<u8>) -> bool {
    exists|i: int| 0 <= i < slots.len() && !slot_empty(#[trigger] slots[i]) && slots[i].key@ == k
}

/// The upserts whose key has no slot, in order.
pub open spec fn without_slot(slots: Seq<Slot>, ups: Seq<Slot>) -> Seq<Slot>
    decreases ups.len(),
{
    if ups.len() == 0 {
        Seq::empty()
    } else if has_slot(slots, ups.last().key@) {
        without_slot(slots, ups.drop_last())
    } else {
        without_slot(slots, ups.drop_last()).push(ups.last())
    }
}

/// The last upsert of a key.
pub open spec fn last_upsert(ups: Seq<Slot>, k: Seq<u8>) -> Option<Slot>
    decreases ups.len(),
{
    if ups.len() == 0 {
        None
    } else if ups.last().key@ == k {
        Some(ups.last())
    } else {
        last_upsert(ups.drop_last(), k)
    }
}

/// What a table that must not grow makes of upserts. Left over are those whose key has no
/// slot in the end: no key got one without `allow_new`, and with it only a full table
/// leaves some over. The other keys hold their last upsert, and all else is as it was.
pub open spec fn spilled(
    slots: Seq<Slot>,
    t: Seq<Slot>,
    ups: Seq<Slot>,
    rem: Seq<Slot>,
    allow_new: bool,
) -> bool {
    &&& t.len() == slots.len()
    &&& rem == without_slot(t, ups)
    &&& forall|k: Seq<u8>| #[trigger] has_slot(slots, k) ==> has_slot(t, k)
    &&& forall|k: Seq<u8>| #[trigger]
        has_slot(t, k) && !has_slot(slots, k) ==> allow_new && last_upsert(ups, k) is Some
    &&& allow_new && rem.len() > 0 ==> count_used(t) == t.len()
    &&& forall|k: Seq<u8>| #[trigger]
        lookup(t, k) == (match last_upsert(ups, k) {
            Some(s) => if !has_slot(t, k) || slot_dead(s) {
                None
            } else {
                Some(s.word)
            },
            None => lookup(slots, k),
        })
}

proof fn lemma_no_slot(slots: Seq<Slot>, k: Seq<u8>)
    requires
        !has_slot(slots, k),
    ensures
        lookup(slots, k) is None,
{
    lemma_find_char(slots, k);
    if find(slots, k) < slots.len() {
        let p = find_slot(slots, k);
        if !slot_empty(slots[p]) {
            assert(slots[p].key@ == k);
        }
    }
}

/// A key has a slot after an upsert if it had one or was the key of the upsert.
proof fn lemma_slot_put(slots: Seq<Slot>, s: Slot, k: Seq<u8>)
    requires
        !slot_empty(s),
        find(slots, s.key@) < slots.len(),
    ensures
        has_slot(slots.update(find_slot(slots, s.key@), s), k) <==> has_slot(slots, k) || k
            == s.key@,
{
    let p = find_slot(slots, s.key@);
    let t = slots.update(p, s);
    lemma_find_char(slots, s.key@);
    if has_slot(slots, k) {
        let i = choose|i: int|
            0 <= i < slots.len() && !slot_empty(#[trigger] slots[i]) && slots[i].key@ == k;
        if i != p {
            assert(t[i] == slots[i]);
        } else {
            assert(t[p] == s);
        }
    }
    if k == s.key@ {
        assert(t[p] == s);
    }
    if has_slot(t, k) {
        let i = choose|i: int| 0 <= i < t.len() && !slot_empty(#[trigger] t[i]) && t[i].key@ == k;
        if i != p {
            assert(slots[i] == t[i]);
        }
    }
}

proof fn lemma_without_same(a: Seq<Slot>, b: Seq<Slot>, ups: Seq<Slot>)
    requires
        forall|i: int|
            0 <= i < ups.len() ==> has_slot(a, (#[trigger] ups[i]).key@) == has_slot(
                b,
                ups[i].key@,
            ),
    ensures
        without_slot(a, ups) == without_slot(b, ups),
    decreases ups.len(),
{
    if ups.len() > 0 {
        let d = ups.drop_last();
        assert forall|i: int| 0 <= i < d.len() implies has_slot(a, (#[trigger] d[i]).key@)
            == has_slot(b, d[i].key@) by {
            assert(d[i] == ups[i]);
        }
        assert(ups.last() == ups[ups.len() - 1]);
        lemma_without_same(a, b, d);
    }
}

proof fn lemma_last_upsert(ups: Seq<Slot>, i: int)
    requires
        0 <= i < ups.len(),
    ensures
        last_upsert(ups, ups[i].key@) is Some,
    decreases ups.len(),
{
    if i < ups.len() - 1 {
        assert(ups.drop_last()[i] == ups[i]);
        lemma_last_upsert(ups.drop_last(), i);
    }
}

proof fn lemma_without_has(slots: Seq<Slot>, ups: Seq<Slot>, i: int)
    requires
        0 <= i < ups.len(),
        !has_slot(slots, ups[i].key@),
    ensures
        without_slot(slots, ups).len() > 0,
    decreases ups.len(),
{
    if i < ups.len() - 1 {
        assert(ups.drop_last()[i] == ups[i]);
        lemma_without_has(slots, ups.drop_last(), i);
    }
}

/// Upserts on a table that must not grow: which are left over, and what the table answers
/// afterwards.
pub proof fn law_spill_exact(slots: Seq<Slot>, ups: Seq<Slot>, allow_new: bool)
    requires
        chain_ok(slots),
        forall|i: int| 0 <= i < ups.len() ==> !slot_empty(#[trigger] ups[i]),
    ensures
        ({
            let (t, rem, allow) = spill(slots, ups, allow_new);
            &&& spilled(slots, t, ups, rem, allow_new)
            &&& chain_ok(t)
            &&& allow == (allow_new && rem.len() == 0)
        }),
    decreases ups.len(),
{
    if ups.len() > 0 {
        let pre = ups.drop_last();
        let s = ups.last();
        assert(ups[ups.len() - 1] == s);
        assert forall|i: int| 0 <= i < pre.len() implies !slot_empty(#[trigger] pre[i]) by {
            assert(pre[i] == ups[i]);
        }
        law_spill_exact(slots, pre, allow_new);
        let (t, rem, allow) = spill(slots, pre, allow_new);
        let (u, left, now) = spill(slots, ups, allow_new);
        let key = s.key@;
        lemma_find_char(t, key);
        let p = find_slot(t, key);
        if find(t, key) >= t.len() || (slot_empty(t[p]) && !allow) {
            // Left over.
            if has_slot(t, key) {
                let i = choose|i: int|
                    0 <= i < t.len() && !slot_empty(#[trigger] t[i]) && t[i].key@ == key;
                lemma_slot_at(t, i);
            }
            if allow {
                if count_used(t) < t.len() {
                    let e = lemma_room(t);
                    lemma_find_with_room(t, key, e);
                }
                lemma_count_bound(t);
            }
            lemma_no_slot(t, key);
            assert forall|k: Seq<u8>| #[trigger] lookup(u, k) == (match last_upsert(ups, k) {
                Some(x) => if !has_slot(u, k) || slot_dead(x) {
                    None
                } else {
                    Some(x.word)
                },
                None => lookup(slots, k),
            }) by {
                if k != key {
                    assert(last_upsert(ups, k) == last_upsert(pre, k));
                }
            }
            assert forall|k: Seq<u8>| #[trigger] has_slot(u, k) && !has_slot(slots, k) implies allow_new
                && last_upsert(ups, k) is Some by {
                assert(last_upsert(pre, k) is Some);
            }
        } else {
            lemma_put(t, s);
            assert forall|k: Seq<u8>| has_slot(u, k) == (#[trigger] has_slot(t, k) || k == key) by {
                lemma_slot_put(t, s, k);
            }
            lemma_slot_put(t, s, key);
            if slot_empty(t[p]) {
                assert(allow);
                assert forall|i: int| 0 <= i < pre.len() implies has_slot(
                    t,
                    (#[trigger] pre[i]).key@,
                ) by {
                    if !has_slot(t, pre[i].key@) {
                        lemma_without_has(t, pre, i);
                    }
                }
                assert forall|i: int| 0 <= i < pre.len() implies has_slot(
                    t,
                    (#[trigger] pre[i]).key@,
                ) == has_slot(u, pre[i].key@) by {
                    assert(has_slot(t, pre[i].key@));
                }
                lemma_without_same(t, u, pre);
            } else {
                assert(t[p].key@ == key);
                assert(has_slot(t, key));
                assert forall|i: int| 0 <= i < pre.len() implies has_slot(
                    t,
                    (#[trigger] pre[i]).key@,
                ) == has_slot(u, pre[i].key@) by {
                    assert(has_slot(t, pre[i].key@) || !has_slot(t, pre[i].key@));
                    lemma_slot_put(t, s, pre[i].key@);
                }
                lemma_without_same(t, u, pre);
            }
            assert forall|k: Seq<u8>| #[trigger] lookup(u, k) == (match last_upsert(ups, k) {
                Some(x) => if !has_slot(u, k) || slot_dead(x) {
                    None
                } else {
                    Some(x.word)
                },
                None => lookup(slots, k),
            }) by {
                lemma_slot_put(t, s, k);
                if k != key {
                    assert(lookup(u, k) == lookup(t, k));
                    assert(last_upsert(ups, k) == last_upsert(pre, k));
                }
            }
            assert forall|k: Seq<u8>| #[trigger] has_slot(u, k) && !has_slot(slots, k) implies allow_new
                && last_upsert(ups, k) is Some by {
                lemma_slot_put(t, s, k);
                if k != key {
                    assert(has_slot(t, k));
                    assert(last_upsert(pre, k) is Some);
                } else if has_slot(t, key) {
                    assert(last_upsert(pre, k) is Some || has_slot(slots, k));
                }
            }
            assert forall|k: Seq<u8>| #[trigger] has_slot(slots, k) implies has_slot(u, k) by {
                lemma_slot_put(t, s, k);
                assert(has_slot(t, k));
            }
        }
    } else {
        assert forall|k: Seq<u8>| #[trigger] lookup(slots, k) == (match last_upsert(ups, k) {
            Some(x) => if !has_slot(slots, k) || slot_dead(x) {
                None
            } else {
                Some(x.word)
            },
            None => lookup(slots, k),
        }) by {}
    }
}

/// In a sound table probing for a key ends at its slot.
proof fn lemma_slot_at(slots: Seq<Slot>, i: int)
    requires
        chain_ok(slots),
        0 <= i < slots.len(),
        !slot_empty(slots[i]),
    ensures
        find(slots, slots[i].key@) < slots.len(),
        find_slot(slots, slots[i].key@) == i,
{
    reveal(chain_ok);
}

/// The lesser number.
pub open spec fn least(a: int, b: int) -> int {
    if a < b {
        a
    } else {
        b
    }
}

impl ScriptHashHead {
    /// Stores upserts without ever growing the table; gives back what is left over.
    ///
    /// With `allow_new` new keys take empty slots until one finds none; from
    /// there on, and without `allow_new` from the start, only keys that have a
    /// slot are updated.
    pub fn insert_many_no_rehash(&mut self, upserts: &[KeyEntry], allow_new: bool) -> (r: Result<
        Vec<KeyEntry>,
        StoreError,
    >)
        requires
            old(self).shape(),
        ensures
            final(self).shape(),
            old(self).used_slots() is Some <==> final(self).used_slots() is Some,
            old(self).used_slots() is None ==> final(self).counter() == old(self).counter(),
            old(self).used_slots() is Some ==> final(self).counter() == least(
                old(self).counter() + count_used(final(self).table()) - count_used(
                    old(self).table(),
                ),
                old(self).table().len() as int,
            ),
            match r {
                Err(e) => first_key_err(upserts@) == Some(e) && *final(self) == *old(self),
                Ok(rem) => {
                    &&& first_key_err(upserts@) is None
                    &&& final(self).table() == spill(
                        old(self).table(),
                        key_slots(upserts@),
                        allow_new,
                    ).0
                    &&& key_slots(rem@) == spill(
                        old(self).table(),
                        key_slots(upserts@),
                        allow_new,
                    ).1
                    &&& forall|i: int|
                        0 <= i < rem@.len() ==> upserts@.contains(#[trigger] rem@[i])
                },
            },
            old(self).inv() ==> final(self).inv() && (r is Ok ==> spilled(
                old(self).table(),
                final(self).table(),
                key_slots(upserts@),
                key_slots(r->Ok_0@),
                allow_new,
            )),
    {
        let ups = match pack_keys(upserts) {
            Ok(v) => v,
            Err(e) => return Err(e),
        };
        let ghost all = key_slots(upserts@);
        proof {
            assert forall|k: int| 0 <= k < all.len() implies !slot_empty(#[trigger] all[k]) by {
                assert(all[k] == slot_for(upserts@[k].0, pack8(upserts@[k].1)->Ok_0));
            }
        }
        let mut rem: Vec<KeyEntry> = Vec::new();
        let mut allow: bool = allow_new;
        let mut i: usize = 0;
        proof {
            assert(ups@.subrange(0, 0) =~= Seq::empty());
            assert(key_slots(rem@) =~= Seq::empty());
        }
        while i < ups.len()
            invariant
                i <= ups@.len(),
                ups@.len() == upserts@.len(),
                ups@ == all,
                all == key_slots(upserts@),
                self.shape(),
                old(self).shape(),
                old(self).used_slots() is Some <==> self.used_slots() is Some,
                old(self).used_slots() is None ==> self.counter() == old(self).counter(),
                self.table().len() == old(self).table().len(),
                count_used(self.table()) >= count_used(old(self).table()),
                old(self).used_slots() is Some ==> self.counter() == least(
                    old(self).counter() + count_used(self.table()) - count_used(
                        old(self).table(),
                    ),
                    old(self).table().len() as int,
                ),
                forall|k: int| 0 <= k < all.len() ==> !slot_empty(#[trigger] all[k]),
                ({
                    let (t, left, a) = spill(
                        old(self).table(),
                        all.subrange(0, i as int),
                        allow_new,
                    );
                    self.table() == t && key_slots(rem@) == left && allow == a
                }),
                old(self).inv() ==> self.inv(),
                forall|k: int| 0 <= k < rem@.len() ==> upserts@.contains(#[trigger] rem@[k]),
            decreases ups@.len() - i,
        {
            let s: Slot = ups[i];
            let ghost t0 = self.table();
            proof {
                let p = all.subrange(0, i + 1);
                assert(p.drop_last() =~= all.subrange(0, i as int));
                assert(p.last() == all[i as int]);
                assert(all[i as int] == s);
                lemma_find_char(t0, s.key@);
                assert((Slot { key: s.key, word: s.word }) == s);
                if find(t0, s.key@) < t0.len() {
                    lemma_count_update(t0, find_slot(t0, s.key@), s);
                    lemma_count_bound(t0.update(find_slot(t0, s.key@), s));
                    if chain_ok(t0) {
                        assert(s == slot_for(upserts@[i as int].0, pack8(upserts@[i as int].1)->Ok_0));
                        assert(!slot_empty(s));
                        lemma_put(t0, s);
                    }
                }
            }
            match place(&mut self.slots, &s.key, s.word, allow) {
                InsertResult::Done(was_empty) => {
                    if was_empty && self.occ_known && self.occupied < self.slots.len() as u64 {
                        self.occupied = self.occupied + 1;
                    }
                },
                InsertResult::NeedSlot => {
                    let ghost before = rem@;
                    allow = false;
                    rem.push(upserts[i]);
                    proof {
                        assert(upserts@.contains(upserts@[i as int]));
                        assert(key_slots(rem@) =~= key_slots(before).push(s));
                    }
                },
            }
            i += 1;
        }
        proof {
            assert(all.subrange(0, all.len() as int) =~= all);
            if old(self).inv() {
                assert forall|k: int| 0 <= k < all.len() implies !slot_empty(#[trigger] all[k]) by {
                    assert(all[k] == slot_for(upserts@[k].0, pack8(upserts@[k].1)->Ok_0));
                }
                law_spill_exact(old(self).table(), all, allow_new);
            }
        }
        Ok(rem)
    }

    /// As [`Self::insert_many_no_rehash`], with full hashes; what is left over
    /// comes back under the first given hash with that head key.
    pub fn insert_many_full_no_rehash(&mut self, entries: &[HeadEntry], allow_new: bool) -> (r:
        Result<Vec<HeadEntry>, StoreError>)
        requires
            old(self).shape(),
        ensures
            final(self).shape(),
            old(self).used_slots() is Some <==> final(self).used_slots() is Some,
            old(self).used_slots() is None ==> final(self).counter() == old(self).counter(),
            old(self).used_slots() is Some ==> final(self).counter() == least(
                old(self).counter() + count_used(final(self).table()) - count_used(
                    old(self).table(),
                ),
                old(self).table().len() as int,
            ),
            old(self).inv() ==> final(self).inv() && (r is Ok ==> spilled(
                old(self).table(),
                final(self).table(),
                key_slots(truncated(entries@)),
                key_slots(truncated(r->Ok_0@)),
                allow_new,
            )),
            match r {
                Err(e) => first_key_err(truncated(entries@)) == Some(e) && *final(self) == *old(
                    self,
                ),
                Ok(rem) => {
                    let (t, left, _) = spill(
                        old(self).table(),
                        key_slots(truncated(entries@)),
                        allow_new,
                    );
                    &&& first_key_err(truncated(entries@)) is None
                    &&& final(self).table() == t
                    &&& rem@.len() == left.len()
                    &&& forall|i: int|
                        0 <= i < rem@.len() ==> slot_for(
                            key_of((#[trigger] rem@[i]).0),
                            pack8(rem@[i].1)->Ok_0,
                        ) == left[i] && first_with_key(
                            entries@,
                            rem@[i].0@,
                        )
                },
            },
    {
        let mut mapped: Vec<KeyEntry> = Vec::new();
        let mut i: usize = 0;
        while i < entries.len()
            invariant
                i <= entries@.len(),
                mapped@ =~= truncated(entries@.subrange(0, i as int)),
            decreases entries@.len() - i,
        {
            mapped.push((head_key_from_full(&entries[i].0), entries[i].1));
            i += 1;
            proof {
                assert(mapped@ =~= truncated(entries@.subrange(0, i as int)));
            }
        }
        proof {
            assert(entries@.subrange(0, i as int) =~= entries@);
        }
        let rem = match self.insert_many_no_rehash(mapped.as_slice(), allow_new) {
            Ok(v) => v,
            Err(e) => return Err(e),
        };
        let ghost left = key_slots(rem@);
        let mut out: Vec<HeadEntry> = Vec::new();
        i = 0;
        while i < rem.len()
            invariant
                i <= rem@.len(),
                out@.len() == i,
                left == key_slots(rem@),
                left == spill(
                    old(self).table(),
                    key_slots(truncated(entries@)),
                    allow_new,
                ).1,
                forall|k: int|
                    0 <= k < i ==> slot_for(
                        key_of((#[trigger] out@[k]).0),
                        pack8(out@[k].1)->Ok_0,
                    ) == left[k] && first_with_key(entries@, out@[k].0@),
            decreases rem@.len() - i,
        {
            let key: ShHeadKey = rem[i].0;
            let mut j: usize = 0;
            let ghost w: int = 0;
            proof {
                w = lemma_left_from(
                    old(self).table(),
                    key_slots(truncated(entries@)),
                    allow_new,
                    i as int,
                );
                assert(key_slots(truncated(entries@))[w].key == key_of(entries@[w].0));
                assert(left[i as int].key == key);
                lemma_key_of(entries@[w].0);
            }
            while j < entries.len() && !key_eq(&head_key_from_full(&entries[j].0), &key)
                invariant
                    j <= w,
                    0 <= w < entries@.len(),
                    key16(entries@[w].0@) == key@,
                    forall|k: int| 0 <= k < j ==> key16((#[trigger] entries@[k]).0@) != key@,
                decreases entries@.len() - j,
            {
                j += 1;
            }
            proof {
                lemma_key_of(entries@[j as int].0);
                assert(key_of(entries@[j as int].0)@ == key@);
                assert(key_of(entries@[j as int].0) =~= key);
                assert(left[i as int] == slot_for(key, pack8(rem@[i as int].1)->Ok_0));
            }
            out.push((entries[j].0, rem[i].1));
            i += 1;
        }
        proof {
            assert(key_slots(truncated(out@)) =~= left);
        }
        Ok(out)
    }
}

/// Entries under their head keys.
pub open spec fn truncated(entries: Seq<HeadEntry>) -> Seq<KeyEntry> {
    entries.map_values(|e: HeadEntry| (key_of(e.0), e.1))
}

/// `full` is the first of the given hashes with its head key.
pub open spec fn first_with_key(entries: Seq<HeadEntry>, full: Seq<u8>) -> bool {
    exists|j: int|
        0 <= j < entries.len() && (#[trigger] entries[j]).0@ == full && forall|k: int|
            0 <= k < j ==> key16((#[trigger] entries[k]).0@) != key16(full)
}

/// What is left over was among the upserts.
proof fn lemma_left_from(slots: Seq<Slot>, ups: Seq<Slot>, allow_new: bool, i: int) -> (w: int)
    requires
        0 <= i < spill(slots, ups, allow_new).1.len(),
    ensures
        0 <= w < ups.len(),
        spill(slots, ups, allow_new).1[i] == ups[w],
    decreases ups.len(),
{
    let pre = spill(slots, ups.drop_last(), allow_new).1;
    if i < pre.len() {
        let w = lemma_left_from(slots, ups.drop_last(), allow_new, i);
        assert(ups.drop_last()[w] == ups[w]);
        w
    } else {
        ups.len() - 1
    }
}

/// Bytes of the count file: magic, then the count.
pub open spec fn occ_bytes(occupied: u64) -> Seq<u8> {
    seq![0x53u8, 0x48u8, 0x4fu8, 0x43u8, 0x43u8, 0x30u8, 0x30u8, 0x31u8] + le64(occupied)
}

fn occ_magic() -> (r: Vec<u8>)
    ensures
        r@ == seq![0x53u8, 0x48u8, 0x4fu8, 0x43u8, 0x43u8, 0x30u8, 0x30u8, 0x31u8],
{
    let v: Vec<u8> = vec![0x53, 0x48, 0x4f, 0x43, 0x43, 0x30, 0x30, 0x31];
    proof {
        assert(v@ =~= seq![0x53u8, 0x48u8, 0x4fu8, 0x43u8, 0x43u8, 0x30u8, 0x30u8, 0x31u8]);
    }
    v
}

/// Bytes of the count file.
pub fn store_occ_sidecar(occupied: u64) -> (r: Vec<u8>)
    ensures
        r@ == occ_bytes(occupied),
{
    let mut v = occ_magic();
    push_u64(&mut v, occupied);
    v
}

/// The count in a count file (`None` if it is short or has another magic).
pub open spec fn occ_value(buf: Seq<u8>) -> Option<u64> {
    if buf.len() >= 16 && buf.subrange(0, 8) == seq![
        0x53u8,
        0x48u8,
        0x4fu8,
        0x43u8,
        0x43u8,
        0x30u8,
        0x30u8,
        0x31u8,
    ] {
        Some(u64_at(buf, 8))
    } else {
        None
    }
}

/// Reads a count file.
pub fn load_occ_sidecar(buf: &[u8]) -> (r: Option<u64>)
    ensures
        r == occ_value(buf@),
{
    if buf.len() < 16 {
        return None;
    }
    let m = occ_magic();
    if !crate::bytes::bytes_at(buf, 0, m.as_slice()) {
        return None;
    }
    Some(get_u64(buf, 8))
}

/// A count file gives back the count that was stored.
pub proof fn law_occ_roundtrip(occupied: u64)
    ensures
        occ_value(occ_bytes(occupied)) == Some(occupied),
{
    lemma_p256_values();
    lemma_le_nat_of_seq(occupied as nat, 8);
    let b = occ_bytes(occupied);
    assert(b.subrange(0, 8) =~= seq![
        0x53u8,
        0x48u8,
        0x4fu8,
        0x43u8,
        0x43u8,
        0x30u8,
        0x30u8,
        0x31u8,
    ]);
    assert(b.subrange(8, 16) =~= le64(occupied));
}

/// `b` holds the slots one after the other: 16 key bytes, then the word.
pub open spec fn image_of(b: Seq<u8>, slots: Seq<Slot>) -> bool {
    &&& b.len() == 24 * slots.len()
    &&& forall|i: int|
        0 <= i < slots.len() ==> (#[trigger] slots[i]).key@ == b.subrange(24 * i, 24 * i + 16)
            && slots[i].word == u64_at(b, 24 * i + 16)
}

/// Why bytes are not those of a head's slots.
pub open spec fn slots_fault(b: Seq<u8>) -> Option<StoreError> {
    if b.len() % 24 != 0 || b.len() == 0 {
        Some(StoreError::Corrupt("scripthash head size"))
    } else if !is_pow2((b.len() / 24) as int) {
        Some(StoreError::Corrupt("scripthash head slots not power of two"))
    } else {
        None
    }
}

/// An image stands for one table.
pub proof fn law_image_unique(b: Seq<u8>, s: Seq<Slot>, t: Seq<Slot>)
    requires
        image_of(b, s),
        image_of(b, t),
    ensures
        s == t,
{
    assert forall|i: int| 0 <= i < s.len() implies s[i] == t[i] by {
        assert(s[i].key@ == t[i].key@);
        assert(s[i].key =~= t[i].key);
    }
    assert(s =~= t);
}

pub(crate) fn parse_slots(b: &[u8]) -> (r: Vec<Slot>)
    requires
        b@.len() % 24 == 0,
    ensures
        image_of(b@, r@),
{
    let n: usize = b.len() / 24;
    let mut v: Vec<Slot> = Vec::new();
    let mut i: usize = 0;
    while i < n
        invariant
            i <= n,
            24 * n == b@.len(),
            b@.len() <= usize::MAX,
            v@.len() == i,
            forall|k: int|
                0 <= k < i ==> (#[trigger] v@[k]).key@ == b@.subrange(24 * k, 24 * k + 16)
                    && v@[k].word == u64_at(b@, 24 * k + 16),
        decreases n - i,
    {
        let mut key: ShHeadKey = [0u8; 16];
        let mut j: usize = 0;
        while j < 16
            invariant
                j <= 16,
                i < n,
                24 * n == b@.len(),
                b@.len() <= usize::MAX,
                forall|k: int| 0 <= k < j ==> key@[k] == b@[24 * i + k],
            decreases 16 - j,
        {
            key[j] = b[24 * i + j];
            j += 1;
        }
        proof {
            assert(key@ =~= b@.subrange(24 * i, 24 * i + 16));
        }
        v.push(Slot { key, word: get_u64(b, 24 * i + 16) });
        i += 1;
    }
    v
}

impl ScriptHashHead {
    /// Opens a head from the bytes of its slots and its count file, if any.
    ///
    /// Without a stored count a small table is scanned; of a large one the
    /// count stays unknown.
    pub fn open(body: &[u8], sidecar: Option<u64>) -> (r: Result<Self, StoreError>)
        ensures
            if body@.len() % 24 != 0 || body@.len() == 0 {
                r is Err && r->Err_0 == StoreError::Corrupt("scripthash head size")
            } else if !is_pow2((body@.len() / 24) as int) {
                r is Err && r->Err_0 == StoreError::Corrupt(
                    "scripthash head slots not power of two",
                )
            } else {
                &&& r is Ok
                &&& image_of(body@, r->Ok_0.table())
                &&& r->Ok_0.used_slots() == (match sidecar {
                    Some(n) => Some(n),
                    None => if body@.len() <= OCC_SCAN_BYTE_CAP {
                        Some(count_used(r->Ok_0.table()) as u64)
                    } else {
                        None
                    },
                })
                &&& r->Ok_0.used_slots() is None ==> r->Ok_0.counter() == 0
                &&& r->Ok_0.used_slots() matches Some(n) ==> r->Ok_0.counter() == n
            },
    {
        let len: usize = body.len();
        if len % SH_HEAD_SLOT_SIZE != 0 || len == 0 {
            return Err(StoreError::Corrupt("scripthash head size"));
        }
        let n: usize = len / SH_HEAD_SLOT_SIZE;
        if n as u64 > 0x4000_0000_0000_0000 {
            proof {
                assert(24 * (0x4000_0000_0000_0000int + 1) > usize::MAX);
            }
            return Err(StoreError::Corrupt("scripthash head size"));
        }
        let p: u64 = next_pow2(n as u64);
        proof {
            if is_pow2(n as int) {
                lemma_pow2_self(n as int, p as int);
            }
        }
        if p != n as u64 {
            return Err(StoreError::Corrupt("scripthash head slots not power of two"));
        }
        let slots = parse_slots(body);
        proof {
            lemma_count_bound(slots@);
        }
        match sidecar {
            Some(occ) => Ok(ScriptHashHead { slots, occupied: occ, occ_known: true }),
            None => if len as u64 <= OCC_SCAN_BYTE_CAP {
                let occ: usize = scan_used(&slots);
                Ok(ScriptHashHead { slots, occupied: occ as u64, occ_known: true })
            } else {
                Ok(ScriptHashHead { slots, occupied: 0, occ_known: false })
            },
        }
    }

    /// The bytes of the slots.
    pub fn image(&self) -> (r: Vec<u8>)
        ensures
            image_of(r@, self.table()),
    {
        slots_bytes(&self.slots)
    }
}

/// The bytes of slots.
pub(crate) fn slots_bytes(slots: &Vec<Slot>) -> (r: Vec<u8>)
    ensures
        image_of(r@, slots@),
{
    let mut v: Vec<u8> = Vec::new();
    let mut i: usize = 0;
    while i < slots.len()
        invariant
            i <= slots@.len(),
            image_of(v@, slots@.subrange(0, i as int)),
        decreases slots@.len() - i,
    {
        let s: Slot = slots[i];
        let ghost before = v@;
        let ghost done = slots@.subrange(0, i as int);
        crate::bytes::push_slice(&mut v, s.key.as_slice());
        push_u64(&mut v, s.word);
        i += 1;
        proof {
            lemma_p256_values();
            lemma_le_nat_of_seq(s.word as nat, 8);
            let part = slots@.subrange(0, i as int);
            assert forall|k: int| 0 <= k < part.len() implies (#[trigger] part[k]).key@
                == v@.subrange(24 * k, 24 * k + 16) && part[k].word == u64_at(
                v@,
                24 * k + 16,
            ) by {
                if k < i - 1 {
                    assert(done[k] == part[k]);
                    assert(v@.subrange(24 * k, 24 * k + 16) =~= before.subrange(
                        24 * k,
                        24 * k + 16,
                    ));
                    assert(v@.subrange(24 * k + 16, 24 * k + 24) =~= before.subrange(
                        24 * k + 16,
                        24 * k + 24,
                    ));
                } else {
                    assert(v@.subrange(24 * k, 24 * k + 16) =~= s.key@);
                    assert(v@.subrange(24 * k + 16, 24 * k + 24) =~= le64(s.word));
                }
            }
        }
    }
    proof {
        assert(slots@.subrange(0, i as int) =~= slots@);
    }
    v
}

impl Ranked for Slot {
    open spec fn rank(&self) -> nat {
        be_nat(self.key@)
    }

    fn rank_le(&self, other: &Self) -> (r: bool) {
        proof {
            assert(self.key@.subrange(0, 16) =~= self.key@);
            assert(other.key@.subrange(0, 16) =~= other.key@);
        }
        match bytes_order(self.key.as_slice(), 0, other.key.as_slice(), 0, 16) {
            Cmp3::More => false,
            _ => true,
        }
    }
}

/// The slots in use, in order.
pub open spec fn used_seq(slots: Seq<Slot>) -> Seq<Slot>
    decreases slots.len(),
{
    if slots.len() == 0 {
        Seq::empty()
    } else if slot_empty(slots.last()) {
        used_seq(slots.drop_last())
    } else {
        used_seq(slots.drop_last()).push(slots.last())
    }
}

/// Every slot in use holds a value.
pub open spec fn none_cleared(slots: Seq<Slot>) -> bool {
    forall|i: int| 0 <= i < slots.len() && !slot_empty(#[trigger] slots[i]) ==> !slot_dead(slots[i])
}

/// Where no key was cleared, the slots in use are those with a value.
proof fn lemma_used_live(slots: Seq<Slot>)
    requires
        none_cleared(slots),
    ensures
        used_seq(slots) == live_slots(slots),
        used_seq(slots).len() == count_used(slots),
    decreases slots.len(),
{
    if slots.len() > 0 {
        let d = slots.drop_last();
        assert forall|i: int| 0 <= i < d.len() && !slot_empty(#[trigger] d[i]) implies !slot_dead(
            d[i],
        ) by {
            assert(d[i] == slots[i]);
        }
        assert(slots.last() == slots[slots.len() - 1]);
        lemma_used_live(d);
    }
}

/// Slot table of one shard that is filled in memory and installed at once.
pub struct LiveShardTable {
    slots: Vec<Slot>,
    occupied: u64,
    keys: u64,
}

impl LiveShardTable {
    pub closed spec fn table(&self) -> Seq<Slot> {
        self.slots@
    }

    pub closed spec fn used_count(&self) -> u64 {
        self.occupied
    }

    pub closed spec fn key_count(&self) -> u64 {
        self.keys
    }

    pub open spec fn view(&self) -> Map<Seq<u8>, u64> {
        slots_map(self.table())
    }

    /// Every key is found, no key was cleared, and both counters are those of the keys.
    pub open spec fn inv(&self) -> bool {
        &&& slots_shape(self.table())
        &&& chain_ok(self.table())
        &&& none_cleared(self.table())
        &&& self.used_count() == count_used(self.table())
        &&& self.key_count() == self.used_count()
    }

    /// Empty slots for `key_budget` keys.
    pub fn with_key_budget(key_budget: u64) -> (r: Self)
        requires
            key_budget <= usize::MAX / 16,
        ensures
            r.inv(),
            r@ == Map::<Seq<u8>, u64>::empty(),
            r.used_count() == 0,
            r.key_count() == 0,
            least_pow2(r.table().len() as int, slots_needed(key_budget as int)),
            8 * key_budget <= 7 * r.table().len(),
    {
        let n: u64 = sh_slots_for_keys(key_budget);
        proof {
            lemma_load(key_budget as int, n as int);
        }
        LiveShardTable { slots: empty_slots(n as usize), occupied: 0, keys: 0 }
    }

    pub fn slots(&self) -> (r: u64)
        ensures
            r == self.table().len(),
    {
        self.slots.len() as u64
    }

    pub fn occupied(&self) -> (r: u64)
        ensures
            r == self.used_count(),
    {
        self.occupied
    }

    /// Number of keys.
    pub fn keys(&self) -> (r: u64)
        ensures
            r == self.key_count(),
    {
        self.keys
    }

    /// Bytes of the slot image.
    pub fn table_bytes(&self) -> (r: usize)
        ensures
            r == (if 24 * self.table().len() > usize::MAX {
                usize::MAX as int
            } else {
                24 * self.table().len() as int
            }),
    {
        if self.slots.len() > usize::MAX / SH_HEAD_SLOT_SIZE {
            usize::MAX
        } else {
            self.slots.len() * SH_HEAD_SLOT_SIZE
        }
    }

    /// Every key with its last value, in key order.
    pub fn collect_sorted_recs(&self) -> (r: Vec<Slot>)
        requires
            self.inv(),
        ensures
            keys_rise(r@),
            r@.len() == self.used_count(),
            forall|k: Seq<u8>| #[trigger] sealed_word(r@, k) == lookup(self.table(), k),
            r@.to_multiset() == used_seq(self.table()).to_multiset(),
    {
        let mut v: Vec<Slot> = Vec::new();
        let mut i: usize = 0;
        proof {
            assert(self.slots@.subrange(0, 0) =~= Seq::empty());
        }
        while i < self.slots.len()
            invariant
                i <= self.slots@.len(),
                v@ == used_seq(self.slots@.subrange(0, i as int)),
            decreases self.slots@.len() - i,
        {
            proof {
                let p = self.slots@.subrange(0, i + 1);
                assert(p.drop_last() =~= self.slots@.subrange(0, i as int));
            }
            if !slot_is_empty(&self.slots[i]) {
                v.push(self.slots[i]);
            }
            i += 1;
        }
        proof {
            assert(self.slots@.subrange(0, i as int) =~= self.slots@);
        }
        let r = sort_ranked(&v);
        proof {
            lemma_used_live(self.slots@);
            lemma_sealed_records(self.slots@, r@);
        }
        r
    }

    /// Stores one value; an empty one is skipped. The last value of a key stays.
    pub fn insert(&mut self, full: &[u8; 32], val: &ShHeadValue) -> (r: Result<(), StoreError>)
        requires
            old(self).inv(),
            old(self).table().len() <= usize::MAX / 4,
        ensures
            final(self).inv(),
            *val is Empty ==> *final(self) == *old(self),
            final(self).table().len() == (if *val is Empty || 8 * (old(self).used_count() + 1) <= 7
                * old(self).table().len() {
                old(self).table().len()
            } else {
                2 * old(self).table().len()
            }),
            r == (match pack8(*val) {
                Err(e) => Err::<(), StoreError>(e),
                Ok(_) => Ok(()),
            }),
            final(self)@ == (if r is Ok && !(*val is Empty) {
                old(self)@.insert(key16(full@), pack8(*val)->Ok_0)
            } else {
                old(self)@
            }),
            final(self).key_count() == (if r is Ok && !(*val is Empty)
                && !old(self)@.dom().contains(key16(full@)) {
                old(self).key_count() + 1
            } else {
                old(self).key_count() as int
            }),
            // Seven eighths of the slots at most are in use.
            r is Ok && !(*val is Empty) ==> 8 * final(self).used_count() <= 7
                * final(self).table().len(),
    {
        if val.is_empty() {
            return Ok(());
        }
        proof {
            lemma_count_bound(self.slots@);
        }
        if (self.occupied as u128 + 1) * 8 > self.slots.len() as u128 * 7 {
            self.rehash_double();
        }
        let key = head_key_from_full(full);
        let word: u64 = match pack8_word(val) {
            Ok(w) => w,
            Err(e) => return Err(e),
        };
        proof {
            law_pack8_roundtrip(*val);
            let s = Slot { key, word };
            assert(!slot_dead(s));
            lemma_count_bound(self.slots@);
            let e = lemma_room(self.slots@);
            lemma_find_with_room(self.slots@, key@, e);
            lemma_find_char(self.slots@, key@);
            lemma_put(self.slots@, s);
            lemma_put_map(self.slots@, s);
            lemma_count_bound(self.slots@.update(find_slot(self.slots@, key@), s));
            assert(slot_empty(self.slots@[find_slot(self.slots@, key@)]) <==> !self@.dom().contains(
                key@,
            ));
        }
        match place(&mut self.slots, &key, word, true) {
            InsertResult::Done(was_empty) => {
                if was_empty {
                    self.occupied = self.occupied + 1;
                    self.keys = self.keys + 1;
                }
            },
            InsertResult::NeedSlot => {
                return Err(StoreError::Corrupt("scripthash live shard table full"));
            },
        }
        Ok(())
    }

    fn rehash_double(&mut self)
        requires
            old(self).inv(),
            old(self).table().len() <= usize::MAX / 4,
        ensures
            final(self).inv(),
            final(self).table().len() == 2 * old(self).table().len(),
            final(self)@ == old(self)@,
            final(self).key_count() == old(self).key_count(),
            final(self).used_count() == old(self).used_count(),
    {
        let n: usize = self.slots.len() * 2;
        proof {
            reveal_with_fuel(is_pow2, 2);
            assert((n as int) / 2 == self.slots@.len());
        }
        let ghost before = self.slots@;
        self.slots = refill(&self.slots, n);
        proof {
            assert forall|q: int| 0 <= q < self.slots@.len() && !slot_empty(
                #[trigger] self.slots@[q],
            ) implies !slot_dead(self.slots@[q]) by {
                let j = choose|j: int| 0 <= j < before.len() && before[j] == self.slots@[q];
                assert(!slot_dead(before[j]));
            }
        }
    }

    /// Puts the table into an empty head.
    pub fn install_into(self, head: &mut ScriptHashHead) -> (r: Result<(), StoreError>)
        requires
            self.inv(),
            self.table().len() <= usize::MAX / 2,
        ensures
            old(head).used_slots() != Some(0u64) ==> r == Err::<(), StoreError>(
                StoreError::Corrupt("scripthash live install: shard not empty"),
            ) && *final(head) == *old(head),
            old(head).used_slots() == Some(0u64) ==> r == Ok::<(), StoreError>(())
                && final(head).inv() && final(head).table() == self.table() && final(head)@ == self@
                && final(head).used_slots() == Some(self.used_count()),
    {
        if !head.is_known_empty() {
            return Err(StoreError::Corrupt("scripthash live install: shard not empty"));
        }
        let n: u64 = self.slots.len() as u64;
        proof {
            lemma_count_bound(self.slots@);
        }
        head.install_cold_image(self.slots, n, self.occupied)
    }
}

/// A slot with a value is among the live ones exactly if the table holds it.
proof fn lemma_live_has(slots: Seq<Slot>, s: Slot)
    ensures
        live_slots(slots).contains(s) <==> (!slot_dead(s) && slots.contains(s)),
    decreases slots.len(),
{
    if slots.len() > 0 {
        let d = slots.drop_last();
        lemma_live_has(d, s);
        let l = live_slots(slots);
        if l.contains(s) {
            let i = choose|i: int| 0 <= i < l.len() && l[i] == s;
            if !slot_dead(slots.last()) && i == l.len() - 1 {
                assert(slots[slots.len() - 1] == s);
            } else {
                assert(live_slots(d)[i] == s);
                assert(d.contains(s));
                let j = choose|j: int| 0 <= j < d.len() && d[j] == s;
                assert(slots[j] == s);
            }
        }
        if !slot_dead(s) && slots.contains(s) {
            let j = choose|j: int| 0 <= j < slots.len() && slots[j] == s;
            if j < d.len() {
                assert(d[j] == s);
                assert(live_slots(d).contains(s));
                let i = choose|i: int| 0 <= i < live_slots(d).len() && live_slots(d)[i] == s;
                assert(l[i] == s);
            } else {
                assert(l[l.len() - 1] == s);
            }
        }
    }
}

/// No slot occurs twice.
spec fn once(slots: Seq<Slot>) -> bool {
    forall|i: int, j: int|
        0 <= i < j < slots.len() && !slot_empty(#[trigger] slots[i]) ==> slots[i]
            != #[trigger] slots[j]
}

proof fn lemma_live_once(slots: Seq<Slot>)
    requires
        once(slots),
    ensures
        live_slots(slots).no_duplicates(),
    decreases slots.len(),
{
    if slots.len() > 0 {
        let d = slots.drop_last();
        assert forall|i: int, j: int|
            0 <= i < j < d.len() && !slot_empty(#[trigger] d[i]) implies d[i] != #[trigger] d[j] by {
            assert(slots[i] == d[i] && slots[j] == d[j]);
        }
        lemma_live_once(d);
        let x = slots.last();
        if !slot_dead(x) {
            lemma_live_has(d, x);
            if live_slots(d).contains(x) {
                let j = choose|j: int| 0 <= j < d.len() && d[j] == x;
                assert(slots[j] == slots[slots.len() - 1]);
            }
            let l = live_slots(slots);
            assert forall|i: int, j: int| 0 <= i < l.len() && 0 <= j < l.len() && i != j implies l[i]
                != l[j] by {
                if i < live_slots(d).len() && j < live_slots(d).len() {
                } else if i < live_slots(d).len() {
                    assert(live_slots(d).contains(l[i]));
                } else {
                    assert(live_slots(d).contains(l[j]));
                }
            }
        }
    }
}

/// Keys and words of a sound table in key order answer as the table does.
proof fn lemma_sealed_records(slots: Seq<Slot>, recs: Seq<Slot>)
    requires
        chain_ok(slots),
        sorted_by_rank(recs),
        recs.to_multiset() == live_slots(slots).to_multiset(),
    ensures
        keys_rise(recs),
        forall|k: Seq<u8>| #[trigger] sealed_word(recs, k) == lookup(slots, k),
{
    reveal(chain_ok);
    let live = live_slots(slots);
    assert(once(slots)) by {
        assert forall|i: int, j: int|
            0 <= i < j < slots.len() && !slot_empty(#[trigger] slots[i]) implies slots[i]
            != #[trigger] slots[j] by {
            if slots[i] == slots[j] {
                assert(find_slot(slots, slots[i].key@) == i);
                assert(find_slot(slots, slots[j].key@) == j);
            }
        }
    }
    lemma_live_once(slots);
    live.lemma_multiset_has_no_duplicates();
    recs.lemma_multiset_has_no_duplicates_conv();
    assert forall|i: int| 0 <= i < recs.len() implies !slot_dead(#[trigger] recs[i])
        && slots.contains(recs[i]) by {
        let j = crate::sorting::lemma_same_items(recs, live, i);
        lemma_live_has(slots, recs[i]);
        assert(live.contains(recs[i]));
    }
    assert forall|i: int, j: int| 0 <= i < j < recs.len() implies (#[trigger] recs[i]).rank() < (
    #[trigger] recs[j]).rank() by {
        if recs[i].rank() == recs[j].rank() {
            crate::sorting::lemma_be_injective(recs[i].key@, recs[j].key@);
            let a = choose|a: int| 0 <= a < slots.len() && slots[a] == recs[i];
            let b = choose|b: int| 0 <= b < slots.len() && slots[b] == recs[j];
            assert(find_slot(slots, slots[a].key@) == a);
            assert(find_slot(slots, slots[b].key@) == b);
            assert(recs[i] == recs[j]);
        }
    }
    assert forall|k: Seq<u8>| #[trigger] sealed_word(recs, k) == lookup(slots, k) by {
        lemma_find_char(slots, k);
        if sealed_word(recs, k) is Some {
            let i = lemma_sealed_has(recs, k);
            let a = choose|a: int| 0 <= a < slots.len() && slots[a] == recs[i];
            lemma_stored_found(slots, a);
        }
        if lookup(slots, k) is Some {
            let s = slots[find_slot(slots, k)];
            assert(slots.contains(s));
            lemma_live_has(slots, s);
            let j = choose|j: int| 0 <= j < live.len() && live[j] == s;
            let i = crate::sorting::lemma_same_items(live, recs, j);
            lemma_sealed_at(recs, i);
        }
    }
}

impl ScriptHashHead {
    /// Keys with a value, in key order.
    pub fn sealed_records(&self) -> (r: Vec<Slot>)
        requires
            self.inv(),
        ensures
            keys_rise(r@),
            forall|k: Seq<u8>| #[trigger] sealed_word(r@, k) == lookup(self.table(), k),
    {
        let mut v: Vec<Slot> = Vec::new();
        let mut i: usize = 0;
        proof {
            assert(self.slots@.subrange(0, 0) =~= Seq::empty());
        }
        while i < self.slots.len()
            invariant
                i <= self.slots@.len(),
                v@ == live_slots(self.slots@.subrange(0, i as int)),
            decreases self.slots@.len() - i,
        {
            proof {
                let p = self.slots@.subrange(0, i + 1);
                assert(p.drop_last() =~= self.slots@.subrange(0, i as int));
                assert(p.last() == self.slots@[i as int]);
            }
            if !slot_is_dead(&self.slots[i]) {
                v.push(self.slots[i]);
            }
            i += 1;
        }
        proof {
            assert(self.slots@.subrange(0, i as int) =~= self.slots@);
        }
        let r = sort_ranked(&v);
        proof {
            lemma_sealed_records(self.slots@, r@);
        }
        r
    }
}

} // verus!
