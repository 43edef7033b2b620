//! Open-addressed slots with linear probing.
//!
//! A slot is empty if its key and its word are both zero. Probing for a key
//! starts at its home slot and goes on, round the end, to the first slot that
//! is empty or holds the key. A key that was cleared keeps its slot, so that the keys
//! behind it are still found.

use vstd::prelude::*;
use vstd::arithmetic::power2::is_pow2;
use crate::open_address::{home_slot, primary_slot};
use crate::scripthash_layout::ShHeadKey;

verus! {

/// One slot: key and packed value.
#[derive(Clone, Copy, Debug, PartialEq, Eq)]
pub struct Slot {
    pub key: ShHeadKey,
    pub word: u64,
}

/// The key that only an empty slot may carry without a value.
pub open spec fn zero_key() -> Seq<u8> {
    Seq::new(16, |i: int| 0u8)
}

/// Nothing was ever stored in the slot.
pub open spec fn slot_empty(s: Slot) -> bool {
    s.key@ == zero_key() && s.word == 0
}

/// The word of the all-zero key after it was cleared. It is no packed value.
pub const CLEARED_WORD: u64 = 0x8000_0000_0000_0000;

/// The slot holds no value: it is empty, or its key was cleared.
pub open spec fn slot_dead(s: Slot) -> bool {
    s.word == 0 || (s.key@ == zero_key() && s.word == CLEARED_WORD)
}

/// The slot that holds a word for a key. The all-zero key without a value has a form of
/// its own, which an empty slot does not have.
pub open spec fn slot_for(key: ShHeadKey, word: u64) -> Slot {
    Slot {
        key,
        word: if word == 0 && key@ == zero_key() {
            CLEARED_WORD
        } else {
            word
        },
    }
}

/// Probing for `key` stops at the slot.
pub open spec fn hit(s: Slot, key: Seq<u8>) -> bool {
    slot_empty(s) || s.key@ == key
}

/// The `j`-th slot that probing for `key` visits.
pub open spec fn probe_at(key: Seq<u8>, j: int, n: int) -> int {
    (home_slot(key, n) + j) % n
}

/// First probe step from `j` on that stops; the number of slots if none does.
pub open spec fn probe(slots: Seq<Slot>, key: Seq<u8>, j: int) -> int
    decreases slots.len() - j,
{
    if j >= slots.len() {
        slots.len() as int
    } else if hit(slots[probe_at(key, j, slots.len() as int)], key) {
        j
    } else {
        probe(slots, key, j + 1)
    }
}

/// Number of probe steps for `key`.
pub open spec fn find(slots: Seq<Slot>, key: Seq<u8>) -> int {
    probe(slots, key, 0)
}

/// Where probing for `key` stops.
pub open spec fn find_slot(slots: Seq<Slot>, key: Seq<u8>) -> int {
    probe_at(key, find(slots, key), slots.len() as int)
}

/// The word stored for `key`, if there is one and it is not cleared.
pub open spec fn lookup(slots: Seq<Slot>, key: Seq<u8>) -> Option<u64> {
    if find(slots, key) >= slots.len() || slot_dead(slots[find_slot(slots, key)]) {
        None
    } else {
        Some(slots[find_slot(slots, key)].word)
    }
}

/// Keys and words that the table answers for.
pub open spec fn slots_map(slots: Seq<Slot>) -> Map<Seq<u8>, u64> {
    Map::new(|k: Seq<u8>| lookup(slots, k) is Some, |k: Seq<u8>| lookup(slots, k)->0)
}

/// The number of slots is one that the hash can be masked with.
pub open spec fn slots_shape(slots: Seq<Slot>) -> bool {
    slots.len() >= 2 && is_pow2(slots.len() as int)
}

/// Every stored key is found where it lies.
#[verifier::opaque]
pub open spec fn chain_ok(slots: Seq<Slot>) -> bool {
    forall|i: int|
        0 <= i < slots.len() && !slot_empty(#[trigger] slots[i]) ==> find(slots, slots[i].key@)
            < slots.len() && find_slot(slots, slots[i].key@) == i
}

/// Number of slots in use.
pub open spec fn count_used(slots: Seq<Slot>) -> nat
    decreases slots.len(),
{
    if slots.len() == 0 {
        0
    } else {
        count_used(slots.drop_last()) + if slot_empty(slots.last()) {
            0nat
        } else {
            1nat
        }
    }
}

pub proof fn lemma_probe_range(key: Seq<u8>, j: int, n: int)
    requires
        n > 0,
    ensures
        0 <= home_slot(key, n) < n,
        0 <= probe_at(key, j, n) < n,
{
    assert(0 <= (home_slot(key, n) + j) % n < n) by {
        vstd::arithmetic::div_mod::lemma_mod_bound(home_slot(key, n) + j, n);
    }
    vstd::arithmetic::div_mod::lemma_mod_bound(crate::open_address::fnv1a(key) as int, n);
}

proof fn lemma_probe_char(slots: Seq<Slot>, key: Seq<u8>, j: int)
    requires
        0 <= j <= slots.len(),
    ensures
        j <= probe(slots, key, j) <= slots.len(),
        forall|k: int|
            j <= k < probe(slots, key, j) ==> !hit(
                slots[#[trigger] probe_at(key, k, slots.len() as int)],
                key,
            ),
        probe(slots, key, j) < slots.len() ==> hit(
            slots[probe_at(key, probe(slots, key, j), slots.len() as int)],
            key,
        ),
    decreases slots.len() - j,
{
    if j < slots.len() && !hit(slots[probe_at(key, j, slots.len() as int)], key) {
        lemma_probe_char(slots, key, j + 1);
    }
}

/// What `find` stands for: nothing stops before it, and it stops there.
pub proof fn lemma_find_char(slots: Seq<Slot>, key: Seq<u8>)
    ensures
        0 <= find(slots, key) <= slots.len(),
        forall|k: int|
            0 <= k < find(slots, key) ==> !hit(
                slots[#[trigger] probe_at(key, k, slots.len() as int)],
                key,
            ),
        find(slots, key) < slots.len() ==> hit(slots[find_slot(slots, key)], key),
        slots.len() > 0 ==> 0 <= find_slot(slots, key) < slots.len(),
{
    lemma_probe_char(slots, key, 0);
    if slots.len() > 0 {
        lemma_probe_range(key, find(slots, key), slots.len() as int);
    }
}

proof fn lemma_find_unique(slots: Seq<Slot>, key: Seq<u8>, r: int)
    requires
        0 <= r <= slots.len(),
        forall|k: int|
            0 <= k < r ==> !hit(slots[#[trigger] probe_at(key, k, slots.len() as int)], key),
        r < slots.len() ==> hit(slots[probe_at(key, r, slots.len() as int)], key),
    ensures
        find(slots, key) == r,
{
    lemma_find_char(slots, key);
    let f = find(slots, key);
    if f < r {
        assert(!hit(slots[probe_at(key, f, slots.len() as int)], key));
    }
    if r < f {
        assert(!hit(slots[probe_at(key, r, slots.len() as int)], key));
    }
}

/// The probe sequence visits every slot.
proof fn lemma_probe_reaches(key: Seq<u8>, i: int, n: int) -> (j: int)
    requires
        0 <= i < n,
    ensures
        0 <= j < n,
        probe_at(key, j, n) == i,
{
    lemma_probe_range(key, 0, n);
    let h = home_slot(key, n);
    if i >= h {
        vstd::arithmetic::div_mod::lemma_small_mod(i as nat, n as nat);
        i - h
    } else {
        vstd::arithmetic::div_mod::lemma_mod_add_multiples_vanish(i, n);
        vstd::arithmetic::div_mod::lemma_small_mod(i as nat, n as nat);
        assert((n + i) % n == i);
        i - h + n
    }
}

proof fn lemma_probe_distinct(key: Seq<u8>, j: int, k: int, n: int)
    requires
        0 <= j < n,
        0 <= k < n,
        j != k,
    ensures
        probe_at(key, j, n) != probe_at(key, k, n),
{
    lemma_probe_range(key, 0, n);
    let h = home_slot(key, n);
    let a = h + j;
    let b = h + k;
    assert(a % n == if a < n { a } else { a - n }) by {
        if a < n {
            vstd::arithmetic::div_mod::lemma_small_mod(a as nat, n as nat);
        } else {
            vstd::arithmetic::div_mod::lemma_mod_sub_multiples_vanish(a, n);
            vstd::arithmetic::div_mod::lemma_small_mod((a - n) as nat, n as nat);
        }
    }
    assert(b % n == if b < n { b } else { b - n }) by {
        if b < n {
            vstd::arithmetic::div_mod::lemma_small_mod(b as nat, n as nat);
        } else {
            vstd::arithmetic::div_mod::lemma_mod_sub_multiples_vanish(b, n);
            vstd::arithmetic::div_mod::lemma_small_mod((b - n) as nat, n as nat);
        }
    }
}

/// An empty slot stops every probe.
pub proof fn lemma_find_with_room(slots: Seq<Slot>, key: Seq<u8>, e: int)
    requires
        0 <= e < slots.len(),
        slot_empty(slots[e]),
    ensures
        find(slots, key) < slots.len(),
{
    lemma_find_char(slots, key);
    let j = lemma_probe_reaches(key, e, slots.len() as int);
    if find(slots, key) == slots.len() {
        assert(!hit(slots[probe_at(key, j, slots.len() as int)], key));
    }
}

pub proof fn lemma_count_bound(slots: Seq<Slot>)
    ensures
        count_used(slots) <= slots.len(),
    decreases slots.len(),
{
    if slots.len() > 0 {
        lemma_count_bound(slots.drop_last());
    }
}

/// With fewer keys than slots some slot is empty.
pub proof fn lemma_room(slots: Seq<Slot>) -> (e: int)
    requires
        count_used(slots) < slots.len(),
    ensures
        0 <= e < slots.len(),
        slot_empty(slots[e]),
    decreases slots.len(),
{
    if slot_empty(slots.last()) {
        slots.len() - 1
    } else {
        lemma_room(slots.drop_last())
    }
}

pub proof fn lemma_count_update(slots: Seq<Slot>, i: int, s: Slot)
    requires
        0 <= i < slots.len(),
    ensures
        count_used(slots.update(i, s)) == count_used(slots) - (if slot_empty(slots[i]) {
            0int
        } else {
            1int
        }) + (if slot_empty(s) {
            0int
        } else {
            1int
        }),
    decreases slots.len(),
{
    let t = slots.update(i, s);
    if i == slots.len() - 1 {
        assert(t.drop_last() =~= slots.drop_last());
    } else {
        assert(t.drop_last() =~= slots.drop_last().update(i, s));
        lemma_count_update(slots.drop_last(), i, s);
    }
}

/// In a sound table a stored key is the one that probing finds.
pub proof fn lemma_stored_found(slots: Seq<Slot>, i: int)
    requires
        chain_ok(slots),
        0 <= i < slots.len(),
        !slot_empty(slots[i]),
    ensures
        lookup(slots, slots[i].key@) == if slot_dead(slots[i]) {
            None
        } else {
            Some(slots[i].word)
        },
{
    reveal(chain_ok);
}

/// Storing a word where probing for its key stops does not change what is found for
/// another key.
proof fn lemma_put_other(slots: Seq<Slot>, s: Slot, k: Seq<u8>)
    requires
        chain_ok(slots),
        !slot_empty(s),
        find(slots, s.key@) < slots.len(),
        k != s.key@,
    ensures
        ({
            let t = slots.update(find_slot(slots, s.key@), s);
            &&& lookup(t, k) == lookup(slots, k)
            &&& find(slots, k) < slots.len() && !slot_empty(slots[find_slot(slots, k)]) ==> find(
                t,
                k,
            ) == find(slots, k)
        }),
{
    let n = slots.len() as int;
    let p = find_slot(slots, s.key@);
    let t = slots.update(p, s);
    lemma_find_char(slots, s.key@);
    lemma_find_char(slots, k);
    lemma_find_char(t, k);
    let f = find(slots, k);
    assert forall|j: int| 0 <= j < f implies !hit(t[#[trigger] probe_at(k, j, n)], k) by {
        lemma_probe_range(k, j, n);
        assert(!hit(slots[probe_at(k, j, n)], k));
    }
    if f < n && find_slot(slots, k) == p {
        // Probing for `k` used to stop at the empty slot `p`.
        assert(slot_empty(slots[p]));
        if find(t, k) < n {
            let q = find_slot(t, k);
            assert(hit(t[q], k));
            if !slot_empty(t[q]) {
                reveal(chain_ok);
                assert(q != p);
                assert(slots[q].key@ == k);
                assert(find_slot(slots, slots[q].key@) == q);
                assert(false);
            }
        }
    } else {
        lemma_find_unique(t, k, f);
    }
}

/// Storing a word where probing for the key stops changes that key only.
pub proof fn lemma_put(slots: Seq<Slot>, s: Slot)
    requires
        chain_ok(slots),
        !slot_empty(s),
        find(slots, s.key@) < slots.len(),
    ensures
        ({
            let p = find_slot(slots, s.key@);
            let t = slots.update(p, s);
            &&& 0 <= p < slots.len()
            &&& chain_ok(t)
            &&& lookup(t, s.key@) == (if slot_dead(s) {
                None
            } else {
                Some(s.word)
            })
            &&& forall|k: Seq<u8>| k != s.key@ ==> #[trigger] lookup(t, k) == lookup(slots, k)
            &&& count_used(t) == count_used(slots) + (if slot_empty(slots[p]) {
                1int
            } else {
                0int
            })
        }),
{
    reveal(chain_ok);
    let n = slots.len() as int;
    let key = s.key@;
    let p = find_slot(slots, key);
    lemma_find_char(slots, key);
    let t = slots.update(p, s);
    lemma_count_update(slots, p, s);
    // The key itself.
    assert forall|k: int| 0 <= k < find(slots, key) implies !hit(
        t[#[trigger] probe_at(key, k, n)],
        key,
    ) by {
        lemma_probe_range(key, k, n);
        lemma_probe_distinct(key, k, find(slots, key), n);
    }
    lemma_find_unique(t, key, find(slots, key));
    // Every other key.
    assert forall|k: Seq<u8>| k != key implies ({
        &&& #[trigger] lookup(t, k) == lookup(slots, k)
        &&& find(slots, k) < n && !slot_empty(slots[find_slot(slots, k)]) ==> find(t, k) == find(
            slots,
            k,
        )
    }) by {
        lemma_put_other(slots, s, k);
    }
    assert forall|i: int| 0 <= i < n && !slot_empty(#[trigger] t[i]) implies find(t, t[i].key@) < n
        && find_slot(t, t[i].key@) == i by {
        if i != p {
            assert(slots[i] == t[i]);
            let k = slots[i].key@;
            if k == key {
                assert(find_slot(slots, k) == i);
            } else {
                assert(lookup(t, k) == lookup(slots, k));
            }
        }
    }
}

/// Storing a word updates the map at that key.
pub proof fn lemma_put_map(slots: Seq<Slot>, s: Slot)
    requires
        chain_ok(slots),
        !slot_empty(s),
        find(slots, s.key@) < slots.len(),
    ensures
        slots_map(slots.update(find_slot(slots, s.key@), s)) == if slot_dead(s) {
            slots_map(slots).remove(s.key@)
        } else {
            slots_map(slots).insert(s.key@, s.word)
        },
{
    lemma_put(slots, s);
    let t = slots.update(find_slot(slots, s.key@), s);
    let m = if slot_dead(s) {
        slots_map(slots).remove(s.key@)
    } else {
        slots_map(slots).insert(s.key@, s.word)
    };
    assert forall|k: Seq<u8>| #[trigger] slots_map(t).dom().contains(k) == m.dom().contains(k) by {
        if k != s.key@ {
            assert(lookup(t, k) == lookup(slots, k));
        }
    }
    assert forall|k: Seq<u8>| slots_map(t).dom().contains(k) implies #[trigger] slots_map(t)[k]
        == m[k] by {
        if k != s.key@ {
            assert(lookup(t, k) == lookup(slots, k));
        }
    }
    assert(slots_map(t) =~= m);
}

/// Two keys are equal.
pub fn key_eq(a: &ShHeadKey, b: &ShHeadKey) -> (r: bool)
    ensures
        r == (a@ == b@),
{
    let mut i: usize = 0;
    while i < 16
        invariant
            i <= 16,
            forall|j: int| 0 <= j < i ==> a@[j] == b@[j],
        decreases 16 - i,
    {
        if a[i] != b[i] {
            assert(a@[i as int] != b@[i as int]);
            return false;
        }
        i += 1;
    }
    assert(a@ =~= b@);
    true
}

/// The key is all zero.
pub fn key_is_zero(a: &ShHeadKey) -> (r: bool)
    ensures
        r == (a@ == zero_key()),
{
    let z: ShHeadKey = [0u8; 16];
    assert(z@ =~= zero_key());
    key_eq(a, &z)
}

/// Nothing was ever stored in the slot.
pub fn slot_is_empty(s: &Slot) -> (r: bool)
    ensures
        r == slot_empty(*s),
{
    s.word == 0 && key_is_zero(&s.key)
}

/// The slot holds no value.
pub fn slot_is_dead(s: &Slot) -> (r: bool)
    ensures
        r == slot_dead(*s),
{
    s.word == 0 || (s.word == CLEARED_WORD && key_is_zero(&s.key))
}

/// The slot that holds a word for a key.
pub fn slot_of(key: &ShHeadKey, word: u64) -> (r: Slot)
    ensures
        r == slot_for(*key, word),
{
    if word == 0 && key_is_zero(key) {
        Slot { key: *key, word: CLEARED_WORD }
    } else {
        Slot { key: *key, word }
    }
}

/// Where probing for `key` stops (`None` if it goes all the way round).
pub fn find_stop(slots: &Vec<Slot>, key: &ShHeadKey) -> (r: Option<usize>)
    requires
        slots_shape(slots@),
    ensures
        match r {
            Some(i) => find(slots@, key@) < slots@.len() && i == find_slot(slots@, key@) && i
                < slots@.len(),
            None => find(slots@, key@) == slots@.len(),
        },
{
    let n: usize = slots.len();
    let mut slot: usize = primary_slot(key, n as u64) as usize;
    let mut j: usize = 0;
    proof {
        lemma_probe_range(key@, 0, n as int);
        vstd::arithmetic::div_mod::lemma_small_mod(slot as nat, n as nat);
    }
    while j < n
        invariant
            j <= n,
            n == slots@.len(),
            n >= 2,
            slot == probe_at(key@, j as int, n as int),
            slot < n,
            find(slots@, key@) == probe(slots@, key@, j as int),
        decreases n - j,
    {
        if slot_is_empty(&slots[slot]) || key_eq(&slots[slot].key, key) {
            return Some(slot);
        }
        proof {
            lemma_probe_range(key@, 0, n as int);
            lemma_probe_range(key@, j as int, n as int);
            let a = home_slot(key@, n as int) + j;
            lemma_next_mod(a, n as int);
        }
        slot = if slot + 1 == n {
            0
        } else {
            slot + 1
        };
        j += 1;
    }
    None
}

proof fn lemma_next_mod(a: int, n: int)
    requires
        a >= 0,
        n >= 2,
    ensures
        (a + 1) % n == if a % n + 1 == n {
            0
        } else {
            a % n + 1
        },
{
    vstd::arithmetic::div_mod::lemma_fundamental_div_mod(a, n);
    let q = a / n;
    let r = a % n;
    vstd::arithmetic::div_mod::lemma_mod_bound(a, n);
    if r + 1 == n {
        assert(a + 1 == (q + 1) * n + 0) by (nonlinear_arith)
            requires
                a == n * q + r,
                r + 1 == n,
        ;
        vstd::arithmetic::div_mod::lemma_fundamental_div_mod_converse(a + 1, n, q + 1, 0);
    } else {
        assert(a + 1 == q * n + (r + 1)) by (nonlinear_arith)
            requires
                a == n * q + r,
        ;
        vstd::arithmetic::div_mod::lemma_fundamental_div_mod_converse(a + 1, n, q, r + 1);
    }
}

/// Outcome of placing a word.
#[derive(Clone, Copy, Debug, PartialEq, Eq)]
pub enum InsertResult {
    /// Stored; `true` if the slot was empty before.
    Done(bool),
    /// The key is absent and no slot may or can be used for it.
    NeedSlot,
}

/// What placing `s` does to the slots.
pub open spec fn placed(
    old_slots: Seq<Slot>,
    new_slots: Seq<Slot>,
    s: Slot,
    allow_new: bool,
    r: InsertResult,
) -> bool {
    let p = find_slot(old_slots, s.key@);
    if find(old_slots, s.key@) >= old_slots.len() || (slot_empty(old_slots[p]) && !allow_new) {
        r == InsertResult::NeedSlot && new_slots == old_slots
    } else {
        r == InsertResult::Done(slot_empty(old_slots[p])) && new_slots == old_slots.update(p, s)
    }
}

/// Stores a word where probing for its key stops.
pub fn place(slots: &mut Vec<Slot>, key: &ShHeadKey, word: u64, allow_new: bool) -> (r:
    InsertResult)
    requires
        slots_shape(old(slots)@),
    ensures
        placed(old(slots)@, final(slots)@, (Slot { key: *key, word }), allow_new, r),
        final(slots)@.len() == old(slots)@.len(),
{
    match find_stop(slots, key) {
        None => InsertResult::NeedSlot,
        Some(i) => {
            let was_empty: bool = slot_is_empty(&slots[i]);
            if was_empty && !allow_new {
                return InsertResult::NeedSlot;
            }
            slots.set(i, Slot { key: *key, word });
            InsertResult::Done(was_empty)
        },
    }
}

/// A table of empty slots.
pub open spec fn all_empty(slots: Seq<Slot>) -> bool {
    forall|i: int| 0 <= i < slots.len() ==> slot_empty(#[trigger] slots[i])
}

pub proof fn lemma_all_empty(slots: Seq<Slot>)
    requires
        all_empty(slots),
    ensures
        chain_ok(slots),
        count_used(slots) == 0,
        slots_map(slots) == Map::<Seq<u8>, u64>::empty(),
    decreases slots.len(),
{
    reveal(chain_ok);
    if slots.len() > 0 {
        lemma_all_empty(slots.drop_last());
    }
    assert forall|k: Seq<u8>| #[trigger] lookup(slots, k) is None by {
        lemma_find_char(slots, k);
    }
    assert(slots_map(slots) =~= Map::<Seq<u8>, u64>::empty());
}

/// A table without keys has only empty slots.
pub proof fn lemma_none_used(slots: Seq<Slot>)
    requires
        count_used(slots) == 0,
    ensures
        all_empty(slots),
    decreases slots.len(),
{
    if slots.len() > 0 {
        lemma_none_used(slots.drop_last());
        assert forall|i: int| 0 <= i < slots.len() implies slot_empty(#[trigger] slots[i]) by {
            if i < slots.len() - 1 {
                assert(slots.drop_last()[i] == slots[i]);
            }
        }
    }
}

/// `n` empty slots.
pub fn empty_slots(n: usize) -> (r: Vec<Slot>)
    ensures
        r@.len() == n,
        all_empty(r@),
        chain_ok(r@),
        count_used(r@) == 0,
        slots_map(r@) == Map::<Seq<u8>, u64>::empty(),
{
    let z: ShHeadKey = [0u8; 16];
    proof {
        assert(z@ =~= zero_key());
    }
    let mut v: Vec<Slot> = Vec::new();
    let mut i: usize = 0;
    while i < n
        invariant
            i <= n,
            v@.len() == i,
            z@ == zero_key(),
            all_empty(v@),
        decreases n - i,
    {
        v.push(Slot { key: z, word: 0 });
        i += 1;
    }
    proof {
        lemma_all_empty(v@);
    }
    v
}

/// Moves every stored slot into a larger empty table.
pub fn refill(from: &Vec<Slot>, n: usize) -> (r: Vec<Slot>)
    requires
        from@.len() < n,
        n >= 2,
        is_pow2(n as int),
    ensures
        r@.len() == n,
        chain_ok(from@) ==> chain_ok(r@) && slots_map(r@) == slots_map(from@) && count_used(r@)
            == count_used(from@),
        count_used(r@) <= count_used(from@),
        chain_ok(from@) ==> forall|q: int|
            0 <= q < r@.len() && !slot_empty(#[trigger] r@[q]) ==> from@.contains(r@[q]),
        chain_ok(from@) ==> forall|j: int|
            0 <= j < from@.len() && !slot_empty(#[trigger] from@[j]) ==> r@.contains(from@[j]),
{
    let ghost old_slots = from@;
    let mut to = empty_slots(n);
    let mut i: usize = 0;
    proof {
        assert(old_slots.subrange(0, 0) =~= Seq::empty());
        assert(to@.subrange(0, n as int) =~= to@);
    }
    while i < from.len()
        invariant
            i <= from@.len(),
            old_slots == from@,
            from@.len() < n,
            n >= 2,
            is_pow2(n as int),
            to@.len() == n,
            count_used(to@) <= count_used(old_slots.subrange(0, i as int)) <= i,
            chain_ok(old_slots) ==> refilled(old_slots, i as int, to@),
        decreases from@.len() - i,
    {
        let s: Slot = from[i];
        let ghost pre = to@;
        let ghost part = old_slots.subrange(0, i + 1);
        proof {
            assert(part.drop_last() =~= old_slots.subrange(0, i as int));
            assert(part.last() == old_slots[i as int]);
        }
        if !slot_is_empty(&s) {
            proof {
                let e = lemma_room(pre);
                lemma_find_with_room(pre, s.key@, e);
                lemma_find_char(pre, s.key@);
                lemma_count_update(pre, find_slot(pre, s.key@), s);
            }
            let _done = place(&mut to, &s.key, s.word, true);
            proof {
                assert((Slot { key: s.key, word: s.word }) == s);
                if chain_ok(old_slots) {
                    lemma_refill_step(old_slots, i as int, pre);
                }
            }
        } else {
            proof {
                if chain_ok(old_slots) {
                    lemma_refill_skip(old_slots, i as int, pre);
                }
            }
        }
        i += 1;
    }
    proof {
        assert(old_slots.subrange(0, i as int) =~= old_slots);
        if chain_ok(old_slots) {
            lemma_refilled_map(old_slots, to@);
            assert forall|q: int| 0 <= q < to@.len() && !slot_empty(#[trigger] to@[q]) implies old_slots.contains(
                to@[q],
            ) by {
                let j = lemma_holds_at(old_slots, old_slots.len() as int, to@[q]);
                assert(old_slots[j] == to@[q]);
            }
            assert forall|j: int| 0 <= j < old_slots.len() && !slot_empty(
                #[trigger] old_slots[j],
            ) implies to@.contains(old_slots[j]) by {
                let q = lemma_holds_at(to@, to@.len() as int, old_slots[j]);
                assert(to@[q] == old_slots[j]);
            }
        }
    }
    to
}

/// The slot `s` is among the first `i` of `slots`.
#[verifier::opaque]
pub open spec fn holds(slots: Seq<Slot>, i: int, s: Slot) -> bool {
    exists|j: int| 0 <= j < i && #[trigger] slots[j] == s
}

proof fn lemma_holds(slots: Seq<Slot>, i: int, j: int)
    requires
        0 <= j < i,
    ensures
        holds(slots, i, slots[j]),
{
    reveal(holds);
}

proof fn lemma_holds_at(slots: Seq<Slot>, i: int, s: Slot) -> (j: int)
    requires
        holds(slots, i, s),
    ensures
        0 <= j < i,
        slots[j] == s,
{
    reveal(holds);
    choose|j: int| 0 <= j < i && #[trigger] slots[j] == s
}

/// `to` holds exactly the stored slots among the first `i` of `from`.
pub open spec fn refilled(from: Seq<Slot>, i: int, to: Seq<Slot>) -> bool {
    &&& chain_ok(to)
    &&& count_used(to) == count_used(from.subrange(0, i))
    &&& forall|q: int|
        0 <= q < to.len() && !slot_empty(#[trigger] to[q]) ==> holds(from, i, to[q])
    &&& forall|j: int|
        0 <= j < i && !slot_empty(#[trigger] from[j]) ==> holds(to, to.len() as int, from[j])
}

proof fn lemma_refill_skip(from: Seq<Slot>, i: int, to: Seq<Slot>)
    requires
        refilled(from, i, to),
        0 <= i < from.len(),
        slot_empty(from[i]),
        from.subrange(0, i + 1).drop_last() == from.subrange(0, i),
    ensures
        refilled(from, i + 1, to),
{
    assert forall|q: int| 0 <= q < to.len() && !slot_empty(#[trigger] to[q]) implies holds(
        from,
        i + 1,
        to[q],
    ) by {
        let j = lemma_holds_at(from, i, to[q]);
        lemma_holds(from, i + 1, j);
    }
}

proof fn lemma_refill_step(from: Seq<Slot>, i: int, pre: Seq<Slot>)
    requires
        chain_ok(from),
        refilled(from, i, pre),
        0 <= i < from.len(),
        !slot_empty(from[i]),
        find(pre, from[i].key@) < pre.len(),
        from.subrange(0, i + 1).drop_last() == from.subrange(0, i),
    ensures
        refilled(from, i + 1, pre.update(find_slot(pre, from[i].key@), from[i])),
{
    reveal(chain_ok);
    let s = from[i];
    let p = find_slot(pre, s.key@);
    let to = pre.update(p, s);
    lemma_find_char(pre, s.key@);
    lemma_put(pre, s);
    if !slot_empty(pre[p]) {
        let j = lemma_holds_at(from, i, pre[p]);
        assert(find_slot(from, from[j].key@) == j);
        assert(find_slot(from, from[i].key@) == i);
        assert(false);
    }
    assert forall|q: int| 0 <= q < to.len() && !slot_empty(#[trigger] to[q]) implies holds(
        from,
        i + 1,
        to[q],
    ) by {
        if q == p {
            lemma_holds(from, i + 1, i);
        } else {
            assert(to[q] == pre[q]);
            let j = lemma_holds_at(from, i, pre[q]);
            lemma_holds(from, i + 1, j);
        }
    }
    assert forall|j: int| 0 <= j < i + 1 && !slot_empty(#[trigger] from[j]) implies holds(
        to,
        to.len() as int,
        from[j],
    ) by {
        if j == i {
            lemma_holds(to, to.len() as int, p);
        } else {
            let q = lemma_holds_at(pre, pre.len() as int, from[j]);
            assert(to[q] == pre[q]);
            lemma_holds(to, to.len() as int, q);
        }
    }
}

proof fn lemma_refilled_map(from: Seq<Slot>, to: Seq<Slot>)
    requires
        chain_ok(from),
        refilled(from, from.len() as int, to),
    ensures
        slots_map(to) == slots_map(from),
{
    assert forall|k: Seq<u8>| #[trigger] lookup(to, k) == lookup(from, k) by {
        lemma_find_char(from, k);
        lemma_find_char(to, k);
        if lookup(from, k) is Some {
            let i = find_slot(from, k);
            assert(!slot_empty(from[i]));
            let q = lemma_holds_at(to, to.len() as int, from[i]);
            lemma_stored_found(to, q);
        } else if lookup(to, k) is Some {
            let q = find_slot(to, k);
            assert(!slot_empty(to[q]));
            let j = lemma_holds_at(from, from.len() as int, to[q]);
            lemma_stored_found(from, j);
        }
    }
    assert(slots_map(to) =~= slots_map(from));
}

/// Number of slots in use.
pub fn scan_used(slots: &Vec<Slot>) -> (r: usize)
    ensures
        r == count_used(slots@),
{
    let mut n: usize = 0;
    let mut i: usize = 0;
    proof {
        assert(slots@.subrange(0, 0) =~= Seq::empty());
    }
    while i < slots.len()
        invariant
            i <= slots@.len(),
            n == count_used(slots@.subrange(0, i as int)),
            n <= i,
        decreases slots@.len() - i,
    {
        proof {
            let part = slots@.subrange(0, i + 1);
            assert(part.drop_last() =~= slots@.subrange(0, i as int));
        }
        if !slot_is_empty(&slots[i]) {
            n += 1;
        }
        i += 1;
    }
    proof {
        assert(slots@.subrange(0, slots@.len() as int) =~= slots@);
    }
    n
}

} // verus!
