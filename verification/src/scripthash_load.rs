//! Loading of whole record lists into a cold load.

use vstd::prelude::*;
use crate::bytes::bytes_at;
use crate::error::StoreError;
use crate::primitives::Fk;
use crate::scripthash::{asked, ScriptHashRecord, ScriptHashTable};
use crate::scripthash_bulk::{all_keys, all_lists, at_end, chain_loaded, chain_refused, counted, entry_has, entry_list, follows, goes_on, in_order, keys_with, lemma_packed_trans, lemma_push_all, lemma_short_before, lemma_took_more, lemma_took_same, lemma_took_trans, lists_with, loaded, masked, open_len, open_list, packed_frame, push_all, push_refused, pushed, same_frame, session_ok, short, spent, step_room, tallied, took, written_of, ScriptHashBulkSession};
use crate::scripthash_count::tallies;
use crate::scripthash_head::{key16, law_prefix_shard_monotone, prefix_shard};
use crate::scripthash_install::in_ovf;
use crate::scripthash_layout::ShEntry;
use crate::scripthash_stream::open_fks;
use crate::scripthash_values::sat_add;
use crate::sorted_run::lemma_be_first;
use crate::sorting::be_nat;

verus! {

/// The keys rise, and the creates of one key do not fall. Hashes with the same
/// first 16 bytes are equal.
pub open spec fn stream_sorted(recs: Seq<ScriptHashRecord>) -> bool {
    forall|i: int, j: int|
        0 <= i < j < recs.len() ==> be_nat(key16((#[trigger] recs[i]).scripthash@)) < be_nat(
            key16((#[trigger] recs[j]).scripthash@),
        ) || (recs[i].scripthash@ == recs[j].scripthash@ && recs[i].create_tx_fk.0
            <= recs[j].create_tx_fk.0)
}

/// Every record may come next.
pub open spec fn all_follow(
    s: &ScriptHashBulkSession,
    n_shards: int,
    recs: Seq<ScriptHashRecord>,
    from: int,
) -> bool {
    forall|m: int|
        from <= m < recs.len() && (#[trigger] recs[m]).create_tx_fk.0 != 0 ==> follows(
            s,
            n_shards,
            recs[m].scripthash@,
        )
}

/// The creates of the records with this key, in order and without repeats.
pub open spec fn set_list(l: Seq<Fk>, recs: Seq<ScriptHashRecord>, k: Seq<u8>) -> bool {
    &&& forall|i: int, j: int|
        0 <= i < j < l.len() ==> (#[trigger] l[i]).0 < (#[trigger] l[j]).0
    &&& forall|i: int| 0 <= i < l.len() ==> asked(recs, k, (#[trigger] l[i]).0)
    &&& forall|x: u64| #[trigger] asked(recs, k, x) ==> l.contains(Fk(x))
}

/// Some record has this key.
pub open spec fn any_asked(recs: Seq<ScriptHashRecord>, k: Seq<u8>) -> bool {
    exists|x: u64| asked(recs, k, x)
}

/// The records were added to what is loaded, and nothing else. The overflow masks its keys.
pub open spec fn records_loaded(
    a: &ScriptHashBulkSession,
    ta: &ScriptHashTable,
    b: &ScriptHashBulkSession,
    tb: &ScriptHashTable,
    recs: Seq<ScriptHashRecord>,
) -> bool {
    forall|k: Seq<u8>|
        k.len() == 16 ==> if any_asked(recs, k) && !masked(a, ta, k) {
            set_list(#[trigger] loaded(b, tb, k), recs, k)
        } else {
            loaded(b, tb, k) == loaded(a, ta, k)
        }
}

/// Shard of a record.
pub open spec fn shard_of(t: &ScriptHashTable, r: ScriptHashRecord) -> int {
    prefix_shard(r.scripthash@, t.n_shards as int)
}

/// A record of a shard below one that came before.
pub open spec fn shard_falls(
    s: &ScriptHashBulkSession,
    t: &ScriptHashTable,
    recs: Seq<ScriptHashRecord>,
    m: int,
) -> bool {
    ||| s.active_shard is Some && shard_of(t, recs[m]) < s.active_shard->0
    ||| exists|j: int| 0 <= j < m && shard_of(t, recs[m]) < shard_of(t, #[trigger] recs[j])
}

/// A create below one of its key that came before.
pub open spec fn create_falls(
    s: &ScriptHashBulkSession,
    recs: Seq<ScriptHashRecord>,
    m: int,
) -> bool {
    let open = open_list(s, recs[m].scripthash@);
    ||| open.len() > 0 && recs[m].create_tx_fk.0 < open.last().0
    ||| exists|j: int|
        0 <= j < m && (#[trigger] recs[j]).scripthash@ == recs[m].scripthash@
            && recs[m].create_tx_fk.0 < recs[j].create_tx_fk.0
}

/// Why records can be refused.
pub open spec fn records_refused(
    s: &ScriptHashBulkSession,
    t: &ScriptHashTable,
    recs: Seq<ScriptHashRecord>,
    e: StoreError,
) -> bool {
    ||| e == StoreError::Io("scripthash body cannot grow")
    ||| exists|m: int|
        0 <= m < recs.len() && (#[trigger] recs[m]).create_tx_fk.0 != 0 && {
            ||| s.pack_only && s.active_shard != Some(shard_of(t, recs[m]) as usize) && e
                == StoreError::Corrupt("scripthash pack session saw a key for a different shard")
            ||| !s.pack_only && shard_falls(s, t, recs, m) && e == StoreError::Corrupt(
                "scripthash bulk put_chain: keys not sorted by scripthash (shard went backwards)",
            )
            ||| recs[m].create_tx_fk.0 >= 0x8000_0000_0000_0000 && e == StoreError::Corrupt(
                "scripthash: create_fk must be below 2^63",
            )
            ||| create_falls(s, recs, m) && e == StoreError::Corrupt(
                "scripthash bulk stream: create_fk not strictly increasing",
            )
        }
}

/// The active shard is that of the start or of a record before `i`.
spec fn shard_seen(
    s0: &ScriptHashBulkSession,
    t0: &ScriptHashTable,
    s: &ScriptHashBulkSession,
    recs: Seq<ScriptHashRecord>,
    i: int,
) -> bool {
    ||| s.active_shard == s0.active_shard
    ||| exists|j: int|
        0 <= j < i && s.active_shard == Some(shard_of(t0, #[trigger] recs[j]) as usize)
}

/// The last create of a key that is being loaded is that of the start or of a record
/// before `i`.
spec fn last_seen(
    s0: &ScriptHashBulkSession,
    s: &ScriptHashBulkSession,
    recs: Seq<ScriptHashRecord>,
    i: int,
) -> bool {
    forall|h: Seq<u8>|
        (#[trigger] open_list(s, h)).len() > 0 ==> ({
            let x = open_list(s, h).last().0;
            ||| open_list(s0, h).len() > 0 && open_list(s0, h).last().0 == x
            ||| exists|j: int|
                0 <= j < i && (#[trigger] recs[j]).scripthash@ == h && recs[j].create_tx_fk.0 == x
        })
}

/// A record that a later state refuses is refused as seen from the start.
proof fn lemma_refused(
    s0: &ScriptHashBulkSession,
    t0: &ScriptHashTable,
    s: &ScriptHashBulkSession,
    t: &ScriptHashTable,
    recs: Seq<ScriptHashRecord>,
    i: int,
    e: StoreError,
)
    requires
        0 <= i < recs.len(),
        t0.wf(),
        same_frame(t0, t),
        s.pack_only == s0.pack_only,
        s0.pack_only ==> s.active_shard == s0.active_shard,
        shard_seen(s0, t0, s, recs, i),
        last_seen(s0, s, recs, i),
        recs[i].create_tx_fk.0 != 0,
        push_refused(s, t, recs[i].scripthash@, recs[i].create_tx_fk, e),
    ensures
        records_refused(s0, t0, recs, e),
{
    let h = recs[i].scripthash@;
    crate::scripthash_bulk::lemma_shard_range(t0, h);
    if e != StoreError::Io("scripthash body cannot grow") {
        assert(recs[i].create_tx_fk.0 != 0);
        if !s.pack_only && s.active_shard is Some && shard_of(t0, recs[i]) < s.active_shard->0 {
            if s.active_shard != s0.active_shard {
                let j = choose|j: int|
                    0 <= j < i && s.active_shard == Some(shard_of(t0, #[trigger] recs[j]) as usize);
                crate::scripthash_bulk::lemma_shard_range(t0, recs[j].scripthash@);
                assert(shard_of(t0, recs[i]) < shard_of(t0, recs[j]));
            }
            assert(shard_falls(s0, t0, recs, i));
        }
        let l = open_list(s, h);
        if l.len() > 0 && recs[i].create_tx_fk.0 < l.last().0 {
            if !(open_list(s0, h).len() > 0 && open_list(s0, h).last().0 == l.last().0) {
                let j = choose|j: int|
                    0 <= j < i && (#[trigger] recs[j]).scripthash@ == h && recs[j].create_tx_fk.0
                        == l.last().0;
                assert(recs[i].create_tx_fk.0 < recs[j].create_tx_fk.0);
            }
            assert(create_falls(s0, recs, i));
        }
    }
}

/// Some record up to `i` names a create.
spec fn any_rec(recs: Seq<ScriptHashRecord>, i: int) -> bool {
    exists|m: int| 0 <= m < i && (#[trigger] recs[m]).create_tx_fk.0 != 0
}

/// The key that is being loaded is the highest of the records with a create.
spec fn open_is_last(s: &ScriptHashBulkSession, recs: Seq<ScriptHashRecord>, i: int) -> bool {
    if any_rec(recs, i) {
        &&& s.open_key is Some
        &&& s.open_key->0.n_total > 0
        &&& exists|p: int|
            0 <= p < i && (#[trigger] recs[p]).create_tx_fk.0 != 0 && recs[p].scripthash@
                == s.open_key->0.key@
        &&& forall|m: int|
            0 <= m < i && (#[trigger] recs[m]).create_tx_fk.0 != 0 ==> recs[m].scripthash@
                == s.open_key->0.key@ || be_nat(key16(recs[m].scripthash@)) < be_nat(
                key16(s.open_key->0.key@),
            )
    } else {
        s.open_key is None
    }
}

/// What holds after some of the records were loaded.
spec fn load_state(
    s0: &ScriptHashBulkSession,
    t0: &ScriptHashTable,
    s: &ScriptHashBulkSession,
    t: &ScriptHashTable,
    recs: Seq<ScriptHashRecord>,
    i: int,
) -> bool {
    &&& in_order(s, t)
    &&& all_follow(s, t0.n_shards as int, recs, i)
    &&& records_loaded(s0, t0, s, t, recs.subrange(0, i))
    &&& open_is_last(s, recs, i)
    &&& open_gathered(s, recs, i)
}

/// The key that is being loaded has the creates of its records.
spec fn open_gathered(s: &ScriptHashBulkSession, recs: Seq<ScriptHashRecord>, i: int) -> bool {
    any_rec(recs, i) ==> (s.open_key matches Some(o) ==> set_list(
        open_fks(o),
        recs.subrange(0, i),
        key16(o.key@),
    ))
}

pub(crate) proof fn lemma_asked_push(recs: Seq<ScriptHashRecord>, r: ScriptHashRecord, k: Seq<u8>, x: u64)
    ensures
        asked(recs.push(r), k, x) <==> asked(recs, k, x) || (x != 0 && key16(r.scripthash@) == k
            && r.create_tx_fk.0 == x),
{
    let p = recs.push(r);
    if asked(p, k, x) {
        let i = choose|i: int|
            0 <= i < p.len() && key16((#[trigger] p[i]).scripthash@) == k && p[i].create_tx_fk.0
                == x;
        if i < recs.len() {
            assert(recs[i] == p[i]);
        }
    }
    if asked(recs, k, x) {
        let i = choose|i: int|
            0 <= i < recs.len() && key16((#[trigger] recs[i]).scripthash@) == k
                && recs[i].create_tx_fk.0 == x;
        assert(p[i] == recs[i]);
    }
    assert(p[recs.len() as int] == r);
}

/// A list with one more create of its key.
proof fn lemma_set_push(l: Seq<Fk>, recs: Seq<ScriptHashRecord>, r: ScriptHashRecord)
    requires
        r.create_tx_fk.0 != 0,
        any_asked(recs, key16(r.scripthash@)) ==> set_list(l, recs, key16(r.scripthash@)),
        !any_asked(recs, key16(r.scripthash@)) ==> l.len() == 0,
        forall|x: u64| #[trigger]
            asked(recs, key16(r.scripthash@), x) ==> x <= r.create_tx_fk.0,
    ensures
        set_list(pushed(l, r.create_tx_fk), recs.push(r), key16(r.scripthash@)),
{
    let k = key16(r.scripthash@);
    let p = recs.push(r);
    let q = pushed(l, r.create_tx_fk);
    let fk = r.create_tx_fk;
    assert forall|i: int| 0 <= i < q.len() implies asked(p, k, (#[trigger] q[i]).0) by {
        lemma_asked_push(recs, r, k, q[i].0);
        if i < l.len() {
            assert(q[i] == l[i]);
            assert(any_asked(recs, k));
        }
    }
    assert forall|i: int, j: int| 0 <= i < j < q.len() implies (#[trigger] q[i]).0 < (
    #[trigger] q[j]).0 by {
        assert(q[i] == l[i]);
        assert(asked(recs, k, l[i].0));
        if j < l.len() {
            assert(q[j] == l[j]);
        } else {
            assert(l.last() != fk);
            assert(asked(recs, k, l[l.len() - 1].0));
            if i < l.len() - 1 {
                assert(l[i].0 < l[l.len() - 1].0);
            }
        }
    }
    assert forall|x: u64| #[trigger] asked(p, k, x) implies q.contains(Fk(x)) by {
        lemma_asked_push(recs, r, k, x);
        if asked(recs, k, x) {
            assert(l.contains(Fk(x)));
            let i = choose|i: int| 0 <= i < l.len() && l[i] == Fk(x);
            assert(q[i] == Fk(x));
        } else {
            assert(q[q.len() - 1] == fk);
        }
    }
}

/// Keys come in shards that do not fall.
proof fn lemma_shard_order(a: Seq<u8>, b: Seq<u8>, t: &ScriptHashTable)
    requires
        a.len() == 32,
        b.len() == 32,
        be_nat(key16(a)) <= be_nat(key16(b)),
        t.wf(),
    ensures
        prefix_shard(a, t.n_shards as int) <= prefix_shard(b, t.n_shards as int),
        0 <= prefix_shard(b, t.n_shards as int) < t.n_shards,
{
    lemma_be_first(key16(a), key16(b));
    assert(key16(a)[0] == a[0] && key16(b)[0] == b[0]);
    law_prefix_shard_monotone(a, b, t.n_shards as int);
}

impl ScriptHashBulkSession {
    /// Loads records one by one.
    #[verifier::rlimit(40)]
    pub fn push_sorted_records(
        &mut self,
        table: &mut ScriptHashTable,
        recs: &[ScriptHashRecord],
    ) -> (r: Result<(), StoreError>)
        requires
            session_ok(old(self), old(table)),
        ensures
            session_ok(final(self), final(table)),
            same_frame(old(table), final(table)),
            final(self).pack_only == old(self).pack_only,
            final(self).resume_from_shard == old(self).resume_from_shard,
            old(self).pack_only ==> packed_frame(old(self), old(table), final(self), final(table)),
            r is Ok && old(self).pack_only && old(self).resume_from_shard == 0 ==> forall|m: int|
                0 <= m < recs@.len() && (#[trigger] recs@[m]).create_tx_fk.0 != 0
                    ==> old(self).active_shard == Some(
                    prefix_shard(recs@[m].scripthash@, old(table).n_shards as int) as usize,
                ),
            r is Err && in_order(old(self), old(table)) && stream_sorted(recs@) && old(
                self,
            ).open_key is None && all_follow(old(self), old(table).n_shards as int, recs@, 0)
                && fks_below(recs@) ==> r->Err_0
                == StoreError::Io("scripthash body cannot grow"),
            r is Err && r->Err_0 == StoreError::Io("scripthash body cannot grow") ==> at_end(
                final(self),
                final(table),
            ),
            r is Err ==> records_refused(old(self), old(table), recs@, r->Err_0),
            open_len(final(self)) <= open_len(old(self)) + recs@.len(),
            r is Ok ==> took(
                old(self),
                old(table),
                final(self),
                final(table),
                64 * live_recs(recs@, recs@.len() as int),
            ),
            r is Err && r->Err_0 == StoreError::Io("scripthash body cannot grow") ==> short(
                old(self),
                old(table),
                64 * live_recs(recs@, recs@.len() as int) + step_room(),
            ) || open_len(old(self)) + recs@.len() >= usize::MAX,
            live_recs(recs@, recs@.len() as int) == 0 ==> *final(self) == *old(self)
                && *final(table) == *old(table),
            old(self).pack_only && old(self).resume_from_shard == 0 && old(self).open_key is None
                && old(self).lists@.len() == 0 && old(self).recs@.len() == 0 && r is Ok ==> all_lists(final(self)) == gathered(
                recs@,
                recs@.len() as int,
            ) && all_keys(final(self)) == gathered_keys(recs@, recs@.len() as int),
            old(self).pack_only && tallied(old(self)) && r is Ok ==> tallied(final(self)),
            r is Ok && in_order(old(self), old(table)) && stream_sorted(recs@) && old(
                self,
            ).open_key is None && all_follow(old(self), old(table).n_shards as int, recs@, 0)
                ==> in_order(final(self), final(table)) && records_loaded(
                old(self),
                old(table),
                final(self),
                final(table),
                recs@,
            ),
    {
        let ghost s0 = *self;
        let ghost t0 = *table;
        let ghost good = in_order(&s0, &t0) && stream_sorted(recs@) && s0.open_key is None
            && all_follow(&s0, t0.n_shards as int, recs@, 0);
        let mut i: usize = 0;
        proof {
            lemma_took_same(self, table, self, table, 0);
            if s0.open_key is None && s0.lists@.len() == 0 && s0.recs@.len() == 0 {
                assert(all_lists(&s0) =~= Seq::empty());
                assert(all_keys(&s0) =~= Seq::empty());
            }
            if good {
                let e = recs@.subrange(0, 0);
                assert forall|k: Seq<u8>| k.len() == 16 implies if any_asked(e, k) && !masked(
                    &s0,
                    &t0,
                    k,
                ) {
                    set_list(#[trigger] loaded(self, table, k), e, k)
                } else {
                    loaded(self, table, k) == loaded(&s0, &t0, k)
                } by {
                    assert(!any_asked(e, k));
                }
                assert(load_state(&s0, &t0, self, table, recs@, 0));
            }
        }
        while i < recs.len()
            invariant
                i <= recs@.len(),
                s0 == *old(self),
                t0 == *old(table),
                session_ok(&s0, &t0),
                session_ok(self, table),
                same_frame(&t0, table),
                self.pack_only == s0.pack_only,
                self.resume_from_shard == s0.resume_from_shard,
                good == (in_order(&s0, &t0) && stream_sorted(recs@) && s0.open_key is None
                    && all_follow(&s0, t0.n_shards as int, recs@, 0)),
                s0.pack_only ==> packed_frame(&s0, &t0, self, table),
                s0.pack_only && s0.resume_from_shard == 0 ==> forall|m: int|
                    0 <= m < i && (#[trigger] recs@[m]).create_tx_fk.0 != 0 ==> s0.active_shard
                        == Some(
                        prefix_shard(recs@[m].scripthash@, t0.n_shards as int) as usize,
                    ),
                good ==> load_state(&s0, &t0, self, table, recs@, i as int),
                shard_seen(&s0, &t0, self, recs@, i as int),
                last_seen(&s0, self, recs@, i as int),
                open_len(self) <= open_len(&s0) + i,
                took(&s0, &t0, self, table, 64 * live_recs(recs@, i as int)),
                live_recs(recs@, i as int) == 0 ==> *self == s0 && *table == t0,
                s0.pack_only && s0.resume_from_shard == 0 && s0.open_key is None
                    && s0.lists@.len() == 0 && s0.recs@.len() == 0 ==> gathers(self, recs@, i as int),
                s0.pack_only && tallied(&s0) ==> tallied(self),
            decreases recs@.len() - i,
        {
            let ghost s1 = *self;
            let ghost t1 = *table;
            let rec: ScriptHashRecord = recs[i];
            let done = self.push_sorted_fk(table, rec.scripthash, rec.create_tx_fk);
            proof {
                crate::scripthash_bulk::lemma_shard_range(&t0, rec.scripthash@);
                if s0.pack_only {
                    lemma_packed_trans(&s0, &t0, &s1, &t1, self, table);
                }
                let before = live_recs(recs@, i as int);
                if rec.create_tx_fk.0 != 0 {
                    lemma_took_trans(&s0, &t0, &s1, &t1, self, table, 64 * before, 64);
                }
                lemma_live_recs(recs@, i as int, recs@.len() as int);
                lemma_live_recs(recs@, i + 1, recs@.len() as int);
                lemma_live_recs(recs@, 0, i as int);
                if short(&s1, &t1, step_room()) {
                    lemma_short_before(
                        &s0,
                        &t0,
                        &s1,
                        &t1,
                        64 * before,
                        step_room(),
                        64 * live_recs(recs@, recs@.len() as int) + step_room(),
                    );
                }
            }
            match done {
                Ok(_) => {},
                Err(e) => {
                    proof {
                        lemma_refused(&s0, &t0, &s1, &t1, recs@, i as int, e);
                        if good && fks_below(recs@) {
                            lemma_no_refusal(&s0, &t0, &s1, &t1, recs@, i as int, e);
                        }
                    }
                    return Err(e);
                },
            }
            proof {
                assert(recs@.subrange(0, i + 1) =~= recs@.subrange(0, i as int).push(rec));
                lemma_seen_step(&s0, &t0, &s1, self, recs@, i as int);
                if s0.pack_only && s0.resume_from_shard == 0 && s0.open_key is None
                    && s0.lists@.len() == 0 && s0.recs@.len() == 0 && rec.create_tx_fk.0 != 0 {
                    match last_hash(recs@, i as int) {
                        None => {},
                        Some(h) => {
                            assert(goes_on(&s1, h));
                        },
                    }
                    assert(goes_on(&s1, rec.scripthash@) == (last_hash(recs@, i as int) == Some(
                        rec.scripthash@,
                    )));
                }
                if good {
                    if rec.create_tx_fk.0 != 0 {
                        assert(follows(&s1, t0.n_shards as int, recs@[i as int].scripthash@));
                    }
                    lemma_load_step(&s0, &t0, &s1, &t1, self, table, recs@, i as int);
                }
            }
            i += 1;
        }
        proof {
            assert(recs@.subrange(0, i as int) =~= recs@);
        }
        Ok(())
    }
}

/// Number of records with a create among the first `i`.
pub open spec fn live_recs(recs: Seq<ScriptHashRecord>, i: int) -> int
    decreases i,
{
    if i <= 0 {
        0
    } else {
        live_recs(recs, i - 1) + if recs[i - 1].create_tx_fk.0 != 0 {
            1int
        } else {
            0
        }
    }
}

pub(crate) proof fn lemma_live_recs(recs: Seq<ScriptHashRecord>, i: int, j: int)
    requires
        0 <= i <= j,
    ensures
        live_recs(recs, i) <= live_recs(recs, j) <= live_recs(recs, i) + j - i,
    decreases j - i,
{
    if i < j {
        lemma_live_recs(recs, i, j - 1);
    }
}

/// What was seen after one more record.
proof fn lemma_seen_step(
    s0: &ScriptHashBulkSession,
    t0: &ScriptHashTable,
    s1: &ScriptHashBulkSession,
    s2: &ScriptHashBulkSession,
    recs: Seq<ScriptHashRecord>,
    i: int,
)
    requires
        0 <= i < recs.len(),
        shard_seen(s0, t0, s1, recs, i),
        last_seen(s0, s1, recs, i),
        recs[i].create_tx_fk.0 == 0 ==> *s2 == *s1,
        recs[i].create_tx_fk.0 != 0 && shard_of(t0, recs[i]) >= s1.resume_from_shard ==> {
            &&& s2.open_key is Some
            &&& s2.open_key->0.key@ == recs[i].scripthash@
            &&& s2.active_shard == Some(shard_of(t0, recs[i]) as usize)
            &&& open_list(s2, recs[i].scripthash@) == pushed(
                open_list(s1, recs[i].scripthash@),
                recs[i].create_tx_fk,
            )
        },
        recs[i].create_tx_fk.0 != 0 && shard_of(t0, recs[i]) < s1.resume_from_shard ==> {
            &&& s2.open_key is None
            &&& s2.active_shard == s1.active_shard
        },
    ensures
        shard_seen(s0, t0, s2, recs, i + 1),
        last_seen(s0, s2, recs, i + 1),
{
    if s2.active_shard != s0.active_shard {
        if s2.active_shard == s1.active_shard {
            let j = choose|j: int|
                0 <= j < i && s1.active_shard == Some(shard_of(t0, #[trigger] recs[j]) as usize);
            assert(s2.active_shard == Some(shard_of(t0, recs[j]) as usize));
        } else {
            assert(s2.active_shard == Some(shard_of(t0, recs[i]) as usize));
        }
    }
    assert forall|h: Seq<u8>| (#[trigger] open_list(s2, h)).len() > 0 implies ({
        let x = open_list(s2, h).last().0;
        ||| open_list(s0, h).len() > 0 && open_list(s0, h).last().0 == x
        ||| exists|j: int|
            0 <= j < i + 1 && (#[trigger] recs[j]).scripthash@ == h && recs[j].create_tx_fk.0 == x
    }) by {
        if recs[i].create_tx_fk.0 == 0 {
            let x = open_list(s1, h).last().0;
            if !(open_list(s0, h).len() > 0 && open_list(s0, h).last().0 == x) {
                let j = choose|j: int|
                    0 <= j < i && (#[trigger] recs[j]).scripthash@ == h && recs[j].create_tx_fk.0
                        == x;
                assert(recs[j].scripthash@ == h);
            }
        } else {
            assert(recs[i].scripthash@ == h);
        }
    }
}

/// Hash of the last of the first `i` records that names a create.
pub open spec fn last_hash(recs: Seq<ScriptHashRecord>, i: int) -> Option<Seq<u8>>
    decreases i,
{
    if i <= 0 {
        None
    } else if recs[i - 1].create_tx_fk.0 != 0 {
        Some(recs[i - 1].scripthash@)
    } else {
        last_hash(recs, i - 1)
    }
}

/// The creates of the first `i` records, one list for each run of equal hashes.
pub open spec fn gathered(recs: Seq<ScriptHashRecord>, i: int) -> Seq<Seq<Fk>>
    decreases i,
{
    if i <= 0 {
        Seq::empty()
    } else {
        let g = gathered(recs, i - 1);
        let r = recs[i - 1];
        if r.create_tx_fk.0 == 0 {
            g
        } else {
            lists_with(g, last_hash(recs, i - 1) == Some(r.scripthash@), r.create_tx_fk)
        }
    }
}

/// The keys of these lists.
pub open spec fn gathered_keys(recs: Seq<ScriptHashRecord>, i: int) -> Seq<Seq<u8>>
    decreases i,
{
    if i <= 0 {
        Seq::empty()
    } else {
        let g = gathered_keys(recs, i - 1);
        let r = recs[i - 1];
        if r.create_tx_fk.0 == 0 {
            g
        } else {
            keys_with(g, last_hash(recs, i - 1) == Some(r.scripthash@), key16(r.scripthash@))
        }
    }
}

/// The session holds the lists of the first `i` records.
spec fn gathers(s: &ScriptHashBulkSession, recs: Seq<ScriptHashRecord>, i: int) -> bool {
    &&& all_lists(s) == gathered(recs, i)
    &&& all_keys(s) == gathered_keys(recs, i)
    &&& match last_hash(recs, i) {
        None => s.open_key is None,
        Some(h) => goes_on(s, h),
    }
}

/// Every create has a packed form.
pub open spec fn fks_below(recs: Seq<ScriptHashRecord>) -> bool {
    forall|i: int|
        0 <= i < recs.len() ==> (#[trigger] recs[i]).create_tx_fk.0 < 0x8000_0000_0000_0000
}

/// Records in order are refused for want of room only.
proof fn lemma_no_refusal(
    s0: &ScriptHashBulkSession,
    t0: &ScriptHashTable,
    s: &ScriptHashBulkSession,
    t: &ScriptHashTable,
    recs: Seq<ScriptHashRecord>,
    i: int,
    e: StoreError,
)
    requires
        0 <= i < recs.len(),
        stream_sorted(recs),
        session_ok(s0, t0),
        session_ok(s, t),
        same_frame(t0, t),
        load_state(s0, t0, s, t, recs, i),
        fks_below(recs),
        recs[i].create_tx_fk.0 != 0,
        push_refused(s, t, recs[i].scripthash@, recs[i].create_tx_fk, e),
    ensures
        e == StoreError::Io("scripthash body cannot grow"),
{
    let key = recs[i].scripthash@;
    let a = recs.subrange(0, i);
    let l = open_list(s, key);
    assert(follows(s, t0.n_shards as int, recs[i].scripthash@));
    crate::scripthash_bulk::lemma_shard_range(t0, key);
    lemma_open_before(s0, t0, s, t, recs, i);
    if l.len() > 0 {
        assert(any_asked(a, key16(key)));
        assert(asked(a, key16(key), l[l.len() - 1].0));
        let m = choose|m: int|
            0 <= m < a.len() && key16((#[trigger] a[m]).scripthash@) == key16(key)
                && a[m].create_tx_fk.0 == l[l.len() - 1].0;
        assert(a[m] == recs[m]);
        assert(be_nat(key16(recs[m].scripthash@)) == be_nat(key16(recs[i].scripthash@)));
    }
}

proof fn lemma_load_step(
    s0: &ScriptHashBulkSession,
    t0: &ScriptHashTable,
    s1: &ScriptHashBulkSession,
    t1: &ScriptHashTable,
    s2: &ScriptHashBulkSession,
    t2: &ScriptHashTable,
    recs: Seq<ScriptHashRecord>,
    i: int,
)
    requires
        0 <= i < recs.len(),
        stream_sorted(recs),
        t0.wf(),
        s2.open_key matches Some(o) ==> o.n_total == open_fks(o).len(),
        load_state(s0, t0, s1, t1, recs, i),
        same_frame(t0, t1),
        t2.n_shards == t0.n_shards,
        s1.pack_only == s0.pack_only,
        s1.resume_from_shard == s0.resume_from_shard,
        s2.pack_only == s1.pack_only,
        s1.pack_only ==> s2.active_shard == s1.active_shard,
        recs[i].create_tx_fk.0 == 0 ==> *s2 == *s1 && *t2 == *t1,
        recs[i].create_tx_fk.0 != 0 ==> {
            let key = recs[i].scripthash@;
            &&& in_order(s2, t2)
            &&& s2.open_key is Some
            &&& s2.open_key->0.key@ == key
            &&& s2.active_shard == Some(prefix_shard(key, t0.n_shards as int) as usize)
            &&& open_list(s2, key) == pushed(open_list(s1, key), recs[i].create_tx_fk)
            &&& forall|k: Seq<u8>|
                k.len() == 16 ==> #[trigger] loaded(s2, t2, k) == (if k == key16(key) && !masked(
                    s1,
                    t1,
                    k,
                ) {
                    pushed(open_list(s1, key), recs[i].create_tx_fk)
                } else {
                    loaded(s1, t1, k)
                })
        },
    ensures
        load_state(s0, t0, s2, t2, recs, i + 1),
{
    let r = recs[i];
    let key = r.scripthash@;
    let k0 = key16(key);
    let a = recs.subrange(0, i);
    let b = recs.subrange(0, i + 1);
    let n = t0.n_shards as int;
    assert(b =~= a.push(r));
    if r.create_tx_fk.0 == 0 {
        assert forall|k: Seq<u8>, x: u64| #[trigger] asked(b, k, x) == asked(a, k, x) by {
            lemma_asked_push(a, r, k, x);
        }
        assert forall|k: Seq<u8>| k.len() == 16 implies if any_asked(b, k) && !masked(s0, t0, k) {
            set_list(#[trigger] loaded(s2, t2, k), b, k)
        } else {
            loaded(s2, t2, k) == loaded(s0, t0, k)
        } by {
            lemma_same_asked(a, b, k, loaded(s2, t2, k));
        }
        assert(all_follow(s2, n, recs, i + 1));
        if any_rec(recs, i + 1) {
            let m = choose|m: int| 0 <= m < i + 1 && (#[trigger] recs[m]).create_tx_fk.0 != 0;
            assert(m < i);
            assert(any_rec(recs, i));
        }
        if any_rec(recs, i) {
            let m = choose|m: int| 0 <= m < i && (#[trigger] recs[m]).create_tx_fk.0 != 0;
            assert(any_rec(recs, i + 1));
        }
        assert(open_is_last(s2, recs, i + 1));
        if s2.open_key is Some {
            let o = s2.open_key->0;
            lemma_same_asked(a, b, key16(o.key@), open_fks(o));
        }
    } else {
        let l = open_list(s1, key);
        lemma_open_before(s0, t0, s1, t1, recs, i);
        assert forall|x: u64| #[trigger] asked(a, k0, x) implies x <= r.create_tx_fk.0 by {
            let m = choose|m: int|
                0 <= m < a.len() && key16((#[trigger] a[m]).scripthash@) == k0
                    && a[m].create_tx_fk.0 == x;
            assert(a[m] == recs[m]);
            assert(be_nat(key16(recs[m].scripthash@)) == be_nat(key16(recs[i].scripthash@)));
        }
        lemma_set_push(l, a, r);
        assert forall|k: Seq<u8>| k.len() == 16 implies if any_asked(b, k) && !masked(s0, t0, k) {
            set_list(#[trigger] loaded(s2, t2, k), b, k)
        } else {
            loaded(s2, t2, k) == loaded(s0, t0, k)
        } by {
            if k == k0 {
                lemma_asked_push(a, r, k0, r.create_tx_fk.0);
                assert(asked(b, k0, r.create_tx_fk.0));
            } else {
                assert forall|x: u64| #[trigger] asked(b, k, x) == asked(a, k, x) by {
                    lemma_asked_push(a, r, k, x);
                }
                lemma_same_asked(a, b, k, loaded(s1, t1, k));
                assert(loaded(s2, t2, k) == loaded(s1, t1, k));
            }
        }
        assert forall|m: int|
            i + 1 <= m < recs.len() && (#[trigger] recs[m]).create_tx_fk.0 != 0 implies follows(
            s2,
            n,
            recs[m].scripthash@,
        ) by {
            assert(follows(s1, n, recs[m].scripthash@));
            assert(be_nat(key16(recs[i].scripthash@)) < be_nat(key16(recs[m].scripthash@))
                || recs[i].scripthash@ == recs[m].scripthash@);
            lemma_shard_order(key, recs[m].scripthash@, t0);
            lemma_shard_order(key, key, t0);
        }
        assert(open_is_last(s2, recs, i + 1)) by {
            assert(recs[i].create_tx_fk.0 != 0);
            assert(any_rec(recs, i + 1));
            assert(open_fks(s2.open_key->0).len() > 0);
            assert forall|m: int| 0 <= m < i + 1 && (#[trigger] recs[m]).create_tx_fk.0 != 0 implies
                recs[m].scripthash@ == s2.open_key->0.key@ || be_nat(key16(recs[m].scripthash@))
                < be_nat(key16(s2.open_key->0.key@)) by {
                if m < i {
                    assert(be_nat(key16(recs[m].scripthash@)) < be_nat(
                        key16(recs[i].scripthash@),
                    ) || recs[m].scripthash@ == recs[i].scripthash@);
                }
            }
        }
    }
}

/// What was asked for is the same in both lists.
proof fn lemma_same_asked(
    a: Seq<ScriptHashRecord>,
    b: Seq<ScriptHashRecord>,
    k: Seq<u8>,
    l: Seq<Fk>,
)
    requires
        forall|x: u64| #[trigger] asked(b, k, x) == asked(a, k, x),
    ensures
        any_asked(b, k) == any_asked(a, k),
        set_list(l, b, k) == set_list(l, a, k),
{
    if any_asked(a, k) {
        let x = choose|x: u64| asked(a, k, x);
        assert(asked(b, k, x));
    }
    if any_asked(b, k) {
        let x = choose|x: u64| asked(b, k, x);
        assert(asked(a, k, x));
    }
    if set_list(l, a, k) {
        assert forall|i: int| 0 <= i < l.len() implies asked(b, k, (#[trigger] l[i]).0) by {
            assert(asked(a, k, l[i].0));
        }
        assert forall|x: u64| #[trigger] asked(b, k, x) implies l.contains(Fk(x)) by {
            assert(asked(a, k, x));
        }
    }
    if set_list(l, b, k) {
        assert forall|i: int| 0 <= i < l.len() implies asked(a, k, (#[trigger] l[i]).0) by {
            assert(asked(b, k, l[i].0));
        }
        assert forall|x: u64| #[trigger] asked(a, k, x) implies l.contains(Fk(x)) by {
            assert(asked(b, k, x));
        }
    }
}

/// The creates of the next key so far: those of the records before it.
proof fn lemma_open_before(
    s0: &ScriptHashBulkSession,
    t0: &ScriptHashTable,
    s: &ScriptHashBulkSession,
    t: &ScriptHashTable,
    recs: Seq<ScriptHashRecord>,
    i: int,
)
    requires
        0 <= i < recs.len(),
        stream_sorted(recs),
        load_state(s0, t0, s, t, recs, i),
    ensures
        ({
            let key = recs[i].scripthash@;
            let a = recs.subrange(0, i);
            let l = open_list(s, key);
            &&& any_asked(a, key16(key)) ==> set_list(l, a, key16(key))
            &&& !any_asked(a, key16(key)) ==> l.len() == 0
        }),
{
    let key = recs[i].scripthash@;
    let k = key16(key);
    let a = recs.subrange(0, i);
    let l = open_list(s, key);
    if any_asked(a, k) {
        let x = choose|x: u64| asked(a, k, x);
        let m = choose|m: int|
            0 <= m < a.len() && key16((#[trigger] a[m]).scripthash@) == k && a[m].create_tx_fk.0
                == x;
        assert(a[m] == recs[m]);
        assert(recs[m].scripthash@ == key) by {
            assert(be_nat(key16(recs[m].scripthash@)) == be_nat(key16(recs[i].scripthash@)));
        }
        assert(recs[m].create_tx_fk.0 != 0);
        assert(any_rec(recs, i));
        let o = s.open_key->0;
        assert(o.key@ == key || be_nat(k) < be_nat(key16(o.key@)));
        assert(follows(s, t0.n_shards as int, recs[i].scripthash@));
        assert(o.key@ == key);
    } else if s.open_key is Some && s.open_key->0.key@ == key {
        let p = choose|p: int|
            0 <= p < i && (#[trigger] recs[p]).create_tx_fk.0 != 0 && recs[p].scripthash@
                == s.open_key->0.key@;
        assert(a[p] == recs[p]);
        assert(asked(a, k, recs[p].create_tx_fk.0));
    }
}

/// Hashes rise; those with the same first 16 bytes are equal.
pub open spec fn keys_sorted(recs: Seq<ScriptHashRecord>) -> bool {
    forall|i: int, j: int|
        0 <= i < j < recs.len() ==> be_nat(key16((#[trigger] recs[i]).scripthash@)) < be_nat(
            key16((#[trigger] recs[j]).scripthash@),
        ) || recs[i].scripthash@ == recs[j].scripthash@
}

/// The records from `j` to `i` have one hash.
pub open spec fn same_run(recs: Seq<ScriptHashRecord>, j: int, i: int) -> bool {
    0 <= j < i && forall|m: int|
        j <= m < i ==> (#[trigger] recs[m]).scripthash@ == recs[i].scripthash@
}

/// The record names a create that no record before it in its run of equal hashes
/// names.
pub open spec fn fresh_at(recs: Seq<ScriptHashRecord>, i: int) -> bool {
    recs[i].create_tx_fk.0 != 0 && !exists|j: int| #[trigger]
        same_run(recs, j, i) && recs[j].create_tx_fk == recs[i].create_tx_fk
}

/// Number of such records among the first `i`.
pub open spec fn count_fresh(recs: Seq<ScriptHashRecord>, i: int) -> nat
    decreases i,
{
    if i <= 0 {
        0
    } else {
        count_fresh(recs, i - 1) + if fresh_at(recs, i - 1) {
            1nat
        } else {
            0nat
        }
    }
}

/// The records before `i` in its run name no create.
spec fn run_clean(recs: Seq<ScriptHashRecord>, i: int) -> bool {
    forall|j: int| #[trigger] same_run(recs, j, i) ==> recs[j].create_tx_fk.0 == 0
}

/// The run from `i` on, up to `j`, and the creates that it names.
spec fn is_run(recs: Seq<ScriptHashRecord>, i: int, j: int, live: Seq<ShEntry>) -> bool {
    &&& 0 <= i < j <= recs.len()
    &&& forall|m: int| i <= m < j ==> (#[trigger] recs[m]).scripthash@ == recs[i].scripthash@
    &&& forall|x: u64| #[trigger] entry_has(live, x) <==> x != 0 && run_has(recs, i, j, x)
}

spec fn run_has(recs: Seq<ScriptHashRecord>, i: int, j: int, x: u64) -> bool {
    exists|m: int| i <= m < j && (#[trigger] recs[m]).create_tx_fk.0 == x
}

fn entries_have(live: &Vec<ShEntry>, fk: Fk) -> (r: bool)
    ensures
        r == exists|a: int| 0 <= a < live@.len() && (#[trigger] live@[a]).create_tx_fk == fk,
{
    let mut i: usize = 0;
    while i < live.len()
        invariant
            i <= live@.len(),
            forall|a: int| 0 <= a < i ==> (#[trigger] live@[a]).create_tx_fk != fk,
        decreases live@.len() - i,
    {
        if live[i].create_tx_fk.0 == fk.0 {
            assert(live@[i as int].create_tx_fk == fk);
            return true;
        }
        i += 1;
    }
    false
}

fn same_hash(a: &[u8; 32], b: &[u8; 32]) -> (r: bool)
    ensures
        r == (a@ == b@),
{
    proof {
        assert(a@.subrange(0, 32) =~= a@);
    }
    bytes_at(a.as_slice(), 0, b.as_slice())
}

/// The entries name creates, each once.
spec fn each_once(live: Seq<ShEntry>) -> bool {
    &&& forall|a: int| 0 <= a < live.len() ==> (#[trigger] live[a]).create_tx_fk.0 != 0
    &&& forall|a: int, b: int|
        0 <= a < b < live.len() ==> (#[trigger] live[a]).create_tx_fk != (
        #[trigger] live[b]).create_tx_fk
}

/// As many creates as entries that name each once.
proof fn lemma_once_len(live: Seq<ShEntry>, fks: Seq<u64>)
    requires
        each_once(live),
        entry_list(live, fks),
    ensures
        fks.len() == live.len(),
{
    let l = live.map_values(|e: ShEntry| e.create_tx_fk.0);
    assert(l.no_duplicates()) by {
        assert forall|a: int, b: int| 0 <= a < l.len() && 0 <= b < l.len() && a != b implies l[a]
            != l[b] by {
            if a < b {
                assert(live[a].create_tx_fk != live[b].create_tx_fk);
            } else {
                assert(live[b].create_tx_fk != live[a].create_tx_fk);
            }
        }
    }
    assert(fks.no_duplicates()) by {
        assert forall|a: int, b: int| 0 <= a < fks.len() && 0 <= b < fks.len() && a != b implies fks[a]
            != fks[b] by {
            if a < b {
                assert(fks[a] < fks[b]);
            } else {
                assert(fks[b] < fks[a]);
            }
        }
    }
    assert(l.to_set() =~= fks.to_set()) by {
        assert forall|x: u64| l.to_set().contains(x) == fks.to_set().contains(x) by {
            if l.contains(x) {
                let a = choose|a: int| 0 <= a < l.len() && l[a] == x;
                assert(live[a].create_tx_fk.0 == x);
                assert(entry_has(live, x));
                assert(fks.contains(x));
            }
            if fks.contains(x) {
                assert(entry_has(live, x));
                let a = choose|a: int| 0 <= a < live.len() && (#[trigger] live[a]).create_tx_fk.0
                    == x;
                assert(l[a] == x);
            }
        }
    }
    l.unique_seq_to_set();
    fks.unique_seq_to_set();
}

/// The creates of the run from `i` on, each once, and where the run ends.
fn take_run(recs: &[ScriptHashRecord], i: usize) -> (r: (Vec<ShEntry>, usize))
    requires
        i < recs@.len(),
        recs@[i as int].create_tx_fk.0 != 0,
        run_clean(recs@, i as int),
    ensures
        is_run(recs@, i as int, r.1 as int, r.0@),
        r.1 < recs@.len() ==> recs@[r.1 as int].scripthash@ != recs@[i as int].scripthash@,
        r.0@.len() == count_fresh(recs@, r.1 as int) - count_fresh(recs@, i as int),
        0 < r.0@.len() <= r.1 - i,
        each_once(r.0@),
{
    let key: [u8; 32] = recs[i].scripthash;
    let mut live: Vec<ShEntry> = Vec::new();
    let mut j: usize = i;
    while j < recs.len() && same_hash(&recs[j].scripthash, &key)
        invariant
            i <= j <= recs@.len(),
            i < recs@.len(),
            key@ == recs@[i as int].scripthash@,
            recs@[i as int].create_tx_fk.0 != 0,
            run_clean(recs@, i as int),
            forall|m: int| i <= m < j ==> (#[trigger] recs@[m]).scripthash@ == key@,
            forall|x: u64| #[trigger]
                entry_has(live@, x) <==> x != 0 && run_has(recs@, i as int, j as int, x),
            each_once(live@),
            live@.len() == count_fresh(recs@, j as int) - count_fresh(recs@, i as int),
            j > i ==> live@.len() > 0,
            live@.len() <= j - i,
        decreases recs@.len() - j,
    {
        let fk: Fk = recs[j].create_tx_fk;
        let ghost before = live@;
        let seen = entries_have(&live, fk);
        proof {
            lemma_fresh(recs@, i as int, j as int, before);
        }
        if !fk.is_null() && !seen {
            live.push(ShEntry::new(fk));
        }
        proof {
            assert forall|x: u64| #[trigger] entry_has(live@, x) <==> x != 0 && run_has(
                recs@,
                i as int,
                j + 1,
                x,
            ) by {
                lemma_run_grow(recs@, i as int, j as int, before, live@, x);
            }
            if j == i {
                assert(before.len() == 0);
            }
        }
        j += 1;
    }
    (live, j)
}

proof fn lemma_fresh(recs: Seq<ScriptHashRecord>, i: int, j: int, live: Seq<ShEntry>)
    requires
        0 <= i <= j < recs.len(),
        run_clean(recs, i),
        forall|m: int| i <= m <= j ==> (#[trigger] recs[m]).scripthash@ == recs[i].scripthash@,
        forall|x: u64| #[trigger] entry_has(live, x) <==> x != 0 && run_has(recs, i, j, x),
    ensures
        fresh_at(recs, j) <==> recs[j].create_tx_fk.0 != 0 && !(exists|a: int|
            0 <= a < live.len() && (#[trigger] live[a]).create_tx_fk == recs[j].create_tx_fk),
{
    let fk = recs[j].create_tx_fk;
    if fk.0 != 0 {
        if exists|a: int| 0 <= a < live.len() && (#[trigger] live[a]).create_tx_fk == fk {
            let a = choose|a: int| 0 <= a < live.len() && (#[trigger] live[a]).create_tx_fk == fk;
            assert(entry_has(live, fk.0));
            let m = choose|m: int| i <= m < j && (#[trigger] recs[m]).create_tx_fk.0 == fk.0;
            assert(same_run(recs, m, j));
        }
        if exists|m: int| #[trigger] same_run(recs, m, j) && recs[m].create_tx_fk == fk {
            let m = choose|m: int| #[trigger] same_run(recs, m, j) && recs[m].create_tx_fk == fk;
            if m < i {
                assert(same_run(recs, m, i)) by {
                    assert forall|q: int| m <= q < i implies (#[trigger] recs[q]).scripthash@
                        == recs[i].scripthash@ by {
                        assert(recs[q].scripthash@ == recs[j].scripthash@);
                    }
                }
            } else {
                assert(run_has(recs, i, j, fk.0));
                assert(entry_has(live, fk.0));
                let a = choose|a: int|
                    0 <= a < live.len() && (#[trigger] live[a]).create_tx_fk.0 == fk.0;
                assert(live[a].create_tx_fk == fk);
            }
        }
    }
}

proof fn lemma_run_grow(
    recs: Seq<ScriptHashRecord>,
    i: int,
    j: int,
    before: Seq<ShEntry>,
    live: Seq<ShEntry>,
    x: u64,
)
    requires
        0 <= i <= j < recs.len(),
        entry_has(before, x) <==> x != 0 && run_has(recs, i, j, x),
        ({
            let fk = recs[j].create_tx_fk;
            let seen = exists|a: int|
                0 <= a < before.len() && (#[trigger] before[a]).create_tx_fk == fk;
            live == (if fk.0 != 0 && !seen {
                before.push(ShEntry { create_tx_fk: fk })
            } else {
                before
            })
        }),
    ensures
        entry_has(live, x) <==> x != 0 && run_has(recs, i, j + 1, x),
{
    let fk = recs[j].create_tx_fk;
    if entry_has(live, x) {
        let a = choose|a: int| 0 <= a < live.len() && (#[trigger] live[a]).create_tx_fk.0 == x;
        if a < before.len() {
            assert(before[a] == live[a]);
            assert(entry_has(before, x));
            let m = choose|m: int| i <= m < j && (#[trigger] recs[m]).create_tx_fk.0 == x;
            assert(run_has(recs, i, j + 1, x));
        } else {
            assert(recs[j].create_tx_fk.0 == x);
        }
    }
    if x != 0 && run_has(recs, i, j + 1, x) {
        let m = choose|m: int| i <= m < j + 1 && (#[trigger] recs[m]).create_tx_fk.0 == x;
        if m < j {
            assert(run_has(recs, i, j, x));
            let a = choose|a: int|
                0 <= a < before.len() && (#[trigger] before[a]).create_tx_fk.0 == x;
            assert(live[a] == before[a]);
        } else if live.len() > before.len() {
            assert(live[before.len() as int].create_tx_fk.0 == x);
        } else {
            let a = choose|a: int|
                0 <= a < before.len() && (#[trigger] before[a]).create_tx_fk == fk;
            assert(live[a].create_tx_fk.0 == x);
        }
    }
}

/// What holds after the runs before `i` were loaded.
spec fn group_state(
    s0: &ScriptHashBulkSession,
    t0: &ScriptHashTable,
    s: &ScriptHashBulkSession,
    t: &ScriptHashTable,
    recs: Seq<ScriptHashRecord>,
    i: int,
) -> bool {
    &&& in_order(s, t)
    &&& s.open_key is None
    &&& all_follow(s, t0.n_shards as int, recs, i)
    &&& records_loaded(s0, t0, s, t, recs.subrange(0, i))
    &&& forall|m: int, q: int|
        0 <= m < i <= q < recs.len() && (#[trigger] recs[m]).create_tx_fk.0 != 0 ==> be_nat(
            key16(recs[m].scripthash@),
        ) < be_nat(key16((#[trigger] recs[q]).scripthash@))
}

proof fn lemma_group_step(
    s0: &ScriptHashBulkSession,
    t0: &ScriptHashTable,
    s1: &ScriptHashBulkSession,
    t1: &ScriptHashTable,
    s2: &ScriptHashBulkSession,
    t2: &ScriptHashTable,
    recs: Seq<ScriptHashRecord>,
    i: int,
    j: int,
    live: Seq<ShEntry>,
    fks: Seq<u64>,
)
    requires
        keys_sorted(recs),
        session_ok(s0, t0),
        session_ok(s1, t1),
        session_ok(s2, t2),
        same_frame(t0, t1),
        t2.n_shards == t0.n_shards,
        s1.pack_only == s0.pack_only,
        s1.resume_from_shard == s0.resume_from_shard,
        group_state(s0, t0, s1, t1, recs, i),
        is_run(recs, i, j, live),
        j < recs.len() ==> recs[j].scripthash@ != recs[i].scripthash@,
        recs[i].create_tx_fk.0 != 0,
        in_order(s2, t2),
        s2.open_key is None,
        entry_list(live, fks),
        chain_loaded(s1, t1, s2, t2, recs[i].scripthash@, fks),
        forall|m: int|
            0 <= m < s2.recs@.len() ==> be_nat((#[trigger] s2.recs@[m]).key@) <= be_nat(
                key16(recs[i].scripthash@),
            ),
        s2.active_shard matches Some(si) ==> si <= prefix_shard(
            recs[i].scripthash@,
            t0.n_shards as int,
        ),
        s2.active_shard is None ==> s1.active_shard is None && s2.next@ == s1.next@,
        s2.pack_only == s1.pack_only,
        s1.pack_only ==> s2.active_shard == s1.active_shard,
    ensures
        group_state(s0, t0, s2, t2, recs, j),
{
    let key = recs[i].scripthash@;
    let k0 = key16(key);
    let a = recs.subrange(0, i);
    let b = recs.subrange(0, j);
    let n = t0.n_shards as int;
    assert(follows(s1, n, key));
    assert forall|x: u64| #[trigger] asked(b, k0, x) <==> fks.contains(x) by {
        if asked(b, k0, x) {
            let m = choose|m: int|
                0 <= m < b.len() && key16((#[trigger] b[m]).scripthash@) == k0
                    && b[m].create_tx_fk.0 == x;
            assert(b[m] == recs[m]);
            if m < i {
                assert(be_nat(key16(recs[m].scripthash@)) < be_nat(key16(recs[i].scripthash@)));
            }
            assert(run_has(recs, i, j, x));
            assert(entry_has(live, x));
        }
        if fks.contains(x) {
            assert(entry_has(live, x));
            let m = choose|m: int| i <= m < j && (#[trigger] recs[m]).create_tx_fk.0 == x;
            assert(b[m] == recs[m]);
        }
    }
    assert(run_has(recs, i, j, recs[i].create_tx_fk.0));
    assert(entry_has(live, recs[i].create_tx_fk.0));
    assert(fks.contains(recs[i].create_tx_fk.0));
    lemma_push_all(fks);
    let l = fks.map_values(|x: u64| Fk(x));
    assert(open_list(s1, key) =~= Seq::empty());
    assert(set_list(l, b, k0)) by {
        assert forall|p: int| 0 <= p < l.len() implies asked(b, k0, (#[trigger] l[p]).0) by {
            assert(fks.contains(fks[p]));
        }
        assert forall|x: u64| #[trigger] asked(b, k0, x) implies l.contains(Fk(x)) by {
            let p = choose|p: int| 0 <= p < fks.len() && fks[p] == x;
            assert(l[p] == Fk(x));
        }
    }
    assert forall|k: Seq<u8>| k.len() == 16 implies if any_asked(b, k) && !masked(s0, t0, k) {
        set_list(#[trigger] loaded(s2, t2, k), b, k)
    } else {
        loaded(s2, t2, k) == loaded(s0, t0, k)
    } by {
        assert(masked(s1, t1, k) == masked(s0, t0, k));
        if masked(s0, t0, k) {
            assert(loaded(s2, t2, k) == loaded(s1, t1, k));
        } else if k == k0 {
            assert(asked(b, k0, recs[i].create_tx_fk.0));
            assert(loaded(s2, t2, k) == push_all(open_list(s1, key), fks));
        } else {
            assert forall|x: u64| #[trigger] asked(b, k, x) == asked(a, k, x) by {
                if asked(b, k, x) {
                    let m = choose|m: int|
                        0 <= m < b.len() && key16((#[trigger] b[m]).scripthash@) == k
                            && b[m].create_tx_fk.0 == x;
                    assert(b[m] == recs[m]);
                    if m >= i {
                        assert(recs[m].scripthash@ == key);
                    }
                    assert(a[m] == recs[m]);
                }
                if asked(a, k, x) {
                    let m = choose|m: int|
                        0 <= m < a.len() && key16((#[trigger] a[m]).scripthash@) == k
                            && a[m].create_tx_fk.0 == x;
                    assert(b[m] == a[m]);
                }
            }
            lemma_same_asked(a, b, k, loaded(s1, t1, k));
            assert(loaded(s2, t2, k) == loaded(s1, t1, k));
        }
    }
    assert forall|q: int| j <= q < recs.len() implies be_nat(k0) < be_nat(
        key16((#[trigger] recs[q]).scripthash@),
    ) by {
        assert(be_nat(key16(recs[i].scripthash@)) < be_nat(key16(recs[j].scripthash@))
            || recs[i].scripthash@ == recs[j].scripthash@);
        if q > j {
            assert(be_nat(key16(recs[j].scripthash@)) < be_nat(key16(recs[q].scripthash@))
                || recs[j].scripthash@ == recs[q].scripthash@);
        }
    }
    assert forall|m: int|
        j <= m < recs.len() && (#[trigger] recs[m]).create_tx_fk.0 != 0 implies follows(
        s2,
        n,
        recs[m].scripthash@,
    ) by {
        assert(be_nat(k0) < be_nat(key16(recs[m].scripthash@)));
        lemma_shard_order(key, recs[m].scripthash@, t0);
        assert(follows(s1, n, recs[m].scripthash@));
    }
    assert forall|m: int, q: int|
        0 <= m < j <= q < recs.len() && (#[trigger] recs[m]).create_tx_fk.0 != 0 implies be_nat(
        key16(recs[m].scripthash@),
    ) < be_nat(key16((#[trigger] recs[q]).scripthash@)) by {
        assert(be_nat(k0) < be_nat(key16(recs[q].scripthash@)));
        if m >= i {
            assert(recs[m].scripthash@ == key);
        }
    }
}

impl ScriptHashBulkSession {
    /// Loads records whose hashes rise: the creates of each run of equal hashes are
    /// put in order, each once. Gives their number.
    #[verifier::rlimit(40)]
    pub fn put_sorted_creates(
        &mut self,
        table: &mut ScriptHashTable,
        recs: &[ScriptHashRecord],
    ) -> (r: Result<usize, StoreError>)
        requires
            session_ok(old(self), old(table)),
        ensures
            session_ok(final(self), final(table)),
            same_frame(old(table), final(table)),
            final(self).pack_only == old(self).pack_only,
            final(self).resume_from_shard == old(self).resume_from_shard,
            r is Err && in_order(old(self), old(table)) && keys_sorted(recs@) && old(
                self,
            ).open_key is None && all_follow(old(self), old(table).n_shards as int, recs@, 0)
                && fks_below(recs@) ==> r->Err_0
                == StoreError::Io("scripthash body cannot grow"),
            r is Err && r->Err_0 == StoreError::Io("scripthash body cannot grow") ==> at_end(
                final(self),
                final(table),
            ),
            r is Err ==> records_refused(old(self), old(table), recs@, r->Err_0),
            old(self).open_key is None ==> open_len(final(self)) <= recs@.len(),
            spent(old(table), final(table), 2 * recs@.len() as int * 16_740_384),
            r is Ok ==> took(
                old(self),
                old(table),
                final(self),
                final(table),
                64 * recs@.len() as int,
            ),
            r is Err && r->Err_0 == StoreError::Io("scripthash body cannot grow") ==> short(
                old(self),
                old(table),
                64 * recs@.len() as int + step_room(),
            ) || open_len(old(self)) + recs@.len() >= usize::MAX,
            r is Ok ==> r->Ok_0 == count_fresh(recs@, recs@.len() as int),
            r is Ok && old(self).open_key is None ==> final(self).open_key is None,
            r is Ok && in_order(old(self), old(table)) && keys_sorted(recs@) && old(
                self,
            ).open_key is None && all_follow(old(self), old(table).n_shards as int, recs@, 0)
                && tallies(old(self), old(table)) && recs_unmasked(old(table), recs@)
                && written_of(final(self)) < u64::MAX ==> tallies(final(self), final(table)),
            counted(old(self), old(table)) && r is Ok ==> counted(final(self), final(table)),
            r is Ok && old(self).open_key is None && old(self).resume_from_shard == 0 ==> written_of(final(self)) == sat_add(written_of(old(self)), r->Ok_0 as int) && (r->Ok_0 > 0
                ==> final(self).active_shard is Some) && (r->Ok_0 == 0 ==> *final(self) == *old(
                self,
            ) && *final(table) == *old(table)),
            r is Ok && in_order(old(self), old(table)) && keys_sorted(recs@) && old(
                self,
            ).open_key is None && all_follow(old(self), old(table).n_shards as int, recs@, 0)
                ==> in_order(final(self), final(table)) && records_loaded(
                old(self),
                old(table),
                final(self),
                final(table),
                recs@,
            ),
    {
        let ghost s0 = *self;
        let ghost t0 = *table;
        let mut written: usize = 0;
        let mut i: usize = 0;
        proof {
            lemma_runs_start(self, table, recs@);
        }
        while i < recs.len()
            invariant
                i <= recs@.len(),
                s0 == *old(self),
                t0 == *old(table),
                runs_loaded(&s0, &t0, self, table, recs@, i as int, written as int),
            decreases recs@.len() - i,
        {
            if recs[i].create_tx_fk.is_null() {
                proof {
                    lemma_runs_null(&s0, &t0, self, table, recs@, i as int, written as int);
                }
                i += 1;
            } else {
                match self.put_run(table, recs, i, written, Ghost(s0), Ghost(t0)) {
                    Ok((n, j)) => {
                        written = n;
                        i = j;
                    },
                    Err(e) => {
                        return Err(e);
                    },
                }
            }
        }
        proof {
            assert(recs@.subrange(0, i as int) =~= recs@);
        }
        Ok(written)
    }

    /// Loads the run of equal hashes that starts at `i`. Gives the number of creates so far
    /// and the end of the run.
    #[verifier::rlimit(40)]
    fn put_run(
        &mut self,
        table: &mut ScriptHashTable,
        recs: &[ScriptHashRecord],
        i: usize,
        written: usize,
        Ghost(s0): Ghost<ScriptHashBulkSession>,
        Ghost(t0): Ghost<ScriptHashTable>,
    ) -> (r: Result<(usize, usize), StoreError>)
        requires
            i < recs@.len(),
            recs@[i as int].create_tx_fk.0 != 0,
            runs_loaded(&s0, &t0, old(self), old(table), recs@, i as int, written as int),
        ensures
            match r {
                Ok((n, j)) => i < j <= recs@.len() && runs_loaded(
                    &s0,
                    &t0,
                    final(self),
                    final(table),
                    recs@,
                    j as int,
                    n as int,
                ),
                Err(e) => runs_stopped(&s0, &t0, final(self), final(table), recs@, e),
            },
    {
        let ghost s1 = *self;
        let ghost t1 = *table;
        let ghost good = runs_good(&s0, &t0, recs@);
        let key: [u8; 32] = recs[i].scripthash;
        let (live, j) = take_run(recs, i);
        proof {
            lemma_count_bound(recs@, j as int);
            if good {
                assert(follows(&s1, t0.n_shards as int, recs@[i as int].scripthash@));
            }
        }
        let done = self.put_chain(table, key, live.as_slice());
        proof {
            let n = live@.len() as int;
            lemma_took_trans(&s0, &t0, &s1, &t1, self, table, 64 * i, 64 * n);
            lemma_took_more(&s0, &t0, self, table, 64 * i + 64 * n, 64 * j);
            if short(&s1, &t1, 64 * n + step_room()) {
                lemma_short_before(
                    &s0,
                    &t0,
                    &s1,
                    &t1,
                    64 * i,
                    64 * n + step_room(),
                    64 * recs@.len() as int + step_room(),
                );
            }
        }
        match done {
            Ok(_) => {},
            Err(e) => {
                proof {
                    lemma_group_refused(&s0, &t0, &s1, &t1, recs@, i as int, j as int, live@, e);
                    if good && fks_below(recs@) {
                        crate::scripthash_bulk::lemma_shard_range(&t0, key@);
                        assert forall|x: u64| #[trigger] entry_has(live@, x) implies x
                            < 0x8000_0000_0000_0000 by {
                            let m = choose|m: int|
                                i <= m < j && (#[trigger] recs@[m]).create_tx_fk.0 == x;
                            assert(recs@[m].create_tx_fk.0 < 0x8000_0000_0000_0000);
                        }
                    }
                }
                return Err(e);
            },
        }
        proof {
            crate::scripthash_bulk::lemma_shard_range(&t0, key@);
            assert(entry_has(live@, live@[0].create_tx_fk.0));
            if recs_unmasked(&t0, recs@) {
                assert(!in_ovf(&t0, key16(recs@[i as int].scripthash@)));
            }
            if s0.open_key is None {
                lemma_run_counted(
                    live@,
                    written_of(&s1),
                    written_of(self),
                    prefix_shard(key@, t1.n_shards as int) >= s1.resume_from_shard,
                );
            }
            if good {
                let fks = choose|fks: Seq<u64>| #[trigger]
                    entry_list(live@, fks) && chain_loaded(&s1, &t1, self, table, key@, fks);
                lemma_group_step(
                    &s0,
                    &t0,
                    &s1,
                    &t1,
                    self,
                    table,
                    recs@,
                    i as int,
                    j as int,
                    live@,
                    fks,
                );
            }
            lemma_run_seen(&s0, &t0, &s1, self, recs@, i as int, j as int);
            lemma_run_ends(recs@, i as int, j as int);
        }
        Ok((written + live.len(), j))
    }
}

/// The overflow masks no create of the records.
pub open spec fn recs_unmasked(t: &ScriptHashTable, recs: Seq<ScriptHashRecord>) -> bool {
    forall|m: int|
        0 <= m < recs.len() && (#[trigger] recs[m]).create_tx_fk.0 != 0 ==> !in_ovf(
            t,
            key16(recs[m].scripthash@),
        )
}

/// The records can be loaded in order.
spec fn runs_good(s0: &ScriptHashBulkSession, t0: &ScriptHashTable, recs: Seq<ScriptHashRecord>) -> bool {
    in_order(s0, t0) && keys_sorted(recs) && s0.open_key is None && all_follow(
        s0,
        t0.n_shards as int,
        recs,
        0,
    )
}

/// What holds when the runs before `i` were loaded.
spec fn runs_loaded(
    s0: &ScriptHashBulkSession,
    t0: &ScriptHashTable,
    s: &ScriptHashBulkSession,
    t: &ScriptHashTable,
    recs: Seq<ScriptHashRecord>,
    i: int,
    written: int,
) -> bool {
    &&& session_ok(s0, t0)
    &&& session_ok(s, t)
    &&& same_frame(t0, t)
    &&& s.pack_only == s0.pack_only
    &&& s.resume_from_shard == s0.resume_from_shard
    &&& runs_good(s0, t0, recs) ==> group_state(s0, t0, s, t, recs, i)
    &&& i < recs.len() ==> run_clean(recs, i)
    &&& written == count_fresh(recs, i)
    &&& written <= i
    &&& s0.open_key is None ==> s.open_key is None
    &&& shard_seen(s0, t0, s, recs, i)
    &&& s.open_key is None || s.open_key == s0.open_key
    &&& counted(s0, t0) ==> counted(s, t)
    &&& runs_good(s0, t0, recs) && tallies(s0, t0) && recs_unmasked(t0, recs) && written_of(s)
        < u64::MAX ==> tallies(s, t)
    &&& s0.open_key is None && s0.resume_from_shard == 0 ==> written_of(s) == sat_add(
        written_of(s0),
        written,
    )
    &&& s0.resume_from_shard == 0 && written > 0 ==> s.active_shard is Some
    &&& written == 0 ==> *s == *s0 && *t == *t0
    &&& s0.pack_only ==> s.active_shard == s0.active_shard
    &&& spent(t0, t, 2 * i * 16_740_384)
    &&& took(s0, t0, s, t, 64 * i)
}

/// What holds when a run was refused.
spec fn runs_stopped(
    s0: &ScriptHashBulkSession,
    t0: &ScriptHashTable,
    s: &ScriptHashBulkSession,
    t: &ScriptHashTable,
    recs: Seq<ScriptHashRecord>,
    e: StoreError,
) -> bool {
    &&& session_ok(s, t)
    &&& same_frame(t0, t)
    &&& s.pack_only == s0.pack_only
    &&& s.resume_from_shard == s0.resume_from_shard
    &&& runs_good(s0, t0, recs) && fks_below(recs) ==> e
        == StoreError::Io("scripthash body cannot grow")
    &&& e == StoreError::Io("scripthash body cannot grow") ==> at_end(s, t)
    &&& records_refused(s0, t0, recs, e)
    &&& s0.open_key is None ==> open_len(s) <= recs.len()
    &&& spent(t0, t, 2 * recs.len() as int * 16_740_384)
    &&& e == StoreError::Io("scripthash body cannot grow") ==> short(
        s0,
        t0,
        64 * recs.len() as int + step_room(),
    ) || open_len(s0) + recs.len() >= usize::MAX
}

proof fn lemma_runs_start(s: &ScriptHashBulkSession, t: &ScriptHashTable, recs: Seq<ScriptHashRecord>)
    requires
        session_ok(s, t),
    ensures
        runs_loaded(s, t, s, t, recs, 0, 0),
{
    let e = recs.subrange(0, 0);
    lemma_took_same(s, t, s, t, 0);
    if runs_good(s, t, recs) {
        assert forall|k: Seq<u8>| k.len() == 16 implies if any_asked(e, k) && !masked(s, t, k) {
            set_list(#[trigger] loaded(s, t, k), e, k)
        } else {
            loaded(s, t, k) == loaded(s, t, k)
        } by {
            assert(!any_asked(e, k));
        }
        assert(group_state(s, t, s, t, recs, 0));
    }
}

/// A record without a create changes nothing.
proof fn lemma_runs_null(
    s0: &ScriptHashBulkSession,
    t0: &ScriptHashTable,
    s: &ScriptHashBulkSession,
    t: &ScriptHashTable,
    recs: Seq<ScriptHashRecord>,
    i: int,
    written: int,
)
    requires
        0 <= i < recs.len(),
        recs[i].create_tx_fk.0 == 0,
        runs_loaded(s0, t0, s, t, recs, i, written),
    ensures
        runs_loaded(s0, t0, s, t, recs, i + 1, written),
{
    assert(recs.subrange(0, i + 1) =~= recs.subrange(0, i).push(recs[i]));
    lemma_took_more(s0, t0, s, t, 64 * i, 64 * (i + 1));
    if runs_good(s0, t0, recs) {
        lemma_group_null(s0, t0, s, t, recs, i);
    }
    if i + 1 < recs.len() {
        assert forall|j: int| #[trigger] same_run(recs, j, i + 1) implies recs[j].create_tx_fk.0
            == 0 by {
            if j < i {
                assert(recs[i].scripthash@ == recs[i + 1].scripthash@);
                assert(same_run(recs, j, i)) by {
                    assert forall|m: int| j <= m < i implies (#[trigger] recs[m]).scripthash@
                        == recs[i].scripthash@ by {}
                }
            }
        }
    }
    if s.active_shard != s0.active_shard {
        let q = choose|q: int|
            0 <= q < i && s.active_shard == Some(shard_of(t0, #[trigger] recs[q]) as usize);
        assert(0 <= q < i + 1 && s.active_shard == Some(shard_of(t0, recs[q]) as usize));
    }
}

/// A run adds as many creates as it names.
proof fn lemma_run_counted(live: Seq<ShEntry>, before: u64, after: u64, taken: bool)
    requires
        each_once(live),
        exists|fks: Seq<u64>| #[trigger]
            entry_list(live, fks) && after == sat_add(
                before,
                if taken {
                    fks.len() as int
                } else {
                    0
                },
            ),
    ensures
        after == sat_add(
            before,
            if taken {
                live.len() as int
            } else {
                0
            },
        ),
{
    let fks = choose|fks: Seq<u64>| #[trigger]
        entry_list(live, fks) && after == sat_add(
            before,
            if taken {
                fks.len() as int
            } else {
                0
            },
        );
    lemma_once_len(live, fks);
}

/// The active shard after a run.
proof fn lemma_run_seen(
    s0: &ScriptHashBulkSession,
    t0: &ScriptHashTable,
    s1: &ScriptHashBulkSession,
    s2: &ScriptHashBulkSession,
    recs: Seq<ScriptHashRecord>,
    i: int,
    j: int,
)
    requires
        0 <= i < j <= recs.len(),
        shard_seen(s0, t0, s1, recs, i),
        s2.active_shard == s1.active_shard || s2.active_shard == Some(
            shard_of(t0, recs[i]) as usize,
        ),
    ensures
        shard_seen(s0, t0, s2, recs, j),
{
    if s2.active_shard == s1.active_shard && s2.active_shard != s0.active_shard {
        let q = choose|q: int|
            0 <= q < i && s1.active_shard == Some(shard_of(t0, #[trigger] recs[q]) as usize);
        assert(s2.active_shard == Some(shard_of(t0, recs[q]) as usize));
    }
}

/// Behind a run another one begins.
proof fn lemma_run_ends(recs: Seq<ScriptHashRecord>, i: int, j: int)
    requires
        0 <= i < j <= recs.len(),
        forall|m: int| i <= m < j ==> (#[trigger] recs[m]).scripthash@ == recs[i].scripthash@,
        j < recs.len() ==> recs[j].scripthash@ != recs[i].scripthash@,
    ensures
        j < recs.len() ==> run_clean(recs, j),
{
    if j < recs.len() {
        assert forall|q: int| #[trigger] same_run(recs, q, j) implies recs[q].create_tx_fk.0
            == 0 by {
            assert(recs[j - 1].scripthash@ == recs[j].scripthash@);
        }
    }
}

/// A run that is refused is refused as seen from the start.
proof fn lemma_group_refused(
    s0: &ScriptHashBulkSession,
    t0: &ScriptHashTable,
    s: &ScriptHashBulkSession,
    t: &ScriptHashTable,
    recs: Seq<ScriptHashRecord>,
    i: int,
    j: int,
    live: Seq<ShEntry>,
    e: StoreError,
)
    requires
        t0.wf(),
        same_frame(t0, t),
        s.pack_only == s0.pack_only,
        s0.pack_only ==> s.active_shard == s0.active_shard,
        s.open_key is None || s.open_key == s0.open_key,
        shard_seen(s0, t0, s, recs, i),
        is_run(recs, i, j, live),
        recs[i].create_tx_fk.0 != 0,
        chain_refused(s, t, recs[i].scripthash@, live, e),
    ensures
        records_refused(s0, t0, recs, e),
{
    let h = recs[i].scripthash@;
    crate::scripthash_bulk::lemma_shard_range(t0, h);
    if e != StoreError::Io("scripthash body cannot grow") {
        assert(recs[i].create_tx_fk.0 != 0);
        if !s.pack_only && s.active_shard is Some && shard_of(t0, recs[i]) < s.active_shard->0 {
            if s.active_shard != s0.active_shard {
                let q = choose|q: int|
                    0 <= q < i && s.active_shard == Some(shard_of(t0, #[trigger] recs[q]) as usize);
                crate::scripthash_bulk::lemma_shard_range(t0, recs[q].scripthash@);
                assert(shard_of(t0, recs[i]) < shard_of(t0, recs[q]));
            }
            assert(shard_falls(s0, t0, recs, i));
        }
        if e == StoreError::Corrupt("scripthash: create_fk must be below 2^63") && exists|x: u64|
            #[trigger] entry_has(live, x) && x >= 0x8000_0000_0000_0000 {
            let x = choose|x: u64| #[trigger] entry_has(live, x) && x >= 0x8000_0000_0000_0000;
            let m = choose|m: int| i <= m < j && (#[trigger] recs[m]).create_tx_fk.0 == x;
            assert(recs[m].create_tx_fk.0 != 0);
        }
        let l = open_list(s, h);
        if l.len() > 0 && exists|x: u64| #[trigger] entry_has(live, x) && x < l.last().0 {
            let x = choose|x: u64| #[trigger] entry_has(live, x) && x < l.last().0;
            let m = choose|m: int| i <= m < j && (#[trigger] recs[m]).create_tx_fk.0 == x;
            assert(recs[m].scripthash@ == h);
            assert(create_falls(s0, recs, m));
            assert(recs[m].create_tx_fk.0 != 0);
        }
    }
}

proof fn lemma_count_bound(recs: Seq<ScriptHashRecord>, i: int)
    requires
        0 <= i,
    ensures
        count_fresh(recs, i) <= i,
    decreases i,
{
    if i > 0 {
        lemma_count_bound(recs, i - 1);
    }
}

proof fn lemma_group_null(
    s0: &ScriptHashBulkSession,
    t0: &ScriptHashTable,
    s: &ScriptHashBulkSession,
    t: &ScriptHashTable,
    recs: Seq<ScriptHashRecord>,
    i: int,
)
    requires
        0 <= i < recs.len(),
        recs[i].create_tx_fk.0 == 0,
        group_state(s0, t0, s, t, recs, i),
    ensures
        group_state(s0, t0, s, t, recs, i + 1),
{
    let a = recs.subrange(0, i);
    let b = recs.subrange(0, i + 1);
    assert(b =~= a.push(recs[i]));
    assert forall|k: Seq<u8>| k.len() == 16 implies if any_asked(b, k) && !masked(s0, t0, k) {
        set_list(#[trigger] loaded(s, t, k), b, k)
    } else {
        loaded(s, t, k) == loaded(s0, t0, k)
    } by {
        assert forall|x: u64| #[trigger] asked(b, k, x) == asked(a, k, x) by {
            lemma_asked_push(a, recs[i], k, x);
        }
        lemma_same_asked(a, b, k, loaded(s, t, k));
    }
}

} // verus!
