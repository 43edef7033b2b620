//! Materialize of the scripthash index from sorted runs, shard by shard.
//!
//! The runs are cut at the shards of their hashes. The records of a shard are merged,
//! packed into the shard's body and sealed, in the order of the shards.

use vstd::prelude::*;
use crate::bytes::{get_u64, u64_at};
use crate::cold_progress::ColdProgress;
use crate::error::StoreError;
use crate::primitives::Fk;
use crate::merge_laws::{law_merge_unique, lemma_merge_len, total_recs};
use crate::run_merge::{cursors_ok, for_each_merged_rec_shard, in_parts, inputs_ok, is_merge, law_merge_distinct, lens_mismatch, part_sorted, parts_sorted, runs_ok, shard_part, shard_parts, Cursor};
use crate::scripthash::{asked, ScriptHashRecord, ScriptHashTable, ShBodyLayout};
use crate::scripthash_body::ShBody;
use crate::scripthash_bulk::{capped, follows, held, in_order, lemma_short_before, list_of, lists_max, loaded, pack_sound, pack_tallied, pending, published_list, rec_keys, recs_rise, same_creates, same_frame, session_ok, short, step_room, sum_lens, took, writes_to, ScriptHashBulkSession, ShShardPack};
use crate::scripthash_count::{counts_exact, lemma_count_load, lemma_unsealed_none, unmasked};
use crate::scripthash_head::{key16, prefix_shard, shard_count_ok};
use crate::scripthash_install::{first_at, in_ovf, installed_first, main_body, same_other_bodies};
use crate::scripthash_load::{all_follow, any_asked, fks_below, gathered, gathered_keys, last_hash, lemma_asked_push, lemma_live_recs, live_recs, records_loaded, set_list, stream_sorted};
use crate::scripthash_totals::{lemma_shard_totals, lemma_totals_none, lemma_totals_step, raised, run_creates, run_keys, shard_has};
use crate::scripthash_values::{sat_add, sat_add_u64};
use crate::slot_table::Slot;
use crate::sorted_run::{law_sorted_run_shards, lemma_rec_bounds, lemma_run_recs, lemma_two_part, rec_rank, rec_shard, recs_of, run_sorted, run_strict, shard_record_starts_many, shards_sorted, SortedRun};
use crate::sorting::{be_nat, lemma_be_injective, sorted_by_rank, Ranked};

verus! {

/// Records between two looks at the clock.
pub const MATERIALIZE_STATUS_CHECK_EVERY: u64 = 65536;

/// Seconds between two status lines.
pub const MATERIALIZE_STATUS_INTERVAL_SECS: u64 = 10;

/// True when a status line is due: the interval is over, and a key was closed or
/// the count of records stands at a stride. `elapsed` is the time since the last
/// line, in any unit.
pub fn materialize_status_should_emit(
    elapsed: Option<u64>,
    interval: u64,
    recs_this_key: u64,
    key_just_closed: bool,
) -> (r: bool)
    ensures
        r == ((elapsed is None || elapsed->0 >= interval) && (key_just_closed || (recs_this_key > 0
            && recs_this_key % 65536 == 0))),
{
    let due = match elapsed {
        None => true,
        Some(t) => t >= interval,
    };
    if !due {
        return false;
    }
    if key_just_closed {
        return true;
    }
    recs_this_key > 0 && recs_this_key % MATERIALIZE_STATUS_CHECK_EVERY == 0
}

/// Creates with those of the key that is being loaded.
pub fn materialize_status_creates(committed: u64, pending_chain: usize) -> (r: u64)
    ensures
        r == sat_add(committed, pending_chain as int),
{
    sat_add_u64(committed, pending_chain as u64)
}

/// Hash and create of a run record.
pub fn decode_sh_run_rec(rec: &[u8]) -> (r: Result<([u8; 32], Fk), StoreError>)
    ensures
        match r {
            Ok(v) => rec@.len() >= 40 && v.0@ == rec@.subrange(0, 32) && v.1.0 == u64_at(rec@, 32),
            Err(e) => rec@.len() < 40 && e == StoreError::Corrupt(
                "sh run short record in shard merge",
            ),
        },
{
    if rec.len() < 40 {
        return Err(StoreError::Corrupt("sh run short record in shard merge"));
    }
    let mut sh: [u8; 32] = [0u8; 32];
    let mut i: usize = 0;
    while i < 32
        invariant
            i <= 32,
            rec@.len() >= 40,
            forall|j: int| 0 <= j < i ==> #[trigger] sh@[j] == rec@[j],
        decreases 32 - i,
    {
        sh[i] = rec[i];
        i += 1;
    }
    proof {
        assert(sh@ =~= rec@.subrange(0, 32));
    }
    Ok((sh, Fk(get_u64(rec, 32))))
}

/// How many workers to start: at most one for each shard, as many as the limit on
/// open files allows (0 for no known limit), and one where all shards share a body.
pub fn resolve_workers(
    requested: usize,
    n_shards: usize,
    n_runs: usize,
    layout: ShBodyLayout,
    soft_limit: u64,
) -> (r: usize)
    ensures
        r == workers_for(
            requested as int,
            n_shards as int,
            n_runs as int,
            layout,
            soft_limit as int,
        ),
        1 <= r,
{
    let n: usize = if n_shards < 1 {
        1
    } else {
        n_shards
    };
    let mut workers: usize = if requested < 1 {
        1
    } else {
        requested
    };
    if workers > n {
        workers = n;
    }
    let k: usize = if n_runs < 1 {
        1
    } else {
        n_runs
    };
    proof {
        assert(0 <= workers as int * k as int <= 0xffff_ffff_ffff_ffff * 0xffff_ffff_ffff_ffff)
            by (nonlinear_arith)
            requires
                0 <= workers as int <= 0xffff_ffff_ffff_ffff,
                0 <= k as int <= 0xffff_ffff_ffff_ffff,
        ;
    }
    let want: u128 = workers as u128 * k as u128 + 64;
    if soft_limit > 0 && (soft_limit as u128) < want {
        let per: u64 = soft_limit / k as u64;
        let mut clamped: u64 = if per < 1 {
            1
        } else {
            per
        };
        if clamped > n as u64 {
            clamped = n as u64;
        }
        if clamped < workers as u64 {
            workers = clamped as usize;
        }
    }
    match layout {
        ShBodyLayout::Shared => 1,
        ShBodyLayout::Sharded => workers,
    }
}

/// The smaller of two numbers.
pub open spec fn least(a: int, b: int) -> int {
    if a < b {
        a
    } else {
        b
    }
}

/// The larger of two numbers.
pub open spec fn most(a: int, b: int) -> int {
    if a > b {
        a
    } else {
        b
    }
}

/// Number of workers.
pub open spec fn workers_for(
    requested: int,
    n_shards: int,
    n_runs: int,
    layout: ShBodyLayout,
    soft_limit: int,
) -> int {
    let n = most(n_shards, 1);
    let w = least(most(requested, 1), n);
    let k = most(n_runs, 1);
    if layout == ShBodyLayout::Shared {
        1
    } else if soft_limit > 0 && soft_limit < w * k + 64 {
        least(w, least(most(soft_limit / k, 1), n))
    } else {
        w
    }
}

/// Totals of a materialize.
#[derive(Debug, Clone, Copy, PartialEq, Eq, Structural)]
pub struct ShShardMaterialize {
    pub creates: u64,
    pub keys: u64,
    pub max_fk: u64,
}

/// Running totals.
#[derive(Debug, Clone, Copy, PartialEq, Eq, Structural)]
pub struct MaterializeState {
    pub bump: u64,
    pub live_creates: u64,
    pub live_keys: u64,
    pub max_fk: u64,
}

/// The records are those of the bytes.
pub open spec fn decoded(recs: Seq<ScriptHashRecord>, out: Seq<u8>, rl: int) -> bool {
    &&& recs.len() == recs_of(out, rl).len()
    &&& forall|i: int|
        0 <= i < recs.len() ==> (#[trigger] recs[i]).scripthash@ == recs_of(out, rl)[i].subrange(
            0,
            32,
        ) && recs[i].create_tx_fk.0 == u64_at(recs_of(out, rl)[i], 32)
}

/// Reads merged records.
fn decode_all(out: &Vec<u8>, rl: usize) -> (r: Result<Vec<ScriptHashRecord>, StoreError>)
    requires
        rl >= 1,
        out@.len() as int % rl as int == 0,
    ensures
        match r {
            Ok(v) => {
                &&& decoded(v@, out@, rl as int)
                &&& rl >= 40 || out@.len() == 0
                &&& v@.len() < usize::MAX
            },
            Err(e) => rl < 40 && out@.len() > 0 && e == StoreError::Corrupt(
                "sh run short record in shard merge",
            ),
        },
{
    let total: usize = out.len();
    let n: usize = total / rl;
    proof {
        assert(n * rl == total) by (nonlinear_arith)
            requires
                n == total as int / rl as int,
                total as int % rl as int == 0,
                rl >= 1,
        ;
    }
    let mut v: Vec<ScriptHashRecord> = Vec::new();
    let mut i: usize = 0;
    while i < n
        invariant
            i <= n,
            n * rl == total,
            total == out@.len(),
            rl >= 1,
            recs_of(out@, rl as int).len() == n,
            v@.len() == i,
            i > 0 ==> rl >= 40,
            forall|j: int|
                0 <= j < i ==> (#[trigger] v@[j]).scripthash@ == recs_of(
                    out@,
                    rl as int,
                )[j].subrange(0, 32) && v@[j].create_tx_fk.0 == u64_at(
                    recs_of(out@, rl as int)[j],
                    32,
                ),
        decreases n - i,
    {
        proof {
            lemma_rec_bounds(total as int, rl as int, i as int, n as int);
        }
        let rec = crate::bytes::copy_range(out.as_slice(), i * rl, i * rl + rl);
        match decode_sh_run_rec(rec.as_slice()) {
            Ok((sh, fk)) => {
                v.push(ScriptHashRecord { scripthash: sh, create_tx_fk: fk });
            },
            Err(e) => {
                return Err(e);
            },
        }
        i += 1;
    }
    proof {
        if n == 0 {
            assert(0 * rl == 0) by (nonlinear_arith);
        }
        if total > 0 {
            assert(total as int / rl as int <= total as int / 2) by (nonlinear_arith)
                requires
                    total > 0,
                    rl >= 40,
            ;
        }
    }
    Ok(v)
}

/// Some run holds this create of this key.
pub open spec fn run_asked(inputs: Seq<SortedRun>, k: Seq<u8>, x: u64) -> bool {
    x != 0 && exists|r: int, i: int|
        0 <= r < inputs.len() && 0 <= i < inputs[r].recs().len() && key16(
            #[trigger] inputs[r].recs()[i],
        ) == k && u64_at(inputs[r].recs()[i], 32) == x
}

/// The creates of a key in all runs, in order and without repeats.
pub open spec fn run_list(l: Seq<Fk>, inputs: Seq<SortedRun>, k: Seq<u8>) -> bool {
    &&& forall|i: int, j: int|
        0 <= i < j < l.len() ==> (#[trigger] l[i]).0 < (#[trigger] l[j]).0
    &&& forall|i: int| 0 <= i < l.len() ==> run_asked(inputs, k, (#[trigger] l[i]).0)
    &&& forall|x: u64| #[trigger] run_asked(inputs, k, x) ==> l.contains(Fk(x))
}

/// Sorted runs of hashes and creates.
pub open spec fn runs_sorted(inputs: Seq<SortedRun>) -> bool {
    forall|r: int|
        0 <= r < inputs.len() ==> (#[trigger] inputs[r]).valid() && inputs[r].head.key_len == 40
            && inputs[r].head.rec_len == 40 && run_sorted(inputs[r].body@, 40, 40)
}

/// Sorted runs; hashes of these shards with the same first 16 bytes are equal.
pub open spec fn runs_ready(inputs: Seq<SortedRun>, n: int, lo: int, hi: int) -> bool {
    &&& runs_sorted(inputs)
    &&& forall|r: int, i: int, q: int, j: int|
        0 <= r < inputs.len() && 0 <= i < inputs[r].recs().len() && 0 <= q < inputs.len() && 0 <= j
            < inputs[q].recs().len() && lo <= rec_shard(inputs[r].recs()[i], n) < hi && key16(
            #[trigger] inputs[r].recs()[i],
        ) == key16(#[trigger] inputs[q].recs()[j]) ==> inputs[r].recs()[i].subrange(0, 32)
            == inputs[q].recs()[j].subrange(0, 32)
}

/// Cuts of the runs at the shards.
pub open spec fn cuts_ok(inputs: Seq<SortedRun>, cuts: Seq<Vec<u64>>, n: int) -> bool {
    &&& cuts.len() == inputs.len()
    &&& forall|k: int|
        #![trigger cuts[k]]
        0 <= k < inputs.len() ==> {
            &&& cuts[k]@.len() == n + 1
            &&& cuts[k]@[0] == 0
            &&& cuts[k]@[n] == inputs[k].head.count
            &&& forall|s: int| 0 <= s <= n ==> (#[trigger] cuts[k]@[s]) <= inputs[k].head.count
            &&& shards_sorted(&inputs[k], n) ==> forall|s: int, i: int|
                0 <= s < n && 0 <= i < inputs[k].recs().len() ==> ((#[trigger] cuts[k]@[s] <= i)
                    <==> rec_shard(#[trigger] inputs[k].recs()[i], n) >= s)
        }
}

/// A smaller number has no larger front.
pub proof fn lemma_be_front(a: Seq<u8>, b: Seq<u8>, n: int)
    requires
        a.len() == b.len(),
        0 <= n <= a.len(),
        be_nat(a) <= be_nat(b),
    ensures
        be_nat(a.subrange(0, n)) <= be_nat(b.subrange(0, n)),
    decreases a.len() - n,
{
    if n == a.len() {
        assert(a.subrange(0, n) =~= a);
        assert(b.subrange(0, n) =~= b);
    } else {
        lemma_be_front(a.drop_last(), b.drop_last(), n);
        assert(a.drop_last().subrange(0, n) =~= a.subrange(0, n));
        assert(b.drop_last().subrange(0, n) =~= b.subrange(0, n));
    }
}

/// A record of a shard lies in the part that the cuts name, and only such records do.
proof fn lemma_part_of_shard(run: SortedRun, starts: Seq<u64>, n: int, shard: int, i: int)
    requires
        run.valid(),
        shards_sorted(&run, n),
        n >= 1,
        0 <= shard < n,
        starts.len() == n + 1,
        starts[n] == run.head.count,
        forall|s: int, i: int|
            0 <= s < n && 0 <= i < run.recs().len() ==> ((#[trigger] starts[s] <= i) <==> rec_shard(
                #[trigger] run.recs()[i],
                n,
            ) >= s),
        0 <= i < run.recs().len(),
        0 <= rec_shard(run.recs()[i], n) < n,
    ensures
        rec_shard(run.recs()[i], n) == shard <==> shard_part(run, starts, shard).pos <= i
            < shard_part(run, starts, shard).end,
{
    lemma_run_recs(&run);
    assert((starts[shard] <= i) <==> rec_shard(run.recs()[i], n) >= shard);
    if shard + 1 < n {
        assert((starts[shard + 1] <= i) <==> rec_shard(run.recs()[i], n) >= shard + 1);
    }
}

/// The merged records of a shard are those of all runs with a hash of the shard.
proof fn lemma_shard_asked(
    inputs: Seq<SortedRun>,
    cuts: Seq<Vec<u64>>,
    n: int,
    shard: int,
    out: Seq<u8>,
    recs: Seq<ScriptHashRecord>,
    k: Seq<u8>,
    x: u64,
)
    requires
        inputs.len() > 0,
        runs_sorted(inputs),
        cuts_ok(inputs, cuts, n),
        shard_count_ok(n),
        n >= 1,
        0 <= shard < n,
        is_merge(inputs, shard_parts(inputs, cuts, shard), 40, 40, out),
        decoded(recs, out, 40),
        k.len() == 16,
        prefix_shard(k, n) == shard,
    ensures
        asked(recs, k, x) <==> run_asked(inputs, k, x),
{
    let from = shard_parts(inputs, cuts, shard);
    lemma_shard_merge(inputs, cuts, n, shard, out);
    let all = recs_of(out, 40);
    if asked(recs, k, x) {
        let i = choose|i: int|
            0 <= i < recs.len() && key16((#[trigger] recs[i]).scripthash@) == k
                && recs[i].create_tx_fk.0 == x;
        assert(all.contains(all[i]));
        let (r, j) = choose|r: int, j: int|
            0 <= r < inputs.len() && from[r].pos <= j < from[r].end && #[trigger] inputs[r].recs()[j]
                == all[i];
        lemma_run_recs(&inputs[r]);
        assert(key16(inputs[r].recs()[j]) =~= key16(recs[i].scripthash@)) by {
            assert(recs[i].scripthash@ == all[i].subrange(0, 32));
            assert(all[i].subrange(0, 32).subrange(0, 16) =~= all[i].subrange(0, 16));
        }
        assert(part_inside(inputs[r], from[r]));
    }
    if run_asked(inputs, k, x) {
        let (r, j) = choose|r: int, j: int|
            0 <= r < inputs.len() && 0 <= j < inputs[r].recs().len() && key16(
                #[trigger] inputs[r].recs()[j],
            ) == k && u64_at(inputs[r].recs()[j], 32) == x;
        let rec = inputs[r].recs()[j];
        lemma_run_recs(&inputs[r]);
        law_sorted_run_shards(&inputs[r], n);
        assert(cuts[r]@.len() == n + 1);
        assert(rec[0] == key16(rec)[0]);
        lemma_part_of_shard(inputs[r], cuts[r]@, n, shard, j);
        assert(from[r].pos <= j < from[r].end);
        assert(in_parts(inputs, from, inputs.len() as int, rec));
        assert(all.contains(rec));
        let i = choose|i: int| 0 <= i < all.len() && all[i] == rec;
        assert(recs[i].scripthash@ == all[i].subrange(0, 32));
        assert(all[i].subrange(0, 32).subrange(0, 16) =~= all[i].subrange(0, 16));
        assert(key16(recs[i].scripthash@) == k);
    }
}

/// The part lies inside the run.
spec fn part_inside(run: SortedRun, c: Cursor) -> bool {
    c.pos <= c.end && c.end <= run.head.count
}

proof fn lemma_shard_merge(
    inputs: Seq<SortedRun>,
    cuts: Seq<Vec<u64>>,
    n: int,
    shard: int,
    out: Seq<u8>,
)
    requires
        runs_sorted(inputs),
        cuts_ok(inputs, cuts, n),
        n >= 1,
        0 <= shard < n,
        is_merge(inputs, shard_parts(inputs, cuts, shard), 40, 40, out),
    ensures
        run_strict(out, 40, 40),
        forall|x: Seq<u8>| #[trigger]
            recs_of(out, 40).contains(x) <==> in_parts(
                inputs,
                shard_parts(inputs, cuts, shard),
                inputs.len() as int,
                x,
            ),
        forall|r: int|
            0 <= r < inputs.len() ==> part_inside(
                inputs[r],
                #[trigger] shard_parts(inputs, cuts, shard)[r],
            ),
{
    let from = shard_parts(inputs, cuts, shard);
    assert forall|r: int| 0 <= r < inputs.len() implies part_inside(inputs[r], #[trigger] from[r]) by {
        assert(from[r] == shard_part(inputs[r], cuts[r]@, shard));
    }
    assert(parts_sorted(inputs, from, 40, 40)) by {
        assert forall|r: int| 0 <= r < inputs.len() implies part_sorted(
            #[trigger] inputs[r],
            from[r],
            40,
            40,
        ) by {
            lemma_run_recs(&inputs[r]);
            assert(part_inside(inputs[r], from[r]));
            assert forall|i: int, j: int| from[r].pos <= i < j < from[r].end implies rec_rank(
                #[trigger] inputs[r].recs()[i],
                40,
                40,
            ) <= rec_rank(#[trigger] inputs[r].recs()[j], 40, 40) by {
                assert(run_sorted(inputs[r].body@, 40, 40));
            }
        }
    }
    assert(cursors_ok(inputs, from)) by {
        assert forall|r: int| 0 <= r < from.len() implies (#[trigger] from[r]).pos <= from[r].end
            <= inputs[r].head.count by {
            assert(part_inside(inputs[r], from[r]));
        }
    }
    assert(runs_ok(inputs, 40, 40));
    law_merge_distinct(inputs, from, 40, out);
}

/// Merged records come in the order of a load.
/// The keys rise, and so do the creates of one key.
spec fn stream_rises(recs: Seq<ScriptHashRecord>) -> bool {
    forall|i: int, j: int|
        0 <= i < j < recs.len() ==> be_nat(key16((#[trigger] recs[i]).scripthash@)) < be_nat(
            key16((#[trigger] recs[j]).scripthash@),
        ) || (recs[i].scripthash@ == recs[j].scripthash@ && recs[i].create_tx_fk.0
            < recs[j].create_tx_fk.0)
}

/// The creates that the first `i` records name.
spec fn named(recs: Seq<ScriptHashRecord>, i: int) -> Set<(Seq<u8>, u64)> {
    Set::new(|p: (Seq<u8>, u64)| asked(recs.subrange(0, i), p.0, p.1))
}

/// Rising records name as many creates as have one.
proof fn lemma_named(recs: Seq<ScriptHashRecord>, i: int)
    requires
        stream_rises(recs),
        0 <= i <= recs.len(),
    ensures
        named(recs, i).finite(),
        named(recs, i).len() == live_recs(recs, i),
    decreases i,
{
    if i == 0 {
        assert(named(recs, 0) =~= Set::<(Seq<u8>, u64)>::empty());
    } else {
        let r = recs[i - 1];
        let a = recs.subrange(0, i - 1);
        lemma_named(recs, i - 1);
        assert(recs.subrange(0, i) =~= a.push(r));
        assert forall|p: (Seq<u8>, u64)| named(recs, i).contains(p) == (named(
            recs,
            i - 1,
        ).contains(p) || (r.create_tx_fk.0 != 0 && p == (
            key16(r.scripthash@),
            r.create_tx_fk.0,
        ))) by {
            lemma_asked_push(a, r, p.0, p.1);
        }
        if r.create_tx_fk.0 == 0 {
            assert(named(recs, i) =~= named(recs, i - 1));
        } else {
            let q = (key16(r.scripthash@), r.create_tx_fk.0);
            if named(recs, i - 1).contains(q) {
                let m = choose|m: int|
                    0 <= m < a.len() && key16((#[trigger] a[m]).scripthash@) == q.0
                        && a[m].create_tx_fk.0 == q.1;
                assert(a[m] == recs[m]);
                assert(be_nat(key16(recs[m].scripthash@)) == be_nat(
                    key16(recs[i - 1].scripthash@),
                ));
            }
            assert(named(recs, i) =~= named(recs, i - 1).insert(q));
        }
    }
}

#[verifier::rlimit(40)]
proof fn lemma_stream_sorted(
    inputs: Seq<SortedRun>,
    cuts: Seq<Vec<u64>>,
    n: int,
    shard: int,
    out: Seq<u8>,
    recs: Seq<ScriptHashRecord>,
)
    requires
        runs_ready(inputs, n, shard, shard + 1),
        cuts_ok(inputs, cuts, n),
        shard_count_ok(n),
        n >= 1,
        0 <= shard < n,
        out.len() as int % 40 == 0,
        is_merge(inputs, shard_parts(inputs, cuts, shard), 40, 40, out),
        decoded(recs, out, 40),
    ensures
        stream_sorted(recs),
        stream_rises(recs),
{
    lemma_shard_merge(inputs, cuts, n, shard, out);
    let all = recs_of(out, 40);
    let from = shard_parts(inputs, cuts, shard);
    assert forall|i: int, j: int| 0 <= i < j < recs.len() implies be_nat(
        key16((#[trigger] recs[i]).scripthash@),
    ) < be_nat(key16((#[trigger] recs[j]).scripthash@)) || (recs[i].scripthash@
        == recs[j].scripthash@ && recs[i].create_tx_fk.0 < recs[j].create_tx_fk.0) by {
        let a = all[i];
        let b = all[j];
        assert(rec_rank(a, 40, 40) < rec_rank(b, 40, 40));
        lemma_rec_bounds(out.len() as int, 40, i, all.len() as int);
        lemma_rec_bounds(out.len() as int, 40, j, all.len() as int);
        let ha = a.subrange(0, 32);
        let hb = b.subrange(0, 32);
        crate::bytes::lemma_le_nat_bound(a.subrange(32, 40));
        crate::bytes::lemma_le_nat_bound(b.subrange(32, 40));
        crate::bytes::lemma_p256_values();
        lemma_two_part(
            be_nat(ha),
            crate::bytes::le_nat(a.subrange(32, 40)),
            be_nat(hb),
            crate::bytes::le_nat(b.subrange(32, 40)),
        );
        lemma_be_front(ha, hb, 16);
        if be_nat(key16(ha)) == be_nat(key16(hb)) {
            lemma_be_injective(key16(ha), key16(hb));
            assert(all.contains(a) && all.contains(b));
            let (r, p) = choose|r: int, p: int|
                0 <= r < inputs.len() && from[r].pos <= p < from[r].end
                    && #[trigger] inputs[r].recs()[p] == a;
            let (q, s) = choose|q: int, s: int|
                0 <= q < inputs.len() && from[q].pos <= s < from[q].end
                    && #[trigger] inputs[q].recs()[s] == b;
            lemma_run_recs(&inputs[r]);
            lemma_run_recs(&inputs[q]);
            assert(part_inside(inputs[r], from[r]));
            assert(part_inside(inputs[q], from[q]));
            assert(ha.subrange(0, 16) =~= a.subrange(0, 16));
            assert(hb.subrange(0, 16) =~= b.subrange(0, 16));
            law_sorted_run_shards(&inputs[r], n);
            assert(cuts[r]@.len() == n + 1);
            crate::scripthash_head::law_prefix_shard_monotone(ha, ha, n);
            assert(ha[0] == a[0]);
            lemma_part_of_shard(inputs[r], cuts[r]@, n, shard, p);
            assert(rec_shard(inputs[r].recs()[p], n) == shard);
            assert(key16(inputs[r].recs()[p]) == key16(inputs[q].recs()[s]));
            assert(ha == hb);
        }
    }
}

/// The creates of the keys of a shard in the packed records are those of the runs.
pub open spec fn pack_of_runs(
    p: &ShShardPack,
    inputs: Seq<SortedRun>,
    n_shards: int,
    shard: int,
) -> bool {
    forall|k: Seq<u8>|
        k.len() == 16 && prefix_shard(k, n_shards) == shard ==> match #[trigger] list_of(
            p.recs@,
            p.lists@,
            k,
        ) {
            Some(l) => run_list(l, inputs, k),
            None => forall|x: u64| !run_asked(inputs, k, x),
        }
}

/// The main shard is not sealed.
pub open spec fn unsealed(t: &ScriptHashTable, shard: int) -> bool {
    t.main@[shard] is None
}

/// What packing a shard leaves as it was.
pub open spec fn pack_frame(a: &ScriptHashTable, b: &ScriptHashTable, shard: int) -> bool {
    &&& same_frame(a, b)
    &&& same_creates(a, b)
    &&& b.main@ == a.main@
}

/// The counter of the shard's body after a pack: that of the pack where each shard has
/// a body, one that grew by it where all share one. The other counters stay.
pub open spec fn shard_counted(
    a: &ScriptHashTable,
    b: &ScriptHashTable,
    shard: int,
    creates: u64,
) -> bool {
    let bi = main_body(a.layout, shard);
    &&& b.bodies@.len() == a.bodies@.len()
    &&& b.bodies@[bi].live_count == (match a.layout {
        ShBodyLayout::Shared => sat_add(a.bodies@[bi].live_count, creates as int),
        ShBodyLayout::Sharded => creates,
    })
    &&& forall|i: int|
        0 <= i < a.bodies@.len() && i != bi ==> (#[trigger] b.bodies@[i]).live_count
            == a.bodies@[i].live_count
}

/// Records of all runs.
pub open spec fn all_recs(inputs: Seq<SortedRun>) -> int {
    total_recs(inputs, inputs.len() as int)
}

/// Some body has no room for this many bytes.
pub open spec fn cramped(t: &ScriptHashTable, room: int) -> bool {
    exists|i: int| 0 <= i < t.bodies@.len() && !(#[trigger] t.bodies@[i]).has_space(room)
}

/// No body grew by more than this many bytes.
pub open spec fn grew_by(a: &ScriptHashTable, b: &ScriptHashTable, room: int) -> bool {
    &&& b.bodies@.len() == a.bodies@.len()
    &&& forall|i: int|
        0 <= i < a.bodies@.len() ==> (#[trigger] b.bodies@[i]).bump <= a.bodies@[i].bump + room
            && b.bodies@[i].bytes@.len() <= a.bodies@[i].bytes@.len() + room
}

/// The shard has no more records than the runs.
proof fn lemma_few_recs(
    inputs: Seq<SortedRun>,
    cuts: Seq<Vec<u64>>,
    shard: int,
    out: Seq<u8>,
    recs: Seq<ScriptHashRecord>,
    rl: int,
)
    requires
        inputs_ok(inputs),
        decoded(recs, out, rl),
        rl >= 1,
        inputs.len() == 0 ==> out.len() == 0,
        inputs.len() > 0 ==> rl == inputs[0].head.rec_len && is_merge(
            inputs,
            shard_parts(inputs, cuts, shard),
            inputs[0].head.key_len as int,
            rl,
            out,
        ),
    ensures
        recs.len() <= all_recs(inputs),
{
    if inputs.len() == 0 {
        crate::sorted_run::lemma_rec_count(0, rl, 0);
        assert(recs_of(out, rl).len() == 0);
    } else {
        let from = shard_parts(inputs, cuts, shard);
        assert forall|r: int| 0 <= r < inputs.len() implies (#[trigger] from[r]).pos <= from[r].end
            <= inputs[r].head.count && inputs[r].valid() by {
            assert(from[r] == shard_part(inputs[r], cuts[r]@, shard));
            assert(inputs[r].valid());
        }
        lemma_merge_len(inputs, from, inputs[0].head.key_len as int, rl, out);
    }
}

/// A pack that is short of room for some records is short of room for more.
proof fn lemma_cramped(
    s: &ScriptHashBulkSession,
    t: &ScriptHashTable,
    shard: int,
    m: int,
    total: int,
)
    requires
        s.open_key is None,
        s.pack_only,
        s.active_shard == Some(shard as usize),
        0 <= shard <= usize::MAX,
        m <= total,
        short(s, t, 64 * m + step_room()),
    ensures
        cramped(t, 64 * total + step_room()),
        !t.bodies@[main_body(t.layout, shard)].has_space(64 * m + step_room()),
{
    reveal(short);
    let i = choose|i: int|
        0 <= i < t.bodies@.len() && writes_to(s, t, i) && !(#[trigger] t.bodies@[i]).has_space(
            held(s) + (64 * m + step_room()),
        );
    assert(!t.bodies@[i].has_space(64 * total + step_room()));
}

/// What a pack takes of the bodies.
proof fn lemma_pack_grew(
    s0: &ScriptHashBulkSession,
    t0: &ScriptHashTable,
    s1: &ScriptHashBulkSession,
    t1: &ScriptHashTable,
    t2: &ScriptHashTable,
    m: int,
    total: int,
)
    requires
        s0.open_key is None,
        took(s0, t0, s1, t1, 64 * m),
        m <= total,
        t2.bodies@.len() == t1.bodies@.len(),
        forall|i: int|
            0 <= i < t1.bodies@.len() ==> (#[trigger] t2.bodies@[i]).bump <= t1.bodies@[i].bump
                + held(s1) && t2.bodies@[i].bytes@.len() <= t1.bodies@[i].bytes@.len() + held(s1),
    ensures
        grew_by(t0, t2, 64 * m),
        grew_by(t0, t2, 64 * total),
{
    reveal(took);
    assert forall|i: int| 0 <= i < t0.bodies@.len() implies (#[trigger] t2.bodies@[i]).bump
        <= t0.bodies@[i].bump + 64 * m && t2.bodies@[i].bytes@.len() <= t0.bodies@[i].bytes@.len()
        + 64 * m by {
        assert(t1.bodies@[i].bump + held(s1) <= t0.bodies@[i].bump + held(s0) + 64 * m);
    }
    assert forall|i: int| 0 <= i < t0.bodies@.len() implies (#[trigger] t2.bodies@[i]).bump
        <= t0.bodies@[i].bump + 64 * total && t2.bodies@[i].bytes@.len()
        <= t0.bodies@[i].bytes@.len() + 64 * total by {}
}

/// Creates that the runs put into a body from these shards.
pub open spec fn body_creates(
    t: &ScriptHashTable,
    inputs: Seq<SortedRun>,
    lo: int,
    hi: int,
    i: int,
) -> int {
    let n = t.n_shards as int;
    match t.layout {
        ShBodyLayout::Shared => run_creates(inputs, n, lo, hi).len() as int,
        ShBodyLayout::Sharded => if lo <= i < hi {
            run_creates(inputs, n, i, i + 1).len() as int
        } else {
            0
        },
    }
}

/// Each body grew by no more than 64 bytes for each create that the runs put into it.
pub open spec fn grew_by_creates(
    a: &ScriptHashTable,
    b: &ScriptHashTable,
    inputs: Seq<SortedRun>,
    lo: int,
    hi: int,
) -> bool {
    &&& b.bodies@.len() == a.bodies@.len()
    &&& forall|i: int|
        0 <= i < a.bodies@.len() ==> (#[trigger] b.bodies@[i]).bump <= a.bodies@[i].bump + 64
            * body_creates(a, inputs, lo, hi, i) && b.bodies@[i].bytes@.len()
            <= a.bodies@[i].bytes@.len() + 64 * body_creates(a, inputs, lo, hi, i)
}

/// Some body has no room for the creates that the runs put into it, 64 bytes for each, and
/// for one more step.
pub open spec fn no_room(
    t: &ScriptHashTable,
    inputs: Seq<SortedRun>,
    lo: int,
    hi: int,
) -> bool {
    exists|i: int|
        0 <= i < t.bodies@.len() && !(#[trigger] t.bodies@[i]).has_space(
            64 * body_creates(t, inputs, lo, hi, i) + step_room(),
        )
}

/// Growth and want of room after one shard more.
proof fn lemma_creates_step(
    t0: &ScriptHashTable,
    t1: &ScriptHashTable,
    inputs: Seq<SortedRun>,
    lo: int,
    shard: int,
)
    requires
        t0.wf(),
        same_frame(t0, t1),
        0 <= lo <= shard < t0.n_shards,
        run_creates(inputs, t0.n_shards as int, lo, shard).finite(),
        run_creates(inputs, t0.n_shards as int, shard, shard + 1).finite(),
        grew_by_creates(t0, t1, inputs, lo, shard),
    ensures
        run_creates(inputs, t0.n_shards as int, lo, shard + 1).finite(),
        run_creates(inputs, t0.n_shards as int, lo, shard + 1).len() == run_creates(
            inputs,
            t0.n_shards as int,
            lo,
            shard,
        ).len() + run_creates(inputs, t0.n_shards as int, shard, shard + 1).len(),
        forall|t2: &ScriptHashTable| #[trigger]
            grew_by_creates(t1, t2, inputs, shard, shard + 1) ==> grew_by_creates(
                t0,
                t2,
                inputs,
                lo,
                shard + 1,
            ),
        no_room(t1, inputs, shard, shard + 1) ==> no_room(t0, inputs, lo, shard + 1),
{
    let n = t0.n_shards as int;
    let a = run_creates(inputs, n, lo, shard);
    let b = run_creates(inputs, n, shard, shard + 1);
    let c = run_creates(inputs, n, lo, shard + 1);
    assert(c =~= a.union(b));
    assert(a.disjoint(b));
    vstd::set_lib::lemma_set_disjoint_lens(a, b);
    assert forall|i: int| 0 <= i < t0.bodies@.len() implies #[trigger] body_creates(
        t0,
        inputs,
        lo,
        shard + 1,
        i,
    ) == body_creates(t0, inputs, lo, shard, i) + body_creates(t1, inputs, shard, shard + 1, i) by {
    }
    assert forall|t2: &ScriptHashTable| #[trigger]
        grew_by_creates(t1, t2, inputs, shard, shard + 1) implies grew_by_creates(
        t0,
        t2,
        inputs,
        lo,
        shard + 1,
    ) by {
        assert forall|i: int| 0 <= i < t0.bodies@.len() implies (#[trigger] t2.bodies@[i]).bump
            <= t0.bodies@[i].bump + 64 * body_creates(t0, inputs, lo, shard + 1, i)
            && t2.bodies@[i].bytes@.len() <= t0.bodies@[i].bytes@.len() + 64 * body_creates(
            t0,
            inputs,
            lo,
            shard + 1,
            i,
        ) by {
            assert(t1.bodies@[i].bump <= t0.bodies@[i].bump + 64 * body_creates(
                t0,
                inputs,
                lo,
                shard,
                i,
            ));
        }
    }
    if no_room(t1, inputs, shard, shard + 1) {
        let i = choose|i: int|
            0 <= i < t1.bodies@.len() && !(#[trigger] t1.bodies@[i]).has_space(
                64 * body_creates(t1, inputs, shard, shard + 1, i) + step_room(),
            );
        assert(t1.bodies@[i].bump <= t0.bodies@[i].bump + 64 * body_creates(
            t0,
            inputs,
            lo,
            shard,
            i,
        ));
        assert(body_creates(t0, inputs, lo, shard + 1, i) == body_creates(t0, inputs, lo, shard, i)
            + body_creates(t1, inputs, shard, shard + 1, i));
        assert(!t0.bodies@[i].has_space(
            64 * body_creates(t0, inputs, lo, shard + 1, i) + step_room(),
        ));
    }
}

/// End of the body of the last of these shards that the runs hold creates of.
pub open spec fn last_bump(
    t: &ScriptHashTable,
    inputs: Seq<SortedRun>,
    lo: int,
    hi: int,
    start: u64,
) -> u64
    decreases hi - lo,
{
    if hi <= lo {
        start
    } else if shard_has(inputs, t.n_shards as int, hi - 1) {
        t.bodies@[main_body(t.layout, hi - 1)].bump
    } else {
        last_bump(t, inputs, lo, hi - 1, start)
    }
}

/// The bodies end where they ended.
pub open spec fn same_bumps(a: &ScriptHashTable, b: &ScriptHashTable) -> bool {
    &&& b.bodies@.len() == a.bodies@.len()
    &&& forall|i: int|
        0 <= i < a.bodies@.len() ==> (#[trigger] b.bodies@[i]).bump == a.bodies@[i].bump
}

proof fn lemma_same_bump(
    a: &ScriptHashTable,
    b: &ScriptHashTable,
    inputs: Seq<SortedRun>,
    lo: int,
    hi: int,
    start: u64,
)
    requires
        a.wf(),
        same_frame(a, b),
        0 <= lo,
        hi <= a.n_shards,
        same_bumps(a, b),
    ensures
        last_bump(b, inputs, lo, hi, start) == last_bump(a, inputs, lo, hi, start),
    decreases hi - lo,
{
    if lo < hi {
        lemma_same_bump(a, b, inputs, lo, hi - 1, start);
        assert(b.bodies@[main_body(a.layout, hi - 1)].bump == a.bodies@[main_body(
            a.layout,
            hi - 1,
        )].bump);
    }
}

/// The bodies after one shard more.
proof fn lemma_grew_step(
    t0: &ScriptHashTable,
    t1: &ScriptHashTable,
    t2: &ScriptHashTable,
    unit: int,
    k: int,
    room: int,
)
    requires
        grew_by(t0, t1, unit * k),
        grew_by(t1, t2, room),
        room <= unit,
    ensures
        grew_by(t0, t2, unit * (k + 1)),
{
    assert(unit * (k + 1) == unit * k + unit) by (nonlinear_arith);
    assert forall|i: int| 0 <= i < t0.bodies@.len() implies (#[trigger] t2.bodies@[i]).bump
        <= t0.bodies@[i].bump + unit * (k + 1) && t2.bodies@[i].bytes@.len()
        <= t0.bodies@[i].bytes@.len() + unit * (k + 1) by {
        assert(t1.bodies@[i].bump <= t0.bodies@[i].bump + unit * k);
    }
}

/// A table that is short of room for one shard more was short of room for all.
proof fn lemma_cramped_before(
    t0: &ScriptHashTable,
    t1: &ScriptHashTable,
    unit: int,
    k: int,
    n: int,
)
    requires
        grew_by(t0, t1, unit * k),
        cramped(t1, unit + step_room()),
        unit >= 0,
        0 <= k < n,
    ensures
        cramped(t0, unit * n + step_room()),
{
    let i = choose|i: int|
        0 <= i < t1.bodies@.len() && !(#[trigger] t1.bodies@[i]).has_space(unit + step_room());
    assert(unit * k + unit <= unit * n) by (nonlinear_arith)
        requires
            unit >= 0,
            k + 1 <= n,
    ;
    assert(!t0.bodies@[i].has_space(unit * n + step_room()));
}

proof fn lemma_all_recs(inputs: Seq<SortedRun>, m: int)
    ensures
        total_recs(inputs, m) >= 0,
    decreases m,
{
    if m > 0 {
        lemma_all_recs(inputs, m - 1);
    }
}

/// Shards from `lo` on that have a body of their own count no create yet.
pub open spec fn uncounted(t: &ScriptHashTable, lo: int) -> bool {
    t.layout is Sharded ==> forall|i: int|
        lo <= i < t.n_shards ==> (#[trigger] t.bodies@[i]).live_count == 0
}

/// The counter of the table after a pack.
proof fn lemma_shard_counted(a: &ScriptHashTable, b: &ScriptHashTable, shard: int, creates: u64)
    requires
        a.wf(),
        0 <= shard < a.n_shards,
        shard_counted(a, b, shard, creates),
        a.layout is Sharded ==> a.bodies@[shard].live_count == 0,
        a.live() + creates <= u64::MAX,
    ensures
        b.live() == a.live() + creates,
{
    let bi = main_body(a.layout, shard);
    lemma_sum_counters(
        b.bodies@,
        a.bodies@.update(bi, b.bodies@[bi]),
    );
    crate::scripthash::lemma_sum_update(a.bodies@, bi, b.bodies@[bi]);
}

/// Equal counters have one sum.
proof fn lemma_sum_counters(a: Seq<ShBody>, b: Seq<ShBody>)
    requires
        a.len() == b.len(),
        forall|i: int| 0 <= i < a.len() ==> (#[trigger] a[i]).live_count == b[i].live_count,
    ensures
        crate::scripthash::sum_live(a) == crate::scripthash::sum_live(b),
    decreases a.len(),
{
    if a.len() > 0 {
        let (x, y) = (a.drop_last(), b.drop_last());
        assert forall|i: int| 0 <= i < x.len() implies (#[trigger] x[i]).live_count
            == y[i].live_count by {
            assert(x[i] == a[i] && y[i] == b[i]);
        }
        assert(a[a.len() - 1].live_count == b[b.len() - 1].live_count);
        lemma_sum_counters(x, y);
    }
}

/// The records of a shard in the runs, merged.
pub open spec fn shard_stream(
    inputs: Seq<SortedRun>,
    cuts: Seq<Vec<u64>>,
    shard: int,
    recs: Seq<ScriptHashRecord>,
) -> bool {
    if inputs.len() == 0 {
        recs.len() == 0
    } else {
        exists|out: Seq<u8>| #[trigger]
            is_merge(inputs, shard_parts(inputs, cuts, shard), 40, 40, out) && out.len() as int % 40
                == 0 && decoded(recs, out, 40)
    }
}

/// The pack holds the creates of the records, one list for each hash, in order.
pub open spec fn pack_holds(p: &ShShardPack, recs: Seq<ScriptHashRecord>) -> bool {
    &&& p.lists@ == gathered(recs, recs.len() as int)
    &&& rec_keys(p.recs@) == gathered_keys(recs, recs.len() as int)
    &&& sorted_by_rank(p.recs@)
}

/// Place of the first of the keys that is `k` (the length if none is).
pub open spec fn key_at(keys: Seq<Seq<u8>>, k: Seq<u8>) -> int
    decreases keys.len(),
{
    if keys.len() == 0 {
        0
    } else {
        let f = key_at(keys.drop_last(), k);
        if f < keys.len() - 1 {
            f
        } else if keys.last() == k {
            keys.len() - 1
        } else {
            keys.len() as int
        }
    }
}

/// The creates of the first hash with these 16 bytes.
pub open spec fn group_list(recs: Seq<ScriptHashRecord>, k: Seq<u8>) -> Seq<Fk> {
    let n = recs.len() as int;
    let f = key_at(gathered_keys(recs, n), k);
    if f < gathered_keys(recs, n).len() {
        gathered(recs, n)[f]
    } else {
        Seq::empty()
    }
}

/// What the records leave in a shard: each key has the creates of the first hash that begins
/// with it. A shard without creates stays, and so do the keys of the overflow.
pub open spec fn shard_by(
    a: &ScriptHashTable,
    b: &ScriptHashTable,
    s: int,
    recs: Seq<ScriptHashRecord>,
) -> bool {
    forall|k: Seq<u8>|
        k.len() == 16 && prefix_shard(k, a.n_shards as int) == s ==> #[trigger] b.creates(k) == (
        if in_ovf(a, k) || gathered(recs, recs.len() as int).len() == 0 {
            a.creates(k)
        } else {
            group_list(recs, k)
        })
}

/// Creates, keys and highest create with the lists of one shard more.
pub open spec fn tally_add(t: (u64, u64, u64), lists: Seq<Seq<Fk>>) -> (u64, u64, u64) {
    (
        sat_add(t.0, capped(sum_lens(lists)) as int),
        sat_add(t.1, lists.len() as int),
        if lists_max(lists) > t.2 {
            lists_max(lists)
        } else {
            t.2
        },
    )
}

/// Running totals as numbers.
pub open spec fn tally_of(st: MaterializeState) -> (u64, u64, u64) {
    (st.live_creates, st.live_keys, st.max_fk)
}

/// The records of a shard in the runs.
pub open spec fn stream_of(inputs: Seq<SortedRun>, n: int, shard: int) -> Seq<ScriptHashRecord> {
    choose|recs: Seq<ScriptHashRecord>| #[trigger] is_stream(inputs, n, shard, recs)
}

pub open spec fn is_stream(
    inputs: Seq<SortedRun>,
    n: int,
    shard: int,
    recs: Seq<ScriptHashRecord>,
) -> bool {
    exists|cuts: Seq<Vec<u64>>| cuts_ok(inputs, cuts, n) && #[trigger]
        shard_stream(inputs, cuts, shard, recs)
}

/// The totals with what the runs hold of the shards from `lo` to `hi`.
pub open spec fn loaded_totals(
    t: (u64, u64, u64),
    inputs: Seq<SortedRun>,
    n: int,
    lo: int,
    hi: int,
) -> (u64, u64, u64)
    decreases hi - lo,
{
    if hi <= lo {
        t
    } else {
        let recs = stream_of(inputs, n, hi - 1);
        tally_add(loaded_totals(t, inputs, n, lo, hi - 1), gathered(recs, recs.len() as int))
    }
}

/// Sorted runs have one set of cuts and one stream for each shard.
pub(crate) proof fn lemma_one_stream(
    inputs: Seq<SortedRun>,
    n: int,
    shard: int,
    c: Seq<Vec<u64>>,
    d: Seq<Vec<u64>>,
    x: Seq<ScriptHashRecord>,
    y: Seq<ScriptHashRecord>,
)
    requires
        runs_sorted(inputs),
        n >= 1,
        shard_count_ok(n),
        0 <= shard < n,
        cuts_ok(inputs, c, n),
        cuts_ok(inputs, d, n),
        shard_stream(inputs, c, shard, x),
        shard_stream(inputs, d, shard, y),
    ensures
        x == y,
{
    if inputs.len() > 0 {
        assert forall|k: int, s: int| 0 <= k < inputs.len() && 0 <= s <= n implies (
        #[trigger] c[k]@[s]) == d[k]@[s] by {
            assert(inputs[k].valid());
            law_sorted_run_shards(&inputs[k], n);
            lemma_run_recs(&inputs[k]);
            assert(c[k]@.len() == n + 1 && d[k]@.len() == n + 1);
            if s < n {
                if c[k]@[s] < d[k]@[s] {
                    let i = c[k]@[s] as int;
                    assert((c[k]@[s] <= i) <==> rec_shard(inputs[k].recs()[i], n) >= s);
                    assert((d[k]@[s] <= i) <==> rec_shard(inputs[k].recs()[i], n) >= s);
                }
                if d[k]@[s] < c[k]@[s] {
                    let i = d[k]@[s] as int;
                    assert((c[k]@[s] <= i) <==> rec_shard(inputs[k].recs()[i], n) >= s);
                    assert((d[k]@[s] <= i) <==> rec_shard(inputs[k].recs()[i], n) >= s);
                }
            }
        }
        let from = shard_parts(inputs, c, shard);
        assert(from =~= shard_parts(inputs, d, shard)) by {
            assert forall|k: int| 0 <= k < inputs.len() implies #[trigger] from[k] == shard_parts(
                inputs,
                d,
                shard,
            )[k] by {
                assert(c[k]@[shard] == d[k]@[shard]);
                assert(c[k]@[shard + 1] == d[k]@[shard + 1]);
            }
        }
        let o = choose|out: Seq<u8>| #[trigger]
            is_merge(inputs, from, 40, 40, out) && out.len() as int % 40 == 0 && decoded(
                x,
                out,
                40,
            );
        let p = choose|out: Seq<u8>| #[trigger]
            is_merge(inputs, from, 40, 40, out) && out.len() as int % 40 == 0 && decoded(
                y,
                out,
                40,
            );
        assert(parts_sorted(inputs, from, 40, 40)) by {
            assert forall|k: int| 0 <= k < inputs.len() implies part_sorted(
                #[trigger] inputs[k],
                from[k],
                40,
                40,
            ) by {
                assert(inputs[k].valid());
                lemma_run_recs(&inputs[k]);
            }
        }
        law_merge_unique(inputs, from, 40, 40, o, p);
        assert forall|i: int| 0 <= i < x.len() implies x[i] == y[i] by {
            assert(x[i].scripthash@ == y[i].scripthash@);
            assert(x[i].scripthash =~= y[i].scripthash);
        }
    }
    assert(x =~= y);
}

/// A stream is the stream.
pub(crate) proof fn lemma_stream_of(
    inputs: Seq<SortedRun>,
    n: int,
    shard: int,
    c: Seq<Vec<u64>>,
    x: Seq<ScriptHashRecord>,
)
    requires
        runs_sorted(inputs),
        n >= 1,
        shard_count_ok(n),
        0 <= shard < n,
        cuts_ok(inputs, c, n),
        shard_stream(inputs, c, shard, x),
    ensures
        x == stream_of(inputs, n, shard),
{
    assert(is_stream(inputs, n, shard, x));
    let y = stream_of(inputs, n, shard);
    assert(is_stream(inputs, n, shard, y));
    let d = choose|cuts: Seq<Vec<u64>>| cuts_ok(inputs, cuts, n) && #[trigger]
        shard_stream(inputs, cuts, shard, y);
    lemma_one_stream(inputs, n, shard, c, d, x, y);
}

/// Keys of a stream do not fall.
spec fn keys_order(recs: Seq<ScriptHashRecord>) -> bool {
    forall|i: int, j: int|
        0 <= i < j < recs.len() ==> be_nat(key16((#[trigger] recs[i]).scripthash@)) <= be_nat(
            key16((#[trigger] recs[j]).scripthash@),
        )
}

/// A merge of sorted runs has its keys in order.
proof fn lemma_keys_order(
    inputs: Seq<SortedRun>,
    cuts: Seq<Vec<u64>>,
    n: int,
    shard: int,
    out: Seq<u8>,
    recs: Seq<ScriptHashRecord>,
)
    requires
        runs_sorted(inputs),
        cuts_ok(inputs, cuts, n),
        shard_count_ok(n),
        n >= 1,
        0 <= shard < n,
        is_merge(inputs, shard_parts(inputs, cuts, shard), 40, 40, out),
        decoded(recs, out, 40),
    ensures
        keys_order(recs),
{
    lemma_shard_merge(inputs, cuts, n, shard, out);
    let all = recs_of(out, 40);
    assert forall|i: int, j: int| 0 <= i < j < recs.len() implies be_nat(
        key16((#[trigger] recs[i]).scripthash@),
    ) <= be_nat(key16((#[trigger] recs[j]).scripthash@)) by {
        let a = all[i];
        let b = all[j];
        assert(rec_rank(a, 40, 40) < rec_rank(b, 40, 40));
        lemma_rec_bounds(out.len() as int, 40, i, all.len() as int);
        lemma_rec_bounds(out.len() as int, 40, j, all.len() as int);
        let ha = a.subrange(0, 32);
        let hb = b.subrange(0, 32);
        crate::bytes::lemma_le_nat_bound(a.subrange(32, 40));
        crate::bytes::lemma_le_nat_bound(b.subrange(32, 40));
        crate::bytes::lemma_p256_values();
        lemma_two_part(
            be_nat(ha),
            crate::bytes::le_nat(a.subrange(32, 40)),
            be_nat(hb),
            crate::bytes::le_nat(b.subrange(32, 40)),
        );
        lemma_be_front(ha, hb, 16);
    }
}

/// The keys of the lists of a stream are in order, one for each list.
proof fn lemma_gathered(recs: Seq<ScriptHashRecord>, i: int)
    requires
        keys_order(recs),
        0 <= i <= recs.len(),
    ensures
        gathered_keys(recs, i).len() == gathered(recs, i).len(),
        last_hash(recs, i) is Some <==> gathered(recs, i).len() > 0,
        forall|a: int, b: int|
            0 <= a < b < gathered_keys(recs, i).len() ==> be_nat(
                #[trigger] gathered_keys(recs, i)[a],
            ) <= be_nat(#[trigger] gathered_keys(recs, i)[b]),
        forall|a: int, m: int|
            0 <= a < gathered_keys(recs, i).len() && i <= m < recs.len() ==> be_nat(
                #[trigger] gathered_keys(recs, i)[a],
            ) <= be_nat(key16((#[trigger] recs[m]).scripthash@)),
    decreases i,
{
    if i > 0 {
        lemma_gathered(recs, i - 1);
        let g = gathered_keys(recs, i - 1);
        let h = gathered_keys(recs, i);
        let r = recs[i - 1];
        assert forall|a: int, m: int| 0 <= a < h.len() && i <= m < recs.len() implies be_nat(
            #[trigger] h[a],
        ) <= be_nat(key16((#[trigger] recs[m]).scripthash@)) by {
            if a < g.len() {
                assert(h[a] == g[a]);
            } else {
                assert(be_nat(key16(recs[i - 1].scripthash@)) <= be_nat(
                    key16(recs[m].scripthash@),
                ));
            }
        }
        assert forall|a: int, b: int| 0 <= a < b < h.len() implies be_nat(#[trigger] h[a])
            <= be_nat(#[trigger] h[b]) by {
            assert(h[a] == g[a]);
            if b < g.len() {
                assert(h[b] == g[b]);
            } else {
                assert(be_nat(g[a]) <= be_nat(key16(recs[i - 1].scripthash@)));
            }
        }
    }
}

/// The first record with a key is the first key of the records that is it.
proof fn lemma_key_at(recs: Seq<Slot>, k: Seq<u8>)
    ensures
        key_at(rec_keys(recs), k) == first_at(recs, k),
    decreases recs.len(),
{
    if recs.len() > 0 {
        assert(rec_keys(recs).drop_last() =~= rec_keys(recs.drop_last()));
        lemma_key_at(recs.drop_last(), k);
    }
}

/// A pack of a stream is in order.
proof fn lemma_pack_holds(p: &ShShardPack, recs: Seq<ScriptHashRecord>)
    requires
        keys_order(recs),
        p.lists@ == gathered(recs, recs.len() as int),
        rec_keys(p.recs@) == gathered_keys(recs, recs.len() as int),
    ensures
        pack_holds(p, recs),
{
    let n = recs.len() as int;
    lemma_gathered(recs, n);
    let g = gathered_keys(recs, n);
    assert forall|i: int, j: int| 0 <= i < j < p.recs@.len() implies (#[trigger] p.recs@[i]).rank()
        <= (#[trigger] p.recs@[j]).rank() by {
        assert(rec_keys(p.recs@)[i] == p.recs@[i].key@ && rec_keys(p.recs@)[j] == p.recs@[j].key@);
        assert(be_nat(g[i]) <= be_nat(g[j]));
    }
}

/// What publishing the pack of a stream leaves.
proof fn lemma_published(
    t0: &ScriptHashTable,
    t1: &ScriptHashTable,
    t2: &ScriptHashTable,
    shard: int,
    pack: &ShShardPack,
    recs: Seq<ScriptHashRecord>,
)
    requires
        pack_holds(pack, recs),
        pack.recs@.len() == pack.lists@.len(),
        t2.n_shards == t0.n_shards,
        same_frame(t0, t1),
        same_creates(t0, t1),
        if pack.recs@.len() == 0 {
            *t2 == *t1
        } else {
            &&& crate::scripthash_install::installed(
                t1,
                t2,
                shard,
                pack.recs@,
                pack.lists@,
            )
            &&& installed_first(t1, t2, shard, pack.recs@, pack.lists@)
        },
    ensures
        shard_by(t0, t2, shard, recs),
{
    assert forall|k: Seq<u8>|
        k.len() == 16 && prefix_shard(k, t0.n_shards as int) == shard implies #[trigger] t2.creates(
        k,
    ) == (if in_ovf(t0, k) || gathered(recs, recs.len() as int).len() == 0 {
        t0.creates(k)
    } else {
        group_list(recs, k)
    }) by {
        assert(t1.creates(k) == t0.creates(k));
        assert(in_ovf(t1, k) == in_ovf(t0, k));
        lemma_key_at(pack.recs@, k);
    }
}

/// Packs the merged records of one shard into its body.
#[verifier::rlimit(40)]
pub fn pack_shard(
    table: &mut ScriptHashTable,
    inputs: &Vec<SortedRun>,
    cuts: &Vec<Vec<u64>>,
    shard: usize,
) -> (r: Result<ShShardPack, StoreError>)
    requires
        old(table).wf(),
        inputs_ok(inputs@),
        cuts_ok(inputs@, cuts@, old(table).n_shards as int),
        shard < old(table).n_shards,
    ensures
        final(table).wf(),
        pack_frame(old(table), final(table), shard as int),
        inputs@.len() > 0 && lens_mismatch(inputs@) ==> r is Err && r->Err_0
            == StoreError::Corrupt("sorted run: merge len mismatch"),
        match r {
            Ok(p) => {
                &&& pack_sound(&p, final(table), shard as int)
                &&& pack_tallied(&p)
                &&& shard_counted(old(table), final(table), shard as int, p.creates)
                &&& grew_by(old(table), final(table), 64 * all_recs(inputs@))
                &&& same_other_bodies(
                    old(table),
                    final(table),
                    main_body(old(table).layout, shard as int),
                )
                &&& p.bump == final(table).bodies@[main_body(
                    old(table).layout,
                    shard as int,
                )].bump
                &&& runs_sorted(inputs@) ==> exists|recs: Seq<ScriptHashRecord>| #[trigger]
                    shard_stream(inputs@, cuts@, shard as int, recs) && pack_holds(&p, recs)
                &&& runs_ready(
                    inputs@,
                    old(table).n_shards as int,
                    shard as int,
                    shard + 1,
                ) ==> {
                    let n = old(table).n_shards as int;
                    &&& recs_rise(p.recs@)
                    &&& pack_of_runs(&p, inputs@, n, shard as int)
                    &&& run_creates(inputs@, n, shard as int, shard + 1).finite()
                    &&& grew_by_creates(
                        old(table),
                        final(table),
                        inputs@,
                        shard as int,
                        shard + 1,
                    )
                    &&& !shard_has(inputs@, n, shard as int) ==> same_bumps(
                        old(table),
                        final(table),
                    )
                }
            },
            Err(e) => {
                &&& runs_ready(
                    inputs@,
                    old(table).n_shards as int,
                    shard as int,
                    shard + 1,
                ) && runs_small(inputs@) ==> e == StoreError::Io("scripthash body cannot grow")
                &&& e == StoreError::Io("scripthash body cannot grow") ==> cramped(
                    old(table),
                    64 * all_recs(inputs@) + step_room(),
                )
                &&& e == StoreError::Io("scripthash body cannot grow") && runs_ready(
                    inputs@,
                    old(table).n_shards as int,
                    shard as int,
                    shard + 1,
                ) ==> run_creates(
                    inputs@,
                    old(table).n_shards as int,
                    shard as int,
                    shard + 1,
                ).finite() && no_room(old(table), inputs@, shard as int, shard + 1)
            },
        },
{
    let ghost t0 = *table;
    let ghost n = t0.n_shards as int;
    let mut session = match table.pack_shard_session(shard) {
        Ok(s) => s,
        Err(e) => {
            return Err(e);
        },
    };
    let ghost s0 = session;
    proof {
        assert(shard_count_ok(n));
        assert(shard < 256 || n <= 1);
    }
    let out = match for_each_merged_rec_shard(inputs, cuts, shard, false) {
        Ok(o) => o,
        Err(e) => {
            return Err(e);
        },
    };
    let rl: usize = if inputs.len() > 0 {
        inputs[0].head.rec_len as usize
    } else {
        40
    };
    proof {
        if inputs@.len() > 0 {
            assert(inputs@[0].valid());
        }
    }
    let recs = match decode_all(&out, rl) {
        Ok(v) => v,
        Err(e) => {
            return Err(e);
        },
    };
    proof {
        if runs_ready(inputs@, n, shard as int, shard + 1) {
            lemma_ready(&t0, &s0, inputs@, cuts@, shard as int, out@, recs@);
        }
    }
    proof {
        lemma_few_recs(inputs@, cuts@, shard as int, out@, recs@, rl as int);
    }
    let ghost m = live_recs(recs@, recs@.len() as int);
    proof {
        lemma_live_recs(recs@, 0, recs@.len() as int);
    }
    let done = session.push_sorted_records(table, recs.as_slice());
    let ghost s1 = session;
    let ghost t1 = *table;
    match done {
        Ok(_) => {},
        Err(e) => {
            proof {
                if short(&s0, &t0, 64 * m + step_room()) {
                    lemma_cramped(&s0, &t0, shard as int, m, all_recs(inputs@));
                    assert(main_body(t0.layout, shard as int) < t0.bodies@.len());
                }
            }
            return Err(e);
        },
    }
    let ended = session.finish_pack(table);
    proof {
        if ended is Err {
            lemma_short_before(
                &s0,
                &t0,
                &s1,
                &t1,
                64 * m,
                step_room(),
                64 * m + step_room(),
            );
            lemma_cramped(&s0, &t0, shard as int, m, all_recs(inputs@));
            assert(main_body(t0.layout, shard as int) < t0.bodies@.len());
        } else {
            lemma_pack_grew(&s0, &t0, &s1, &t1, table, m, all_recs(inputs@));
        }
        if ended is Ok {
            let bi = main_body(t0.layout, shard as int);
            assert forall|i: int| 0 <= i < t0.bodies@.len() && i != bi implies (
            #[trigger] table.bodies@[i]) == t0.bodies@[i] by {
                assert(t1.bodies@[i] == t0.bodies@[i]);
                assert(table.bodies@[i] == t1.bodies@[i]);
            }
            if runs_ready(inputs@, n, shard as int, shard + 1) && !shard_has(
                inputs@,
                n,
                shard as int,
            ) {
                let cs = run_creates(inputs@, n, shard as int, shard + 1);
                assert(cs =~= Set::<(Seq<u8>, u64)>::empty());
            }
        }
        assert forall|k: Seq<u8>| k.len() == 16 implies #[trigger] table.creates(k)
            == t0.creates(k) by {
            assert(table.creates(k) == t1.creates(k));
            assert(t1.creates(k) == t0.creates(k));
        }
        if ended is Ok && runs_sorted(inputs@) {
            if inputs@.len() > 0 {
                assert(inputs@[0].head.key_len == 40 && inputs@[0].head.rec_len == 40);
                lemma_keys_order(inputs@, cuts@, n, shard as int, out@, recs@);
            } else {
                crate::sorted_run::lemma_rec_count(0, 40, 0);
                assert(recs@.len() == 0);
            }
            lemma_pack_holds(&ended->Ok_0, recs@);
            assert(shard_stream(inputs@, cuts@, shard as int, recs@));
        }
        if ended is Ok && runs_ready(inputs@, n, shard as int, shard + 1) {
            lemma_packed(
                &t0,
                &s0,
                &t1,
                &s1,
                inputs@,
                cuts@,
                shard as int,
                out@,
                recs@,
                &ended->Ok_0,
            );
        }
    }
    ended
}

/// Every create of the runs has a packed form.
pub open spec fn runs_small(inputs: Seq<SortedRun>) -> bool {
    forall|k: Seq<u8>, x: u64| #[trigger] run_asked(inputs, k, x) ==> x < 0x8000_0000_0000_0000
}

/// The merged records of sorted runs can be packed.
#[verifier::rlimit(40)]
proof fn lemma_ready(
    t0: &ScriptHashTable,
    s0: &ScriptHashBulkSession,
    inputs: Seq<SortedRun>,
    cuts: Seq<Vec<u64>>,
    shard: int,
    out: Seq<u8>,
    recs: Seq<ScriptHashRecord>,
)
    requires
        t0.wf(),
        session_ok(s0, t0),
        s0.pack_only,
        s0.active_shard == Some(shard as usize),
        s0.recs@.len() == 0,
        s0.open_key is None,
        0 <= shard < t0.n_shards,
        shard_count_ok(t0.n_shards as int),
        runs_ready(inputs, t0.n_shards as int, shard, shard + 1),
        cuts_ok(inputs, cuts, t0.n_shards as int),
        inputs.len() == 0 ==> out.len() == 0,
        inputs.len() > 0 ==> is_merge(inputs, shard_parts(inputs, cuts, shard), 40, 40, out),
        out.len() as int % 40 == 0,
        decoded(recs, out, 40),
    ensures
        in_order(s0, t0),
        stream_sorted(recs),
        all_follow(s0, t0.n_shards as int, recs, 0),
        runs_small(inputs) ==> fks_below(recs),
        run_creates(inputs, t0.n_shards as int, shard, shard + 1).finite(),
        run_creates(inputs, t0.n_shards as int, shard, shard + 1).len() == live_recs(
            recs,
            recs.len() as int,
        ),
{
    let n = t0.n_shards as int;
    assert(in_order(s0, t0));
    let cs = run_creates(inputs, n, shard, shard + 1);
    if inputs.len() == 0 {
        assert(recs.len() == 0);
        assert(cs =~= Set::<(Seq<u8>, u64)>::empty());
    } else {
        lemma_stream_sorted(inputs, cuts, n, shard, out, recs);
        lemma_shard_merge(inputs, cuts, n, shard, out);
        let all = recs_of(out, 40);
        let from = shard_parts(inputs, cuts, shard);
        assert forall|m: int| 0 <= m < recs.len() implies prefix_shard(
            (#[trigger] recs[m]).scripthash@,
            n,
        ) == shard && (recs[m].create_tx_fk.0 != 0 ==> run_asked(
            inputs,
            key16(recs[m].scripthash@),
            recs[m].create_tx_fk.0,
        )) by {
            assert(all.contains(all[m]));
            let (r, j) = choose|r: int, j: int|
                0 <= r < inputs.len() && from[r].pos <= j < from[r].end
                    && #[trigger] inputs[r].recs()[j] == all[m];
            lemma_run_recs(&inputs[r]);
            assert(part_inside(inputs[r], from[r]));
            law_sorted_run_shards(&inputs[r], n);
            assert(cuts[r]@.len() == n + 1);
            let h = recs[m].scripthash@;
            assert(h[0] == all[m][0]);
            crate::scripthash_head::law_prefix_shard_monotone(h, h, n);
            assert(rec_shard(inputs[r].recs()[j], n) == prefix_shard(h, n));
            lemma_part_of_shard(inputs[r], cuts[r]@, n, shard, j);
            assert(key16(inputs[r].recs()[j]) =~= key16(h)) by {
                assert(all[m].subrange(0, 32).subrange(0, 16) =~= all[m].subrange(0, 16));
            }
        }
        assert forall|m: int|
            0 <= m < recs.len() && (#[trigger] recs[m]).create_tx_fk.0 != 0 implies follows(
            s0,
            n,
            recs[m].scripthash@,
        ) by {
            assert(prefix_shard(recs[m].scripthash@, n) == shard);
        }
        lemma_named(recs, recs.len() as int);
        assert(recs.subrange(0, recs.len() as int) =~= recs);
        assert(cs =~= named(recs, recs.len() as int)) by {
            assert forall|p: (Seq<u8>, u64)| #[trigger] cs.contains(p) == asked(recs, p.0, p.1) by {
                if asked(recs, p.0, p.1) {
                    let m = choose|m: int|
                        0 <= m < recs.len() && key16((#[trigger] recs[m]).scripthash@) == p.0
                            && recs[m].create_tx_fk.0 == p.1;
                    assert(key16(recs[m].scripthash@)[0] == recs[m].scripthash@[0]);
                    assert(prefix_shard(recs[m].scripthash@, n) == shard);
                    assert(prefix_shard(p.0, n) == shard);
                }
                if p.0.len() == 16 && prefix_shard(p.0, n) == shard {
                    lemma_shard_asked(inputs, cuts, n, shard, out, recs, p.0, p.1);
                }
            }
        }
        if runs_small(inputs) {
            assert forall|m: int| 0 <= m < recs.len() implies (#[trigger] recs[m]).create_tx_fk.0
                < 0x8000_0000_0000_0000 by {
                if recs[m].create_tx_fk.0 != 0 {
                    assert(run_asked(
                        inputs,
                        key16(recs[m].scripthash@),
                        recs[m].create_tx_fk.0,
                    ));
                }
            }
        }
    }
}

/// The packed records of sorted runs.
proof fn lemma_packed(
    t0: &ScriptHashTable,
    s0: &ScriptHashBulkSession,
    t1: &ScriptHashTable,
    s1: &ScriptHashBulkSession,
    inputs: Seq<SortedRun>,
    cuts: Seq<Vec<u64>>,
    shard: int,
    out: Seq<u8>,
    recs: Seq<ScriptHashRecord>,
    p: &ShShardPack,
)
    requires
        t0.wf(),
        session_ok(s0, t0),
        session_ok(s1, t1),
        s0.pack_only,
        s1.pack_only,
        s1.active_shard == s0.active_shard,
        s0.active_shard == Some(shard as usize),
        s0.resume_from_shard == 0,
        s0.recs@.len() == 0,
        s0.open_key is None,
        t1.n_shards == t0.n_shards,
        0 <= shard < t0.n_shards,
        shard_count_ok(t0.n_shards as int),
        runs_ready(inputs, t0.n_shards as int, shard, shard + 1),
        cuts_ok(inputs, cuts, t0.n_shards as int),
        inputs.len() == 0 ==> out.len() == 0,
        inputs.len() > 0 ==> is_merge(inputs, shard_parts(inputs, cuts, shard), 40, 40, out),
        out.len() as int % 40 == 0,
        decoded(recs, out, 40),
        in_order(s0, t0) && stream_sorted(recs) && all_follow(s0, t0.n_shards as int, recs, 0)
            ==> in_order(s1, t1) && records_loaded(s0, t0, s1, t1, recs),
        in_order(s1, t1) ==> recs_rise(p.recs@),
        forall|k: Seq<u8>|
            k.len() == 16 ==> #[trigger] list_of(p.recs@, p.lists@, k) == pending(s1, k),
        same_creates(t0, t1),
        same_frame(t0, t1),
    ensures
        recs_rise(p.recs@),
        pack_of_runs(p, inputs, t0.n_shards as int, shard),
{
    let n = t0.n_shards as int;
    lemma_ready(t0, s0, inputs, cuts, shard, out, recs);
    assert forall|k: Seq<u8>| k.len() == 16 && prefix_shard(k, n) == shard implies match #[trigger] list_of(
        p.recs@,
        p.lists@,
        k,
    ) {
        Some(l) => run_list(l, inputs, k),
        None => forall|x: u64| !run_asked(inputs, k, x),
    } by {
        assert forall|x: u64| #[trigger] asked(recs, k, x) <==> run_asked(inputs, k, x) by {
            if inputs.len() > 0 {
                lemma_shard_asked(inputs, cuts, n, shard, out, recs, k, x);
            }
        }
        let l = loaded(s1, t1, k);
        if any_asked(recs, k) {
            assert(set_list(l, recs, k));
            let x = choose|x: u64| asked(recs, k, x);
            assert(l.contains(Fk(x)));
            assert(run_asked(inputs, k, x));
            assert(pending(s1, k) is Some);
            assert forall|i: int| 0 <= i < l.len() implies run_asked(
                inputs,
                k,
                (#[trigger] l[i]).0,
            ) by {
                assert(asked(recs, k, l[i].0));
            }
            assert forall|x: u64| #[trigger] run_asked(inputs, k, x) implies l.contains(Fk(x)) by {
                assert(asked(recs, k, x));
            }
        } else {
            assert forall|x: u64| !run_asked(inputs, k, x) by {
                assert(!asked(recs, k, x));
            }
            if pending(s1, k) is Some {
                assert(loaded(s0, t0, k) == Seq::<Fk>::empty());
                assert(l == Seq::<Fk>::empty());
                assert(run_list(l, inputs, k));
            }
        }
    }
}

/// Seals a packed shard and adds up the totals. A shard without records is left
/// unsealed.
pub fn publish_next(
    table: &mut ScriptHashTable,
    shard: usize,
    pack: &ShShardPack,
    st: &mut MaterializeState,
) -> (r: Result<ColdProgress, StoreError>)
    requires
        old(table).wf(),
        shard < old(table).n_shards,
        pack_sound(pack, old(table), shard as int),
    ensures
        final(table).wf(),
        same_frame(old(table), final(table)),
        forall|i: int|
            0 <= i < old(table).main@.len() && i != shard ==> final(table).main@[i] == old(
                table,
            ).main@[i],
        final(st).max_fk == (if pack.max_fk > old(st).max_fk {
            pack.max_fk
        } else {
            old(st).max_fk
        }),
        final(st).live_keys == sat_add(old(st).live_keys, pack.keys as int),
        final(st).live_creates == sat_add(old(st).live_creates, pack.creates as int),
        match r {
            Ok(p) => {
                &&& p == (ColdProgress {
                    next_shard: (shard + 1) as u32,
                    body_bump: final(st).bump,
                    live_count: final(st).live_creates,
                    keys_written: final(st).live_keys,
                })
                &&& if pack.recs@.len() == 0 && pack.creates == 0 {
                    final(st).bump == old(st).bump && *final(table) == *old(table)
                } else {
                    &&& final(st).bump == pack.bump
                    &&& final(table).bodies@ == old(table).bodies@
                    &&& crate::scripthash_install::installed(
                        old(table),
                        final(table),
                        shard as int,
                        pack.recs@,
                        pack.lists@,
                    )
                    &&& sorted_by_rank(pack.recs@) ==> installed_first(
                        old(table),
                        final(table),
                        shard as int,
                        pack.recs@,
                        pack.lists@,
                    )
                    &&& recs_rise(pack.recs@) ==> forall|k: Seq<u8>|
                        k.len() == 16 && prefix_shard(k, old(table).n_shards as int) == shard
                            ==> #[trigger] final(table).creates(k) == published_list(
                            old(table),
                            pack,
                            k,
                        )
                }
            },
            Err(_) => false,
        },
{
    if pack.max_fk > st.max_fk {
        st.max_fk = pack.max_fk;
    }
    st.live_keys = sat_add_u64(st.live_keys, pack.keys);
    st.live_creates = sat_add_u64(st.live_creates, pack.creates);
    if !(pack.recs.len() == 0 && pack.creates == 0) {
        let bump: u64 = match table.publish_packed_shard(shard, pack) {
            Ok(b) => b,
            Err(e) => {
                return Err(e);
            },
        };
        st.bump = bump;
    }
    proof {
        assert(shard_count_ok(table.n_shards as int));
    }
    Ok(
        ColdProgress {
            next_shard: (shard + 1) as u32,
            body_bump: st.bump,
            live_count: st.live_creates,
            keys_written: st.live_keys,
        },
    )
}

/// The keys of the shards below `lo` and from `hi` on have the creates that they had.
pub open spec fn same_outside(
    a: &ScriptHashTable,
    b: &ScriptHashTable,
    lo: int,
    hi: int,
) -> bool {
    forall|k: Seq<u8>|
        k.len() == 16 && !(lo <= prefix_shard(k, a.n_shards as int) < hi)
            ==> #[trigger] b.creates(k) == a.creates(k)
}

/// What a materialize leaves in a shard: the creates of the runs. A sealed shard that
/// the runs hold nothing of stays, and so do the keys of the overflow.
pub open spec fn shard_done(
    a: &ScriptHashTable,
    b: &ScriptHashTable,
    inputs: Seq<SortedRun>,
    s: int,
) -> bool {
    let n = a.n_shards as int;
    let fresh = unsealed(a, s) || shard_has(inputs, n, s);
    forall|k: Seq<u8>|
        k.len() == 16 && prefix_shard(k, n) == s ==> if fresh && !in_ovf(a, k) {
            run_list(#[trigger] b.creates(k), inputs, k)
        } else {
            b.creates(k) == a.creates(k)
        }
}

/// The counter of the table grew by this many creates, where none of them was counted
/// before and the counter can hold them.
pub open spec fn live_grown(
    a: &ScriptHashTable,
    b: &ScriptHashTable,
    lo: int,
    creates: int,
) -> bool {
    uncounted(a, lo) && a.live() + creates <= u64::MAX ==> b.live() == a.live() + creates
}

/// The shards up to `d` are done, and the others are as they were.
pub open spec fn done_up_to(
    a: &ScriptHashTable,
    b: &ScriptHashTable,
    inputs: Seq<SortedRun>,
    lo: int,
    d: int,
) -> bool {
    &&& lo <= d <= a.n_shards
    &&& same_outside(a, b, lo, d)
    &&& forall|s: int| lo <= s < d ==> #[trigger] shard_settled(a, b, inputs, s)
}

/// The shard is done, where its hashes with the same first 16 bytes are equal.
pub open spec fn shard_settled(
    a: &ScriptHashTable,
    b: &ScriptHashTable,
    inputs: Seq<SortedRun>,
    s: int,
) -> bool {
    runs_ready(inputs, a.n_shards as int, s, s + 1) ==> shard_done(a, b, inputs, s)
}

/// The totals grew by what the runs hold of these shards.
pub open spec fn totals_grown(
    a: MaterializeState,
    b: MaterializeState,
    inputs: Seq<SortedRun>,
    n: int,
    lo: int,
    hi: int,
) -> bool {
    &&& run_keys(inputs, n, lo, hi).finite()
    &&& run_creates(inputs, n, lo, hi).finite()
    &&& b.live_keys == capped(a.live_keys + run_keys(inputs, n, lo, hi).len())
    &&& b.live_creates == capped(a.live_creates + run_creates(inputs, n, lo, hi).len())
    &&& raised(a.max_fk, b.max_fk, run_creates(inputs, n, lo, hi))
}

/// Packs and seals one shard.
#[verifier::rlimit(40)]
pub fn materialize_shard(
    table: &mut ScriptHashTable,
    inputs: &Vec<SortedRun>,
    cuts: &Vec<Vec<u64>>,
    shard: usize,
    st: &mut MaterializeState,
) -> (r: Result<ColdProgress, StoreError>)
    requires
        old(table).wf(),
        inputs_ok(inputs@),
        cuts_ok(inputs@, cuts@, old(table).n_shards as int),
        shard < old(table).n_shards,
    ensures
        final(table).wf(),
        same_frame(old(table), final(table)),
        inputs@.len() > 0 && lens_mismatch(inputs@) ==> r is Err && r->Err_0
            == StoreError::Corrupt("sorted run: merge len mismatch"),
        forall|i: int|
            0 <= i < old(table).main@.len() && i != shard ==> final(table).main@[i] == old(
                table,
            ).main@[i],
        match r {
            Ok(p) => {
                &&& p.next_shard == shard + 1
                &&& p.body_bump == final(st).bump
                &&& p.live_count == final(st).live_creates
                &&& p.keys_written == final(st).live_keys
                &&& same_outside(old(table), final(table), shard as int, shard + 1)
                &&& grew_by(old(table), final(table), 64 * all_recs(inputs@))
                &&& runs_sorted(inputs@) ==> {
                    let recs = stream_of(inputs@, old(table).n_shards as int, shard as int);
                    &&& shard_by(old(table), final(table), shard as int, recs)
                    &&& tally_of(*final(st)) == tally_add(
                        tally_of(*old(st)),
                        gathered(recs, recs.len() as int),
                    )
                }
                &&& runs_ready(
                    inputs@,
                    old(table).n_shards as int,
                    shard as int,
                    shard + 1,
                ) ==> {
                    &&& shard_counted(
                        old(table),
                        final(table),
                        shard as int,
                        capped(
                            run_creates(
                                inputs@,
                                old(table).n_shards as int,
                                shard as int,
                                shard + 1,
                            ).len() as int,
                        ),
                    )
                    &&& shard_done(old(table), final(table), inputs@, shard as int)
                    &&& totals_grown(
                        *old(st),
                        *final(st),
                        inputs@,
                        old(table).n_shards as int,
                        shard as int,
                        shard + 1,
                    )
                    &&& final(st).bump == (if shard_has(
                        inputs@,
                        old(table).n_shards as int,
                        shard as int,
                    ) {
                        final(table).bodies@[main_body(old(table).layout, shard as int)].bump
                    } else {
                        old(st).bump
                    })
                    &&& grew_by_creates(
                        old(table),
                        final(table),
                        inputs@,
                        shard as int,
                        shard + 1,
                    )
                    &&& !shard_has(inputs@, old(table).n_shards as int, shard as int) ==> same_bumps(
                        old(table),
                        final(table),
                    )
                }
            },
            Err(e) => {
                &&& same_creates(old(table), final(table))
                &&& runs_ready(
                    inputs@,
                    old(table).n_shards as int,
                    shard as int,
                    shard + 1,
                ) && runs_small(inputs@) ==> e == StoreError::Io("scripthash body cannot grow")
                &&& e == StoreError::Io("scripthash body cannot grow") ==> cramped(
                    old(table),
                    64 * all_recs(inputs@) + step_room(),
                )
                &&& e == StoreError::Io("scripthash body cannot grow") && runs_ready(
                    inputs@,
                    old(table).n_shards as int,
                    shard as int,
                    shard + 1,
                ) ==> run_creates(
                    inputs@,
                    old(table).n_shards as int,
                    shard as int,
                    shard + 1,
                ).finite() && no_room(old(table), inputs@, shard as int, shard + 1)
            },
        },
{
    let ghost t0 = *table;
    let ghost st0 = *st;
    let pack = match pack_shard(table, inputs, cuts, shard) {
        Ok(p) => p,
        Err(e) => {
            return Err(e);
        },
    };
    let ghost t1 = *table;
    let done = publish_next(table, shard, &pack, st);
    proof {
        let n = t0.n_shards as int;
        if done is Ok {
            assert forall|k: Seq<u8>|
                k.len() == 16 && !(shard <= prefix_shard(k, n) < shard + 1) implies #[trigger] table.creates(
                k,
            ) == t0.creates(k) by {
                assert(t1.creates(k) == t0.creates(k));
            }
            if runs_sorted(inputs@) {
                let recs = choose|recs: Seq<ScriptHashRecord>| #[trigger]
                    shard_stream(inputs@, cuts@, shard as int, recs) && pack_holds(&pack, recs);
                lemma_stream_of(inputs@, n, shard as int, cuts@, recs);
                lemma_published(&t0, &t1, table, shard as int, &pack, recs);
            }
            if runs_ready(inputs@, n, shard as int, shard + 1) {
                lemma_shard_totals(&pack, inputs@, n, shard as int);
                lemma_shard_result(&t0, &t1, table, inputs@, shard as int, &pack);
            }
        }
    }
    done
}

/// After a pack was published its shard holds the creates of the runs.
proof fn lemma_shard_result(
    t0: &ScriptHashTable,
    t1: &ScriptHashTable,
    t2: &ScriptHashTable,
    inputs: Seq<SortedRun>,
    shard: int,
    pack: &ShShardPack,
)
    requires
        t1.wf(),
        same_frame(t0, t1),
        0 <= shard < t0.n_shards,
        t2.n_shards == t0.n_shards,
        t1.main@ == t0.main@,
        same_creates(t0, t1),
        recs_rise(pack.recs@),
        pack_of_runs(pack, inputs, t0.n_shards as int, shard),
        shard_has(inputs, t0.n_shards as int, shard) <==> pack.recs@.len() > 0,
        if pack.recs@.len() == 0 {
            *t2 == *t1
        } else {
            forall|k: Seq<u8>|
                k.len() == 16 && prefix_shard(k, t0.n_shards as int) == shard
                    ==> #[trigger] t2.creates(k) == published_list(t1, pack, k)
        },
    ensures
        shard_done(t0, t2, inputs, shard),
{
    let n = t0.n_shards as int;
    let fresh = unsealed(t0, shard) || shard_has(inputs, n, shard);
    assert forall|k: Seq<u8>| k.len() == 16 && prefix_shard(k, n) == shard implies if fresh
        && !in_ovf(t0, k) {
        run_list(#[trigger] t2.creates(k), inputs, k)
    } else {
        t2.creates(k) == t0.creates(k)
    } by {
        assert(t1.creates(k) == t0.creates(k));
        let l = list_of(pack.recs@, pack.lists@, k);
        crate::scripthash_bulk::lemma_list_none(pack.recs@, pack.lists@, k);
        if pack.recs@.len() == 0 {
            assert(l is None);
            if fresh && !in_ovf(t0, k) {
                assert(t1.located(k) is None);
                assert(t2.creates(k) == Seq::<Fk>::empty());
            }
        }
        if l is None {
            assert(run_list(Seq::empty(), inputs, k));
        }
    }
}

/// Packs and seals the shards from `resume_from` on. `prior` is the progress of a
/// load that was broken off.
#[verifier::rlimit(40)]
pub fn materialize_sh_shards(
    table: &mut ScriptHashTable,
    inputs: &Vec<SortedRun>,
    resume_from: usize,
    prior: Option<ColdProgress>,
) -> (r: Result<(ShShardMaterialize, Option<ColdProgress>), StoreError>)
    requires
        old(table).wf(),
        inputs_ok(inputs@),
    ensures
        final(table).wf(),
        same_frame(old(table), final(table)),
        resume_from < old(table).n_shards && inputs@.len() > 0 && lens_mismatch(inputs@) ==> r
            is Err && r->Err_0 == StoreError::Corrupt("sorted run: merge len mismatch"),
        resume_from >= old(table).n_shards ==> *final(table) == *old(table) && r is Ok && (
        r->Ok_0).1 is None && (r->Ok_0).0 == (ShShardMaterialize {
            creates: capped(old(table).live() as int),
            keys: 0,
            max_fk: 0,
        }),
        match r {
            Ok(v) => {
                let n = old(table).n_shards as int;
                &&& load_done(old(table), final(table), inputs@, resume_from as int, prior, v.0)
                &&& grew_by(old(table), final(table), 64 * all_recs(inputs@) * n)
                &&& resume_from < n ==> v.1 is Some && (v.1->0).next_shard == n && (
                v.1->0).live_count == v.0.creates && (v.1->0).keys_written == v.0.keys
                &&& resume_from < n && runs_ready(inputs@, n, resume_from as int, n) ==> {
                    &&& (v.1->0).body_bump == last_bump(
                        final(table),
                        inputs@,
                        resume_from as int,
                        n,
                        old(table).first_bump(),
                    )
                    &&& grew_by_creates(old(table), final(table), inputs@, resume_from as int, n)
                    &&& fresh_load(old(table), inputs@, resume_from as int) && old(table).live()
                        + run_creates(inputs@, n, resume_from as int, n).len() <= u64::MAX
                        ==> counts_exact(final(table))
                    &&& live_grown(
                        old(table),
                        final(table),
                        resume_from as int,
                        run_creates(inputs@, n, resume_from as int, n).len() as int,
                    )
                }
            },
            Err(e) => {
                &&& forall|k: Seq<u8>|
                    k.len() == 16 && prefix_shard(k, old(table).n_shards as int) < resume_from
                        ==> #[trigger] final(table).creates(k) == old(table).creates(k)
                &&& exists|d: int| #[trigger]
                    done_up_to(old(table), final(table), inputs@, resume_from as int, d)
                &&& runs_ready(
                    inputs@,
                    old(table).n_shards as int,
                    resume_from as int,
                    old(table).n_shards as int,
                ) && runs_small(inputs@) ==> e == StoreError::Io("scripthash body cannot grow")
                &&& e == StoreError::Io("scripthash body cannot grow") ==> cramped(
                    old(table),
                    64 * all_recs(inputs@) * old(table).n_shards + step_room(),
                )
                &&& e == StoreError::Io("scripthash body cannot grow") && runs_ready(
                    inputs@,
                    old(table).n_shards as int,
                    resume_from as int,
                    old(table).n_shards as int,
                ) ==> exists|d: int|
                    resume_from < d <= old(table).n_shards && #[trigger] no_room(
                        old(table),
                        inputs@,
                        resume_from as int,
                        d,
                    )
            },
        },
{
    let ghost t0 = *table;
    let ghost n = t0.n_shards as int;
    let ghost a0 = start_totals(&t0, prior);
    if resume_from >= table.n_shards {
        let creates: u64 = table.entry_count();
        proof {
            lemma_all_recs(inputs@, inputs@.len() as int);
            assert(64 * all_recs(inputs@) * n >= 0) by (nonlinear_arith)
                requires
                    all_recs(inputs@) >= 0,
                    n >= 0,
            ;
        }
        return Ok((ShShardMaterialize { creates, keys: 0, max_fk: 0 }, None));
    }
    let cuts = shard_record_starts_many(inputs, table.n_shards);
    let mut st = MaterializeState {
        bump: table.alloc_bump(),
        live_creates: match prior {
            Some(p) => p.live_count,
            None => table.entry_count(),
        },
        live_keys: match prior {
            Some(p) => p.keys_written,
            None => 0,
        },
        max_fk: 0,
    };
    let mut last: Option<ColdProgress> = None;
    let mut shard: usize = resume_from;
    proof {
        assert(same_outside(&t0, table, resume_from as int, shard as int));
        lemma_all_recs(inputs@, inputs@.len() as int);
        lemma_totals_none(inputs@, n, resume_from as int, 0);
    }
    while shard < table.n_shards
        invariant
            resume_from <= shard <= n,
            resume_from < n,
            t0 == *old(table),
            t0.wf(),
            n == t0.n_shards,
            a0 == start_totals(&t0, prior),
            table.wf(),
            same_frame(&t0, table),
            inputs_ok(inputs@),
            cuts_ok(inputs@, cuts@, n),
            same_outside(&t0, table, resume_from as int, shard as int),
            forall|s: int| shard <= s < n ==> table.main@[s] == t0.main@[s],
            forall|s: int|
                resume_from <= s < shard ==> #[trigger] shard_settled(&t0, table, inputs@, s),
            runs_sorted(inputs@) ==> forall|s: int|
                resume_from <= s < shard ==> #[trigger] shard_by(
                    &t0,
                    table,
                    s,
                    stream_of(inputs@, n, s),
                ),
            runs_sorted(inputs@) ==> tally_of(st) == loaded_totals(
                tally_of(a0),
                inputs@,
                n,
                resume_from as int,
                shard as int,
            ),
            runs_ready(inputs@, n, resume_from as int, n) ==> totals_grown(
                a0,
                st,
                inputs@,
                n,
                resume_from as int,
                shard as int,
            ),
            shard == resume_from ==> *table == t0,
            all_recs(inputs@) >= 0,
            grew_by(&t0, table, 64 * all_recs(inputs@) * (shard - resume_from)),
            runs_ready(inputs@, n, resume_from as int, n) ==> run_creates(
                inputs@,
                n,
                resume_from as int,
                shard as int,
            ).finite() && grew_by_creates(
                &t0,
                table,
                inputs@,
                resume_from as int,
                shard as int,
            ) && st.bump == last_bump(
                table,
                inputs@,
                resume_from as int,
                shard as int,
                t0.first_bump(),
            ),
            runs_ready(inputs@, n, resume_from as int, n) && fresh_load(
                &t0,
                inputs@,
                resume_from as int,
            ) && t0.live() + run_creates(inputs@, n, resume_from as int, shard as int).len()
                <= u64::MAX ==> counts_exact(table),
            runs_ready(inputs@, n, resume_from as int, n) && t0.layout is Sharded ==> forall|i: int|
                shard <= i < n ==> (#[trigger] table.bodies@[i]).live_count
                    == t0.bodies@[i].live_count,
            runs_ready(inputs@, n, resume_from as int, n) ==> live_grown(
                &t0,
                table,
                resume_from as int,
                run_creates(inputs@, n, resume_from as int, shard as int).len() as int,
            ),
            shard > resume_from ==> !(inputs@.len() > 0 && lens_mismatch(inputs@)),
            shard > resume_from ==> last is Some && (last->0).next_shard == shard && (
            last->0).live_count == st.live_creates && (last->0).keys_written == st.live_keys && (
            last->0).body_bump == st.bump,
        decreases n - shard,
    {
        let ghost t1 = *table;
        let ghost st1 = st;
        let p = match materialize_shard(table, inputs, &cuts, shard, &mut st) {
            Ok(p) => p,
            Err(e) => {
                proof {
                    if e == StoreError::Io("scripthash body cannot grow") {
                        lemma_cramped_before(
                            &t0,
                            &t1,
                            64 * all_recs(inputs@),
                            shard - resume_from,
                            n,
                        );
                        if runs_ready(inputs@, n, resume_from as int, n) {
                            assert(runs_ready(inputs@, n, shard as int, shard + 1));
                            lemma_creates_step(
                                &t0,
                                &t1,
                                inputs@,
                                resume_from as int,
                                shard as int,
                            );
                            assert(no_room(&t0, inputs@, resume_from as int, shard + 1));
                        }
                    }
                    assert forall|k: Seq<u8>|
                        k.len() == 16 && prefix_shard(k, n) < resume_from implies #[trigger] table.creates(
                        k,
                    ) == t0.creates(k) by {
                        assert(t1.creates(k) == t0.creates(k));
                    }
                    {
                        assert forall|k: Seq<u8>|
                            k.len() == 16 && !(resume_from <= prefix_shard(k, n)
                                < shard) implies #[trigger] table.creates(k) == t0.creates(k) by {
                            assert(table.creates(k) == t1.creates(k));
                            assert(t1.creates(k) == t0.creates(k));
                        }
                        assert forall|s: int|
                            resume_from <= s < shard implies #[trigger] shard_settled(
                            &t0,
                            table,
                            inputs@,
                            s,
                        ) by {
                            assert(shard_settled(&t0, &t1, inputs@, s));
                            if runs_ready(inputs@, n, s, s + 1) {
                                lemma_done_kept(&t0, &t1, table, inputs@, s, shard as int);
                            }
                        }
                        assert(done_up_to(
                            &t0,
                            table,
                            inputs@,
                            resume_from as int,
                            shard as int,
                        ));
                    }
                }
                return Err(e);
            },
        };
        last = Some(p);
        proof {
            lemma_grew_step(
                &t0,
                &t1,
                table,
                64 * all_recs(inputs@),
                shard - resume_from,
                64 * all_recs(inputs@),
            );
            assert forall|k: Seq<u8>|
                k.len() == 16 && !(resume_from <= prefix_shard(k, n) < shard + 1) implies #[trigger] table.creates(
                k,
            ) == t0.creates(k) by {
                assert(table.creates(k) == t1.creates(k));
                assert(t1.creates(k) == t0.creates(k));
            }
            if runs_ready(inputs@, n, resume_from as int, n) {
                assert(runs_ready(inputs@, n, shard as int, shard + 1));
                lemma_creates_step(&t0, &t1, inputs@, resume_from as int, shard as int);
                assert(grew_by_creates(&t1, table, inputs@, shard as int, shard + 1));
                if fresh_load(&t0, inputs@, resume_from as int) && t0.live() + run_creates(
                    inputs@,
                    n,
                    resume_from as int,
                    shard + 1,
                ).len() <= u64::MAX {
                    lemma_fresh_uncounted(&t0, inputs@, resume_from as int);
                    assert(t1.main@[shard as int] == t0.main@[shard as int]);
                    assert(unsealed(&t0, shard as int));
                    assert(unmasked(&t1, inputs@, shard as int, shard + 1)) by {
                        assert forall|k: Seq<u8>, x: u64| #[trigger]
                            run_asked(inputs@, k, x) && k.len() == 16 && shard <= prefix_shard(k, n)
                                < shard + 1 implies !in_ovf(&t1, k) by {
                            assert(in_ovf(&t1, k) == in_ovf(&t0, k));
                        }
                    }
                    lemma_count_load(&t1, table, inputs@, shard as int);
                }
                if !shard_has(inputs@, n, shard as int) {
                    lemma_same_bump(
                        &t1,
                        table,
                        inputs@,
                        resume_from as int,
                        shard as int,
                        t0.first_bump(),
                    );
                }
                lemma_totals_step(
                    inputs@,
                    n,
                    resume_from as int,
                    shard as int,
                    a0.max_fk,
                    st1.max_fk,
                    st.max_fk,
                );
                lemma_live_step(
                    &t0,
                    &t1,
                    table,
                    resume_from as int,
                    shard as int,
                    run_creates(inputs@, n, resume_from as int, shard as int).len() as int,
                    run_creates(inputs@, n, shard as int, shard + 1).len() as int,
                );
            }
            if runs_sorted(inputs@) {
                assert forall|s: int| resume_from <= s < shard + 1 implies #[trigger] shard_by(
                    &t0,
                    table,
                    s,
                    stream_of(inputs@, n, s),
                ) by {
                    lemma_by_kept(
                        &t0,
                        &t1,
                        table,
                        stream_of(inputs@, n, s),
                        s,
                        shard as int,
                        resume_from as int,
                    );
                }
            }
            assert forall|s: int| resume_from <= s < shard + 1 implies #[trigger] shard_settled(
                &t0,
                table,
                inputs@,
                s,
            ) by {
                if runs_ready(inputs@, n, s, s + 1) {
                    if s < shard {
                        assert(shard_settled(&t0, &t1, inputs@, s));
                        lemma_done_kept(&t0, &t1, table, inputs@, s, shard as int);
                    } else {
                        lemma_done_start(&t0, &t1, table, inputs@, s, resume_from as int);
                    }
                }
            }
        }
        shard += 1;
    }
    proof {
        let unit = 64 * all_recs(inputs@);
        assert(unit * (n - resume_from) <= unit * n) by (nonlinear_arith)
            requires
                unit >= 0,
                0 <= resume_from < n,
        ;
        assert forall|i: int| 0 <= i < t0.bodies@.len() implies (#[trigger] table.bodies@[i]).bump
            <= t0.bodies@[i].bump + unit * n && table.bodies@[i].bytes@.len()
            <= t0.bodies@[i].bytes@.len() + unit * n by {}
    }
    Ok(
        (
            ShShardMaterialize {
                creates: st.live_creates,
                keys: st.live_keys,
                max_fk: st.max_fk,
            },
            last,
        ),
    )
}

/// The totals that a materialize starts with: those of the load that was broken off,
/// or what the table holds.
pub open spec fn start_totals(t: &ScriptHashTable, prior: Option<ColdProgress>) -> MaterializeState {
    MaterializeState {
        bump: 0,
        live_creates: match prior {
            Some(p) => p.live_count,
            None => capped(t.live() as int),
        },
        live_keys: match prior {
            Some(p) => p.keys_written,
            None => 0,
        },
        max_fk: 0,
    }
}

/// What a load leaves: the shards from `lo` on are done, the others are as they were, and
/// the totals grew by what the runs hold.
pub open spec fn load_done(
    a: &ScriptHashTable,
    b: &ScriptHashTable,
    inputs: Seq<SortedRun>,
    lo: int,
    prior: Option<ColdProgress>,
    m: ShShardMaterialize,
) -> bool {
    let n = a.n_shards as int;
    &&& same_outside(a, b, lo, n)
    &&& forall|s: int| lo <= s < n ==> #[trigger] shard_settled(a, b, inputs, s)
    &&& lo < n && runs_sorted(inputs) ==> {
        &&& forall|s: int|
            lo <= s < n ==> #[trigger] shard_by(a, b, s, stream_of(inputs, n, s))
        &&& (m.creates, m.keys, m.max_fk) == loaded_totals(
            tally_of(start_totals(a, prior)),
            inputs,
            n,
            lo,
            n,
        )
    }
    &&& lo < n && runs_ready(inputs, n, lo, n) ==> totals_grown(
        start_totals(a, prior),
        MaterializeState {
            bump: 0,
            live_creates: m.creates,
            live_keys: m.keys,
            max_fk: m.max_fk,
        },
        inputs,
        n,
        lo,
        n,
    )
}

/// The counters are exact, the shards from `lo` on are not sealed, and the overflow masks
/// nothing that the runs hold of them.
pub open spec fn fresh_load(t: &ScriptHashTable, inputs: Seq<SortedRun>, lo: int) -> bool {
    &&& counts_exact(t)
    &&& forall|s: int| lo <= s < t.n_shards ==> #[trigger] unsealed(t, s)
    &&& unmasked(t, inputs, lo, t.n_shards as int)
}

proof fn lemma_fresh_uncounted(t: &ScriptHashTable, inputs: Seq<SortedRun>, lo: int)
    requires
        t.wf(),
        0 <= lo,
        fresh_load(t, inputs, lo),
    ensures
        uncounted(t, lo),
{
    if t.layout is Sharded {
        assert forall|i: int| lo <= i < t.n_shards implies (#[trigger] t.bodies@[i]).live_count
            == 0 by {
            assert(unsealed(t, i));
            lemma_unsealed_none(t, i);
        }
    }
}

/// The counter after one shard more.
proof fn lemma_live_step(
    t0: &ScriptHashTable,
    t1: &ScriptHashTable,
    t2: &ScriptHashTable,
    lo: int,
    shard: int,
    before: int,
    more: int,
)
    requires
        t1.wf(),
        same_frame(t0, t1),
        0 <= lo <= shard < t0.n_shards,
        live_grown(t0, t1, lo, before),
        t0.layout is Sharded ==> t1.bodies@[shard].live_count == t0.bodies@[shard].live_count,
        shard_counted(t1, t2, shard, capped(more)),
        0 <= before,
        0 <= more,
    ensures
        live_grown(t0, t2, lo, before + more),
{
    if uncounted(t0, lo) && t0.live() + before + more <= u64::MAX {
        if t0.layout is Sharded {
            assert(t0.bodies@[shard].live_count == 0);
        }
        lemma_shard_counted(t1, t2, shard, capped(more));
    }
}

/// A shard that the records filled stays so, and the next one is as seen from the start.
proof fn lemma_by_kept(
    t0: &ScriptHashTable,
    t1: &ScriptHashTable,
    t2: &ScriptHashTable,
    recs: Seq<ScriptHashRecord>,
    s: int,
    shard: int,
    lo: int,
)
    requires
        same_frame(t0, t1),
        t2.n_shards == t0.n_shards,
        lo <= s <= shard,
        same_outside(t0, t1, lo, shard),
        same_outside(t1, t2, shard, shard + 1),
        s < shard ==> shard_by(t0, t1, s, recs),
        s == shard ==> shard_by(t1, t2, s, recs),
    ensures
        shard_by(t0, t2, s, recs),
{
    assert forall|k: Seq<u8>| k.len() == 16 && prefix_shard(k, t0.n_shards as int) == s implies
        #[trigger] t2.creates(k) == (if in_ovf(t0, k) || gathered(recs, recs.len() as int).len()
        == 0 {
        t0.creates(k)
    } else {
        group_list(recs, k)
    }) by {
        assert(in_ovf(t1, k) == in_ovf(t0, k));
        if s < shard {
            assert(t2.creates(k) == t1.creates(k));
        } else {
            assert(t1.creates(k) == t0.creates(k));
        }
    }
}

/// A shard that is done stays done.
proof fn lemma_done_kept(
    t0: &ScriptHashTable,
    t1: &ScriptHashTable,
    t2: &ScriptHashTable,
    inputs: Seq<SortedRun>,
    s: int,
    shard: int,
)
    requires
        t1.n_shards == t0.n_shards,
        t2.n_shards == t0.n_shards,
        s < shard,
        shard_done(t0, t1, inputs, s),
        same_outside(t1, t2, shard, shard + 1),
    ensures
        shard_done(t0, t2, inputs, s),
{
    let n = t0.n_shards as int;
    let fresh = unsealed(t0, s) || shard_has(inputs, n, s);
    assert forall|k: Seq<u8>| k.len() == 16 && prefix_shard(k, n) == s implies if fresh && !in_ovf(
        t0,
        k,
    ) {
        run_list(#[trigger] t2.creates(k), inputs, k)
    } else {
        t2.creates(k) == t0.creates(k)
    } by {
        assert(t2.creates(k) == t1.creates(k));
    }
}

/// A shard that was untouched before is done as seen from the start.
proof fn lemma_done_start(
    t0: &ScriptHashTable,
    t1: &ScriptHashTable,
    t2: &ScriptHashTable,
    inputs: Seq<SortedRun>,
    s: int,
    lo: int,
)
    requires
        same_frame(t0, t1),
        t2.n_shards == t0.n_shards,
        t1.main@[s] == t0.main@[s],
        same_outside(t0, t1, lo, s),
        shard_done(t1, t2, inputs, s),
    ensures
        shard_done(t0, t2, inputs, s),
{
    let n = t0.n_shards as int;
    let fresh = unsealed(t0, s) || shard_has(inputs, n, s);
    assert forall|k: Seq<u8>| k.len() == 16 && prefix_shard(k, n) == s implies if fresh && !in_ovf(
        t0,
        k,
    ) {
        run_list(#[trigger] t2.creates(k), inputs, k)
    } else {
        t2.creates(k) == t0.creates(k)
    } by {
        assert(t1.creates(k) == t0.creates(k));
        assert(in_ovf(t1, k) == in_ovf(t0, k));
    }
}

} // verus!
