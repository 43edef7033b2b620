//! Migration of the scripthash index from linked lists to slabs and pages.
//!
//! In the old form a head gives the newest row of a key, and each row of 20 bytes
//! holds a create, an output and the next older row. The rows of each key are walked
//! once and loaded into a new table. The steps on files are decided here from what
//! is there, so that a migration that was broken off can be repeated.

use vstd::prelude::*;
use crate::bytes::{bytes_at, get_u16, get_u64, le16, overlay, put_bytes, u16_at, u64_at};
use crate::error::StoreError;
use crate::hashhead::HeadScale;
use crate::primitives::{Fk, SCHEMA_VERSION, STORE_MAGIC};
use crate::scripthash::{asked, ScriptHashRecord, ScriptHashTable};
use crate::scripthash_body::SH_BODY_MAX;
use crate::scripthash_bulk::{held, lemma_short_before, loaded, short, step_room, writes_to, ScriptHashBulkSession};
use crate::scripthash_count::counts_exact;
use crate::scripthash_head::key16;
use crate::scripthash_install::in_ovf;
use crate::scripthash_layout::SH_ALLOC_MAGIC;
use crate::scripthash_load::{all_follow, any_asked, count_fresh, fks_below, fresh_at, keys_sorted, lemma_asked_push, records_loaded, same_run, set_list};
use crate::scripthash_materialize::lemma_be_front;
use crate::sorting::{be_nat, bytes_order, lemma_be_injective, lemma_same_items, sort_ranked, sorted_by_rank, Cmp3, Ranked};

verus! {

/// Schema of the linked lists.
pub const PREV_SCHEMA: u16 = 3;

/// Bytes of a row.
pub const V3_ROW_LEN: usize = 20;

/// Create in a row.
pub open spec fn row_create(body: Seq<u8>, id: int) -> u64 {
    u64_at(body, 20 * (id - 1))
}

/// Next older row.
pub open spec fn row_next(body: Seq<u8>, id: int) -> u64 {
    u64_at(body, 20 * (id - 1) + 12)
}

/// Creates of a list, newest first, and whether the list ends within the rows.
pub open spec fn v3_list(body: Seq<u8>, id: u64, fuel: nat) -> (Seq<Fk>, bool)
    decreases fuel,
{
    if id == 0 || id > body.len() / 20 {
        (Seq::empty(), true)
    } else if fuel == 0 {
        (Seq::empty(), false)
    } else {
        let rest = v3_list(body, row_next(body, id as int), (fuel - 1) as nat);
        let c = row_create(body, id as int);
        (
            if c == 0 {
                rest.0
            } else {
                seq![Fk(c)] + rest.0
            },
            rest.1,
        )
    }
}

/// Creates of the list of a head, newest first, and whether the list ends.
pub open spec fn v3_chain(body: Seq<u8>, head: Fk) -> (Seq<Fk>, bool) {
    v3_list(body, head.0, body.len() / 20)
}

/// Some head leads to this create of this key.
pub open spec fn v3_asked(body: Seq<u8>, heads: Seq<([u8; 32], Fk)>, k: Seq<u8>, x: u64) -> bool {
    exists|i: int|
        0 <= i < heads.len() && key16((#[trigger] heads[i]).0@) == k && v3_chain(
            body,
            heads[i].1,
        ).0.contains(Fk(x))
}

/// Appends the creates of a list to the records.
fn collect_chain(
    body: &[u8],
    key: &[u8; 32],
    head: Fk,
    out: &mut Vec<ScriptHashRecord>,
) -> (r: Result<usize, StoreError>)
    ensures
        match r {
            Ok(n) => {
                let c = v3_chain(body@, head);
                &&& c.1
                &&& n == c.0.len()
                &&& final(out)@.len() == old(out)@.len() + n
                &&& forall|j: int| 0 <= j < old(out)@.len() ==> final(out)@[j] == old(out)@[j]
                &&& forall|j: int|
                    0 <= j < n ==> (#[trigger] final(out)@[old(out)@.len() + j]).scripthash == *key
                        && final(out)@[old(out)@.len() + j].create_tx_fk == c.0[j]
            },
            Err(e) => !v3_chain(body@, head).1 && e == StoreError::Corrupt(
                "v3 scripthash chain cycle",
            ),
        },
{
    let rows: usize = body.len() / V3_ROW_LEN;
    let blen: usize = body.len();
    let mut fuel: usize = rows;
    let mut id: u64 = head.0;
    let mut n: usize = 0;
    let ghost start = out@;
    let ghost want = v3_chain(body@, head);
    proof {
        assert(Seq::<Fk>::empty() + want.0 =~= want.0);
    }
    while id != 0 && id <= rows as u64
        invariant
            rows == body@.len() / 20,
            blen == body@.len(),
            want == v3_chain(body@, head),
            fuel <= rows,
            n + fuel <= rows,
            start == old(out)@,
            out@.len() == start.len() + n,
            forall|j: int| 0 <= j < start.len() ==> out@[j] == start[j],
            forall|j: int|
                0 <= j < n ==> (#[trigger] out@[start.len() + j]).scripthash == *key,
            want.0 == out_tail(out@, start.len() as int) + v3_list(body@, id, fuel as nat).0,
            want.1 == v3_list(body@, id, fuel as nat).1,
        decreases fuel,
    {
        if fuel == 0 {
            return Err(StoreError::Corrupt("v3 scripthash chain cycle"));
        }
        let ghost before = out@;
        let o: usize = (id - 1) as usize * 20;
        let c: u64 = get_u64(body, o);
        let next: u64 = get_u64(body, o + 12);
        let ghost rest = v3_list(body@, next, (fuel - 1) as nat);
        if c != 0 {
            out.push(ScriptHashRecord { scripthash: *key, create_tx_fk: Fk(c) });
            n += 1;
            proof {
                assert(out_tail(out@, start.len() as int) =~= out_tail(
                    before,
                    start.len() as int,
                ).push(Fk(c)));
                assert(out_tail(before, start.len() as int) + (seq![Fk(c)] + rest.0) =~= out_tail(
                    out@,
                    start.len() as int,
                ) + rest.0);
            }
        }
        fuel -= 1;
        id = next;
    }
    proof {
        let t = out_tail(out@, start.len() as int);
        assert(t + Seq::<Fk>::empty() =~= t);
        assert forall|j: int| 0 <= j < n implies (
        #[trigger] out@[start.len() + j]).create_tx_fk == want.0[j] by {
            assert(t[j] == out@[start.len() + j].create_tx_fk);
        }
    }
    Ok(n)
}

/// Creates of the records from `lo` on.
spec fn out_tail(recs: Seq<ScriptHashRecord>, lo: int) -> Seq<Fk> {
    Seq::new((recs.len() - lo) as nat, |j: int| recs[lo + j].create_tx_fk)
}

impl Ranked for ScriptHashRecord {
    /// Order of the hashes.
    open spec fn rank(&self) -> nat {
        be_nat(self.scripthash@)
    }

    fn rank_le(&self, other: &Self) -> (r: bool) {
        proof {
            assert(self.scripthash@.subrange(0, 32) =~= self.scripthash@);
            assert(other.scripthash@.subrange(0, 32) =~= other.scripthash@);
        }
        match bytes_order(self.scripthash.as_slice(), 0, other.scripthash.as_slice(), 0, 32) {
            Cmp3::More => false,
            _ => true,
        }
    }
}

/// Totals of a migration.
#[derive(Clone, Copy, Debug, PartialEq, Eq, Structural)]
pub struct MigrateTotals {
    pub keys: usize,
    pub empty_chains: usize,
    pub creates: u64,
}

/// Heads with a list that holds a create, among the first `i`.
pub open spec fn count_live(body: Seq<u8>, heads: Seq<([u8; 32], Fk)>, i: int) -> nat
    decreases i,
{
    if i <= 0 {
        0
    } else {
        count_live(body, heads, i - 1) + if v3_chain(body, heads[i - 1].1).0.len() > 0 {
            1nat
        } else {
            0nat
        }
    }
}

/// Rows with a create in the lists of the first `i` heads.
pub open spec fn count_rows(body: Seq<u8>, heads: Seq<([u8; 32], Fk)>, i: int) -> nat
    decreases i,
{
    if i <= 0 {
        0
    } else {
        count_rows(body, heads, i - 1) + v3_chain(body, heads[i - 1].1).0.len()
    }
}

/// The creates of all keys in the old form.
pub open spec fn v3_creates(body: Seq<u8>, heads: Seq<([u8; 32], Fk)>) -> Set<(Seq<u8>, u64)> {
    Set::new(|p: (Seq<u8>, u64)| v3_asked(body, heads, p.0, p.1))
}

/// A body may not hold what these many rows could take.
pub open spec fn rows_too_many(rows: int) -> bool {
    4096 + 64 * rows + step_room() > SH_BODY_MAX || 4096 + 64 * rows + step_room() > usize::MAX
}

/// Hashes with the same first 16 bytes are equal.
pub open spec fn heads_apart(heads: Seq<([u8; 32], Fk)>) -> bool {
    forall|i: int, j: int|
        0 <= i < heads.len() && 0 <= j < heads.len() && key16((#[trigger] heads[i]).0@) == key16(
            (#[trigger] heads[j]).0@,
        ) ==> heads[i].0@ == heads[j].0@
}

/// The creates of a key in the old form, in order and without repeats.
pub open spec fn v3_key_list(
    l: Seq<Fk>,
    body: Seq<u8>,
    heads: Seq<([u8; 32], Fk)>,
    k: Seq<u8>,
) -> bool {
    &&& forall|i: int, j: int|
        0 <= i < j < l.len() ==> (#[trigger] l[i]).0 < (#[trigger] l[j]).0
    &&& forall|i: int| 0 <= i < l.len() ==> v3_asked(body, heads, k, (#[trigger] l[i]).0)
    &&& forall|x: u64| #[trigger] v3_asked(body, heads, k, x) ==> l.contains(Fk(x))
}

/// The records are those of the first `i` heads.
spec fn gathered(
    recs: Seq<ScriptHashRecord>,
    body: Seq<u8>,
    heads: Seq<([u8; 32], Fk)>,
    i: int,
) -> bool {
    &&& forall|m: int|
        0 <= m < recs.len() ==> (#[trigger] recs[m]).create_tx_fk.0 != 0 && exists|h: int|
            0 <= h < i && (#[trigger] heads[h]).0 == recs[m].scripthash && v3_chain(
                body,
                heads[h].1,
            ).0.contains(recs[m].create_tx_fk)
    &&& forall|h: int, c: Fk|
        0 <= h < i && #[trigger] v3_chain(body, heads[h].1).0.contains(c) ==> rec_with(
            recs,
            heads[h].0,
            c,
        )
}

spec fn rec_with(recs: Seq<ScriptHashRecord>, h: [u8; 32], c: Fk) -> bool {
    exists|m: int|
        0 <= m < recs.len() && (#[trigger] recs[m]).scripthash == h && recs[m].create_tx_fk == c
}

proof fn lemma_chain_nonzero(body: Seq<u8>, id: u64, fuel: nat)
    ensures
        forall|j: int|
            0 <= j < v3_list(body, id, fuel).0.len() ==> (#[trigger] v3_list(
                body,
                id,
                fuel,
            ).0[j]).0 != 0,
    decreases fuel,
{
    if !(id == 0 || id > body.len() / 20) && fuel > 0 {
        lemma_chain_nonzero(body, row_next(body, id as int), (fuel - 1) as nat);
        let l = v3_list(body, id, fuel).0;
        let r = v3_list(body, row_next(body, id as int), (fuel - 1) as nat).0;
        assert forall|j: int| 0 <= j < l.len() implies (#[trigger] l[j]).0 != 0 by {
            if row_create(body, id as int) == 0 {
                assert(l[j] == r[j]);
            } else if j > 0 {
                assert(l[j] == r[j - 1]);
            }
        }
    }
}

/// Gathers the records of all heads.
fn gather(body: &[u8], heads: &[([u8; 32], Fk)]) -> (r: Result<
    (Vec<ScriptHashRecord>, usize),
    StoreError,
>)
    ensures
        match r {
            Ok((recs, keys)) => {
                &&& forall|i: int|
                    0 <= i < heads@.len() ==> v3_chain(body@, (#[trigger] heads@[i]).1).1
                &&& gathered(recs@, body@, heads@, heads@.len() as int)
                &&& keys == count_live(body@, heads@, heads@.len() as int)
                &&& keys <= heads@.len()
                &&& recs@.len() == count_rows(body@, heads@, heads@.len() as int)
            },
            Err(e) => e == StoreError::Corrupt("v3 scripthash chain cycle") && exists|i: int|
                0 <= i < heads@.len() && !v3_chain(body@, (#[trigger] heads@[i]).1).1,
        },
{
    let mut recs: Vec<ScriptHashRecord> = Vec::new();
    let mut keys: usize = 0;
    let mut i: usize = 0;
    while i < heads.len()
        invariant
            i <= heads@.len(),
            forall|j: int| 0 <= j < i ==> v3_chain(body@, (#[trigger] heads@[j]).1).1,
            gathered(recs@, body@, heads@, i as int),
            keys == count_live(body@, heads@, i as int),
            keys <= i,
            recs@.len() == count_rows(body@, heads@, i as int),
        decreases heads@.len() - i,
    {
        let (key, head) = heads[i];
        let ghost before = recs@;
        let n: usize = match collect_chain(body, &key, head, &mut recs) {
            Ok(n) => n,
            Err(e) => {
                assert(!v3_chain(body@, heads@[i as int].1).1);
                return Err(e);
            },
        };
        if n > 0 {
            keys += 1;
        }
        proof {
            lemma_gather_step(before, recs@, body@, heads@, i as int);
        }
        i += 1;
    }
    Ok((recs, keys))
}

proof fn lemma_gather_step(
    a: Seq<ScriptHashRecord>,
    b: Seq<ScriptHashRecord>,
    body: Seq<u8>,
    heads: Seq<([u8; 32], Fk)>,
    i: int,
)
    requires
        0 <= i < heads.len(),
        gathered(a, body, heads, i),
        ({
            let c = v3_chain(body, heads[i].1).0;
            &&& b.len() == a.len() + c.len()
            &&& forall|j: int| 0 <= j < a.len() ==> b[j] == a[j]
            &&& forall|j: int|
                0 <= j < c.len() ==> (#[trigger] b[a.len() + j]).scripthash == heads[i].0
                    && b[a.len() + j].create_tx_fk == c[j]
        }),
    ensures
        gathered(b, body, heads, i + 1),
{
    let c = v3_chain(body, heads[i].1).0;
    lemma_chain_nonzero(body, heads[i].1.0, body.len() / 20);
    assert forall|m: int| 0 <= m < b.len() implies (#[trigger] b[m]).create_tx_fk.0 != 0 && exists|
        h: int,
    |
        0 <= h < i + 1 && (#[trigger] heads[h]).0 == b[m].scripthash && v3_chain(
            body,
            heads[h].1,
        ).0.contains(b[m].create_tx_fk) by {
        if m < a.len() {
            assert(b[m] == a[m]);
            let h = choose|h: int|
                0 <= h < i && (#[trigger] heads[h]).0 == a[m].scripthash && v3_chain(
                    body,
                    heads[h].1,
                ).0.contains(a[m].create_tx_fk);
            assert(heads[h].0 == b[m].scripthash);
        } else {
            let j = m - a.len();
            assert(b[a.len() + j] == b[m]);
            assert(c[j] == b[m].create_tx_fk);
            assert(c.contains(b[m].create_tx_fk));
            assert(heads[i].0 == b[m].scripthash);
        }
    }
    assert forall|h: int, x: Fk|
        0 <= h < i + 1 && #[trigger] v3_chain(body, heads[h].1).0.contains(x) implies rec_with(
        b,
        heads[h].0,
        x,
    ) by {
        if h < i {
            assert(rec_with(a, heads[h].0, x));
            let m = choose|m: int|
                0 <= m < a.len() && (#[trigger] a[m]).scripthash == heads[h].0
                    && a[m].create_tx_fk == x;
            assert(b[m] == a[m]);
        } else {
            let j = choose|j: int| 0 <= j < c.len() && c[j] == x;
            assert(b[a.len() + j].create_tx_fk == x);
        }
    }
}

/// What the sorted records ask for is what the heads lead to.
proof fn lemma_sorted_asked(
    recs: Seq<ScriptHashRecord>,
    sorted: Seq<ScriptHashRecord>,
    body: Seq<u8>,
    heads: Seq<([u8; 32], Fk)>,
    k: Seq<u8>,
    x: u64,
)
    requires
        gathered(recs, body, heads, heads.len() as int),
        sorted.to_multiset() == recs.to_multiset(),
    ensures
        asked(sorted, k, x) <==> v3_asked(body, heads, k, x),
{
    if asked(sorted, k, x) {
        let i = choose|i: int|
            0 <= i < sorted.len() && key16((#[trigger] sorted[i]).scripthash@) == k
                && sorted[i].create_tx_fk.0 == x;
        let m = lemma_same_items(sorted, recs, i);
        let h = choose|h: int|
            0 <= h < heads.len() && (#[trigger] heads[h]).0 == recs[m].scripthash && v3_chain(
                body,
                heads[h].1,
            ).0.contains(recs[m].create_tx_fk);
        assert(key16(heads[h].0@) == k);
        assert(recs[m].create_tx_fk == Fk(x));
    }
    if v3_asked(body, heads, k, x) {
        let h = choose|h: int|
            0 <= h < heads.len() && key16((#[trigger] heads[h]).0@) == k && v3_chain(
                body,
                heads[h].1,
            ).0.contains(Fk(x));
        assert(rec_with(recs, heads[h].0, Fk(x)));
        let m = choose|m: int|
            0 <= m < recs.len() && (#[trigger] recs[m]).scripthash == heads[h].0
                && recs[m].create_tx_fk == Fk(x);
        let i = lemma_same_items(recs, sorted, m);
        assert(sorted[i] == recs[m]);
    }
}

/// Sorted records come in the order of a load.
proof fn lemma_sorted_keys(
    recs: Seq<ScriptHashRecord>,
    sorted: Seq<ScriptHashRecord>,
    body: Seq<u8>,
    heads: Seq<([u8; 32], Fk)>,
)
    requires
        gathered(recs, body, heads, heads.len() as int),
        sorted.to_multiset() == recs.to_multiset(),
        sorted_by_rank(sorted),
        heads_apart(heads),
    ensures
        keys_sorted(sorted),
{
    assert forall|i: int, j: int| 0 <= i < j < sorted.len() implies be_nat(
        key16((#[trigger] sorted[i]).scripthash@),
    ) < be_nat(key16((#[trigger] sorted[j]).scripthash@)) || sorted[i].scripthash@
        == sorted[j].scripthash@ by {
        let a = sorted[i].scripthash@;
        let b = sorted[j].scripthash@;
        assert(sorted[i].rank() <= sorted[j].rank());
        lemma_be_front(a, b, 16);
        if be_nat(key16(a)) == be_nat(key16(b)) {
            lemma_be_injective(key16(a), key16(b));
            let m = lemma_same_items(sorted, recs, i);
            let n = lemma_same_items(sorted, recs, j);
            let h = choose|h: int|
                0 <= h < heads.len() && (#[trigger] heads[h]).0 == recs[m].scripthash && v3_chain(
                    body,
                    heads[h].1,
                ).0.contains(recs[m].create_tx_fk);
            let g = choose|g: int|
                0 <= g < heads.len() && (#[trigger] heads[g]).0 == recs[n].scripthash && v3_chain(
                    body,
                    heads[g].1,
                ).0.contains(recs[n].create_tx_fk);
            assert(heads[h].0@ == heads[g].0@);
        }
    }
}

/// Builds the table from the rows and heads of the old form.
#[verifier::rlimit(40)]
pub fn migrate_scripthash(scale: HeadScale, body: &[u8], heads: &[([u8; 32], Fk)]) -> (r: Result<
    (ScriptHashTable, MigrateTotals),
    StoreError,
>)
    ensures
        match r {
            Ok((t, totals)) => {
                &&& body@.len() % 20 == 0
                &&& t.wf()
                &&& totals.keys == count_live(body@, heads@, heads@.len() as int)
                &&& totals.keys + totals.empty_chains == heads@.len()
                &&& heads_apart(heads@) ==> converted(&t, body@, heads@)
                &&& heads_apart(heads@) ==> v3_creates(body@, heads@).finite() && totals.creates
                    == v3_creates(body@, heads@).len()
                &&& t.live() == totals.creates
                &&& heads_apart(heads@) && totals.creates < u64::MAX ==> counts_exact(&t)
            },
            Err(e) => {
                &&& body@.len() % 20 != 0 ==> e == StoreError::Corrupt(
                    "v3 scripthash body size not multiple of 20",
                )
                &&& body@.len() % 20 == 0 && (exists|i: int|
                    0 <= i < heads@.len() && !v3_chain(body@, (#[trigger] heads@[i]).1).1) ==> e
                    == StoreError::Corrupt("v3 scripthash chain cycle")
                &&& body@.len() % 20 == 0 && (forall|i: int|
                    0 <= i < heads@.len() ==> v3_chain(body@, (#[trigger] heads@[i]).1).1)
                    && heads_apart(heads@) && (forall|k: Seq<u8>, x: u64| #[trigger]
                    v3_asked(body@, heads@, k, x) ==> x < 0x8000_0000_0000_0000) ==> e
                    == StoreError::Io("scripthash body cannot grow")
                &&& e == StoreError::Io("scripthash body cannot grow") ==> rows_too_many(
                    count_rows(body@, heads@, heads@.len() as int) as int,
                )
            },
        },
{
    if body.len() % V3_ROW_LEN != 0 {
        return Err(StoreError::Corrupt("v3 scripthash body size not multiple of 20"));
    }
    let (recs, keys) = match gather(body, heads) {
        Ok(v) => v,
        Err(e) => {
            return Err(e);
        },
    };
    let sorted = sort_ranked(&recs);
    let mut table = ScriptHashTable::create(scale);
    let mut session = match table.bulk_session(0) {
        Ok(s) => s,
        Err(e) => {
            return Err(e);
        },
    };
    let ghost s0 = session;
    let ghost t0 = table;
    proof {
        assert forall|k: Seq<u8>| k.len() == 16 implies !#[trigger] in_ovf(&t0, k) by {
            crate::scripthash::law_empty_heads(&t0, k);
        }
        if heads_apart(heads@) {
            lemma_sorted_keys(recs@, sorted@, body@, heads@);
            assert(all_follow(&s0, t0.n_shards as int, sorted@, 0)) by {
                assert forall|m: int|
                    0 <= m < sorted@.len() && (#[trigger] sorted@[m]).create_tx_fk.0
                        != 0 implies crate::scripthash_bulk::follows(
                    &s0,
                    t0.n_shards as int,
                    sorted@[m].scripthash@,
                ) by {
                    crate::scripthash_bulk::lemma_shard_range(&t0, sorted@[m].scripthash@);
                }
            }
            if forall|k: Seq<u8>, x: u64| #[trigger]
                v3_asked(body@, heads@, k, x) ==> x < 0x8000_0000_0000_0000 {
                assert forall|m: int| 0 <= m < sorted@.len() implies (
                #[trigger] sorted@[m]).create_tx_fk.0 < 0x8000_0000_0000_0000 by {
                    let k = key16(sorted@[m].scripthash@);
                    let x = sorted@[m].create_tx_fk.0;
                    lemma_sorted_asked(recs@, sorted@, body@, heads@, k, x);
                    if x != 0 {
                        assert(asked(sorted@, k, x));
                    }
                }
                assert(fks_below(sorted@));
            }
        }
    }
    let written: usize = match session.put_sorted_creates(&mut table, sorted.as_slice()) {
        Ok(n) => n,
        Err(e) => {
            proof {
                if e == StoreError::Io("scripthash body cannot grow") {
                    lemma_room_end(&s0, &t0, sorted@.len() as int);
                }
            }
            return Err(e);
        },
    };
    let ghost s1 = session;
    let ghost t1 = table;
    match session.finish(&mut table) {
        Ok(_) => {},
        Err(e) => {
            proof {
                lemma_short_before(
                    &s0,
                    &t0,
                    &s1,
                    &t1,
                    64 * sorted@.len() as int,
                    step_room(),
                    64 * sorted@.len() as int + step_room(),
                );
                lemma_room_end(&s0, &t0, sorted@.len() as int);
            }
            return Err(e);
        },
    }
    proof {
        if heads_apart(heads@) {
            lemma_fresh_pairs(sorted@, sorted@.len() as int);
            assert(pairs_named(sorted@, sorted@.len() as int) =~= v3_creates(body@, heads@)) by {
                assert forall|p: (Seq<u8>, u64)|
                    pairs_named(sorted@, sorted@.len() as int).contains(p) == v3_creates(
                        body@,
                        heads@,
                    ).contains(p) by {
                    lemma_sorted_asked(recs@, sorted@, body@, heads@, p.0, p.1);
                    assert(sorted@.subrange(0, sorted@.len() as int) =~= sorted@);
                }
            }
            assert(records_loaded(&s0, &t0, &s1, &t1, sorted@));
            assert forall|k: Seq<u8>| k.len() == 16 implies v3_key_list(
                #[trigger] table.creates(k),
                body@,
                heads@,
                k,
            ) by {
                let l = table.creates(k);
                assert(l == loaded(&s1, &t1, k));
                assert(loaded(&s0, &t0, k) == Seq::<Fk>::empty());
                assert forall|x: u64| #[trigger] asked(sorted@, k, x) <==> v3_asked(
                    body@,
                    heads@,
                    k,
                    x,
                ) by {
                    lemma_sorted_asked(recs@, sorted@, body@, heads@, k, x);
                }
                if any_asked(sorted@, k) {
                    assert(set_list(l, sorted@, k));
                    assert forall|i: int| 0 <= i < l.len() implies v3_asked(
                        body@,
                        heads@,
                        k,
                        (#[trigger] l[i]).0,
                    ) by {
                        assert(asked(sorted@, k, l[i].0));
                    }
                    assert forall|x: u64| #[trigger] v3_asked(body@, heads@, k, x) implies l.contains(
                        Fk(x),
                    ) by {
                        assert(asked(sorted@, k, x));
                    }
                } else {
                    assert forall|x: u64| #[trigger] v3_asked(body@, heads@, k, x) implies l.contains(
                        Fk(x),
                    ) by {
                        assert(asked(sorted@, k, x));
                    }
                }
            }
        }
    }
    Ok((table, MigrateTotals { keys, empty_chains: heads.len() - keys, creates: written as u64 }))
}

/// A new table without room for these rows is one that they may fill.
proof fn lemma_room_end(s: &ScriptHashBulkSession, t: &ScriptHashTable, rows: int)
    requires
        0 <= rows,
        s.open_key is None,
        forall|i: int|
            0 <= i < t.bodies@.len() ==> (#[trigger] t.bodies@[i]).bump == 4096
                && t.bodies@[i].bytes@.len() <= 4096,
        short(s, t, 64 * rows + step_room()) || rows >= usize::MAX,
    ensures
        rows_too_many(rows),
{
    if short(s, t, 64 * rows + step_room()) {
        reveal(short);
        let i = choose|i: int|
            0 <= i < t.bodies@.len() && writes_to(s, t, i) && !(
            #[trigger] t.bodies@[i]).has_space(held(s) + (64 * rows + step_room()));
        assert(t.bodies@[i].bump == 4096);
    }
}

/// The creates that the first `n` records name.
pub(crate) open spec fn pairs_named(recs: Seq<ScriptHashRecord>, n: int) -> Set<(Seq<u8>, u64)> {
    Set::new(|p: (Seq<u8>, u64)| asked(recs.subrange(0, n), p.0, p.1))
}

/// Of records in order every create is new once.
pub(crate) proof fn lemma_fresh_pairs(recs: Seq<ScriptHashRecord>, n: int)
    requires
        keys_sorted(recs),
        0 <= n <= recs.len(),
    ensures
        pairs_named(recs, n).finite(),
        pairs_named(recs, n).len() == count_fresh(recs, n),
    decreases n,
{
    if n == 0 {
        assert(pairs_named(recs, n) =~= Set::empty());
    } else {
        lemma_fresh_pairs(recs, n - 1);
        let a = recs.subrange(0, n - 1);
        let b = recs.subrange(0, n);
        let r = recs[n - 1];
        let p = (key16(r.scripthash@), r.create_tx_fk.0);
        let old_set = pairs_named(recs, n - 1);
        assert(b =~= a.push(r));
        assert forall|q: (Seq<u8>, u64)| pairs_named(recs, n).contains(q) == (old_set.contains(q)
            || (p.1 != 0 && q == p)) by {
            lemma_asked_push(a, r, q.0, q.1);
        }
        if p.1 != 0 {
            assert(old_set.contains(p) <==> !fresh_at(recs, n - 1)) by {
                if old_set.contains(p) {
                    let i = choose|i: int|
                        0 <= i < a.len() && key16((#[trigger] a[i]).scripthash@) == p.0
                            && a[i].create_tx_fk.0 == p.1;
                    assert(a[i] == recs[i]);
                    assert(same_run(recs, i, n - 1)) by {
                        assert forall|m: int| i <= m < n - 1 implies (
                        #[trigger] recs[m]).scripthash@ == recs[n - 1].scripthash@ by {
                            assert(be_nat(key16(recs[i].scripthash@)) < be_nat(
                                key16(recs[n - 1].scripthash@),
                            ) || recs[i].scripthash@ == recs[n - 1].scripthash@);
                            if i < m {
                                assert(be_nat(key16(recs[i].scripthash@)) < be_nat(
                                    key16(recs[m].scripthash@),
                                ) || recs[i].scripthash@ == recs[m].scripthash@);
                            }
                        }
                    }
                    assert(recs[i].create_tx_fk == recs[n - 1].create_tx_fk);
                }
                if !fresh_at(recs, n - 1) {
                    let j = choose|j: int| #[trigger]
                        same_run(recs, j, n - 1) && recs[j].create_tx_fk
                            == recs[n - 1].create_tx_fk;
                    assert(a[j] == recs[j]);
                }
            }
        }
        if fresh_at(recs, n - 1) {
            assert(pairs_named(recs, n) =~= old_set.insert(p));
        } else {
            assert(pairs_named(recs, n) =~= old_set);
        }
    }
}

/// The body has an allocator header behind its file header.
pub open spec fn has_shal(body: Seq<u8>) -> bool {
    body.len() >= 20 && body.subrange(16, 20) == SH_ALLOC_MAGIC@
}

/// True if the body file is of the present form.
pub fn body_has_shal(body: &[u8]) -> (r: bool)
    ensures
        r == has_shal(body@),
{
    body.len() >= 20 && bytes_at(body, 16, SH_ALLOC_MAGIC.as_slice())
}

/// True if a body file of this length is taken for one of the old form.
pub fn is_v3_body(shal: bool, len: u64) -> (r: bool)
    ensures
        r == (!shal && len >= 16 && (len - 16) % 20 == 0),
{
    !shal && len >= 16 && (len - 16) % 20 == 0
}

/// What is there of the index, of a migration and of its backup.
#[derive(Clone, Copy, Debug, PartialEq, Eq, Structural)]
pub struct MigrateFiles {
    pub body_exists: bool,
    pub body_shal: bool,
    pub body_v3: bool,
    pub head_exists: bool,
    pub work_exists: bool,
    pub backup_exists: bool,
    pub bak_body_exists: bool,
    pub bak_body_v3: bool,
    pub bak_head_exists: bool,
}

/// Steps that clear up after a migration that was broken off, in this order.
#[derive(Clone, Copy, Debug, PartialEq, Eq, Structural)]
pub struct RecoverPlan {
    /// Remove the directory of the incomplete build.
    pub drop_work: bool,
    /// Write the present schema number.
    pub stamp: bool,
    /// Remove what is left of body and head, and bring the body back.
    pub restore_body: bool,
    /// Bring the head back.
    pub restore_head: bool,
    /// Remove the backup.
    pub drop_backup: bool,
}

/// The body in place is of the present form.
pub open spec fn primary_done(f: MigrateFiles) -> bool {
    f.body_exists && f.body_shal
}

/// The old form lives in the backup only.
pub open spec fn must_restore(f: MigrateFiles) -> bool {
    &&& f.backup_exists
    &&& f.bak_body_exists
    &&& !f.body_exists || !f.head_exists || (!f.body_v3 && !f.body_shal)
}

/// The steps that a state of the files calls for.
pub open spec fn recover_plan(f: MigrateFiles) -> RecoverPlan {
    let restore = !primary_done(f) && must_restore(f);
    RecoverPlan {
        drop_work: f.work_exists,
        stamp: primary_done(f),
        restore_body: restore,
        restore_head: restore && f.bak_head_exists,
        drop_backup: f.backup_exists && (primary_done(f) || (if must_restore(f) {
            f.bak_body_v3
        } else {
            f.body_exists && f.body_v3
        })),
    }
}

/// How to clear up after a migration that was broken off: an incomplete build goes;
/// a body of the present form is done; a body or head that is missing comes back
/// from the backup; a backup beside a whole old body goes.
pub fn recover_partial_state(f: MigrateFiles) -> (p: RecoverPlan)
    ensures
        p == recover_plan(f),
{
    if f.body_exists && f.body_shal {
        return RecoverPlan {
            drop_work: f.work_exists,
            stamp: true,
            restore_body: false,
            restore_head: false,
            drop_backup: f.backup_exists,
        };
    }
    let need = !f.body_exists || !f.head_exists || (!f.body_v3 && !f.body_shal);
    let restore = f.backup_exists && need && f.bak_body_exists;
    let v3 = if restore {
        f.bak_body_v3
    } else {
        f.body_exists && f.body_v3
    };
    RecoverPlan {
        drop_work: f.work_exists,
        stamp: false,
        restore_body: restore,
        restore_head: restore && f.bak_head_exists,
        drop_backup: f.backup_exists && v3,
    }
}

/// What is there once the plan was carried out.
pub open spec fn recovered(f: MigrateFiles, p: RecoverPlan) -> MigrateFiles {
    MigrateFiles {
        body_exists: f.body_exists || p.restore_body,
        body_shal: f.body_shal && !p.restore_body,
        body_v3: if p.restore_body {
            f.bak_body_v3
        } else {
            f.body_v3
        },
        head_exists: if p.restore_body {
            p.restore_head
        } else {
            f.head_exists
        },
        work_exists: false,
        backup_exists: f.backup_exists && !p.drop_backup,
        bak_body_exists: f.bak_body_exists && !p.restore_body && !p.drop_backup,
        bak_body_v3: f.bak_body_v3 && !p.restore_body && !p.drop_backup,
        bak_head_exists: f.bak_head_exists && !p.restore_head && !p.drop_backup,
    }
}

/// A migration that was broken off loses nothing: where the backup holds a whole old
/// form and the index is not of the present form, a whole old form is in place after
/// recovery, and there is no incomplete build.
pub proof fn law_recovery_keeps_index(f: MigrateFiles)
    requires
        f.backup_exists && f.bak_body_exists && f.bak_body_v3 && f.bak_head_exists,
        !primary_done(f),
    ensures
        ({
            let g = recovered(f, recover_plan(f));
            g.body_exists && g.body_v3 && g.head_exists && !g.work_exists
        }),
{
}

/// What a migration has to do.
#[derive(Clone, Copy, Debug, PartialEq, Eq, Structural)]
pub enum MigrateAction {
    /// Write the schema number only.
    Stamp,
    /// Write the schema number and remove side directories.
    StampAndClean,
    /// Convert rows to slabs and pages.
    Convert,
}

/// What a migration has to do for such a body.
pub open spec fn action_for(body_exists: bool, body_shal: bool) -> MigrateAction {
    if !body_exists {
        MigrateAction::Stamp
    } else if body_shal {
        MigrateAction::StampAndClean
    } else {
        MigrateAction::Convert
    }
}

/// What a migration has to do after recovery.
pub fn migrate_action(body_exists: bool, body_shal: bool) -> (r: MigrateAction)
    ensures
        r == action_for(body_exists, body_shal),
{
    if !body_exists {
        return MigrateAction::Stamp;
    }
    if body_shal {
        return MigrateAction::StampAndClean;
    }
    MigrateAction::Convert
}

/// What is there once a migration has done what it has to do. A conversion puts the new
/// body and head in place of the old ones and removes the build and the backup.
pub open spec fn acted(f: MigrateFiles, a: MigrateAction) -> MigrateFiles {
    match a {
        MigrateAction::Stamp => f,
        MigrateAction::StampAndClean => MigrateFiles {
            work_exists: false,
            backup_exists: false,
            bak_body_exists: false,
            bak_body_v3: false,
            bak_head_exists: false,
            ..f
        },
        MigrateAction::Convert => MigrateFiles {
            body_exists: true,
            body_shal: true,
            body_v3: false,
            head_exists: true,
            work_exists: false,
            backup_exists: false,
            bak_body_exists: false,
            bak_body_v3: false,
            bak_head_exists: false,
        },
    }
}

/// What a migration does to the files: recovery, and then what is left to do.
pub open spec fn migrated(f: MigrateFiles) -> MigrateFiles {
    let g = recovered(f, recover_plan(f));
    acted(g, action_for(g.body_exists, g.body_shal))
}

/// A whole old form is in place, or in the backup.
pub open spec fn old_form_kept(f: MigrateFiles) -> bool {
    ||| f.body_exists && f.body_v3 && f.head_exists
    ||| f.backup_exists && f.bak_body_exists && f.bak_body_v3 && f.bak_head_exists
}

/// The table holds what the rows and heads of the old form hold.
pub open spec fn converted(t: &ScriptHashTable, body: Seq<u8>, heads: Seq<([u8; 32], Fk)>) -> bool {
    forall|k: Seq<u8>|
        k.len() == 16 ==> v3_key_list(#[trigger] t.creates(k), body, heads, k)
}

/// A migration as a whole, from whatever a migration that was broken off left: the old form
/// is in place for the conversion; then the new form is, with a head, and neither a build nor
/// a backup; every key has the creates that it had, each once. A second migration converts
/// nothing and leaves the files as they are.
pub proof fn law_migration(
    f: MigrateFiles,
    t: &ScriptHashTable,
    body: Seq<u8>,
    heads: Seq<([u8; 32], Fk)>,
)
    requires
        !primary_done(f),
        old_form_kept(f),
        converted(t, body, heads),
    ensures
        ({
            let g = recovered(f, recover_plan(f));
            &&& g.body_exists && g.body_v3 && g.head_exists && !g.work_exists
            &&& action_for(g.body_exists, g.body_shal) == MigrateAction::Convert
        }),
        ({
            let h = migrated(f);
            &&& primary_done(h) && h.head_exists && !h.work_exists && !h.backup_exists
            &&& action_for(h.body_exists, h.body_shal) == MigrateAction::StampAndClean
            &&& !recover_plan(h).restore_body && !recover_plan(h).restore_head
            &&& migrated(h) == h
        }),
        forall|k: Seq<u8>, x: u64|
            k.len() == 16 ==> (#[trigger] t.creates(k).contains(Fk(x)) <==> v3_asked(
                body,
                heads,
                k,
                x,
            )),
        forall|k: Seq<u8>| k.len() == 16 ==> (#[trigger] t.creates(k)).no_duplicates(),
{
    assert forall|k: Seq<u8>, x: u64| k.len() == 16 implies (#[trigger] t.creates(k).contains(Fk(x))
        <==> v3_asked(body, heads, k, x)) by {
        let l = t.creates(k);
        assert(v3_key_list(l, body, heads, k));
        if l.contains(Fk(x)) {
            let i = choose|i: int| 0 <= i < l.len() && l[i] == Fk(x);
            assert(v3_asked(body, heads, k, l[i].0));
        }
    }
    assert forall|k: Seq<u8>| k.len() == 16 implies (#[trigger] t.creates(k)).no_duplicates() by {
        let l = t.creates(k);
        assert(v3_key_list(l, body, heads, k));
        assert forall|i: int, j: int| 0 <= i < l.len() && 0 <= j < l.len() && i != j implies l[i]
            != l[j] by {
            if i < j {
                assert(l[i].0 < l[j].0);
            } else {
                assert(l[j].0 < l[i].0);
            }
        }
    }
}

/// What to do before the tables are opened.
#[derive(Clone, Copy, Debug, PartialEq, Eq, Structural)]
pub enum HybridAction {
    Nothing,
    Migrate,
    Recover,
    StampAndClean,
    /// Recover, and then decide with `recheck_hybrid`.
    RecoverAndRecheck,
}

/// Decides from the store's meta file and the body what to do before the tables are
/// opened. Without a meta file there is no store.
pub fn ensure_scripthash_hybrid(meta: Option<&[u8]>, body_exists: bool, body_shal: bool) -> (r:
    Result<HybridAction, StoreError>)
    ensures
        match meta {
            None => r == Ok::<HybridAction, StoreError>(HybridAction::Nothing),
            Some(m) => if m@.len() < 6 || m@.subrange(0, 4) != STORE_MAGIC@ {
                r == Err::<HybridAction, StoreError>(StoreError::BadMagic)
            } else {
                r == Ok::<HybridAction, StoreError>(
                    hybrid_action(u16_at(m@, 4), body_exists, body_shal),
                )
            },
        },
{
    let m = match meta {
        None => {
            return Ok(HybridAction::Nothing);
        },
        Some(m) => m,
    };
    if m.len() < 6 || !bytes_at(m, 0, STORE_MAGIC.as_slice()) {
        return Err(StoreError::BadMagic);
    }
    let ver: u16 = get_u16(m, 4);
    if ver == SCHEMA_VERSION {
        if body_exists && !body_shal {
            return Ok(HybridAction::Migrate);
        }
        return Ok(HybridAction::Recover);
    }
    if ver == PREV_SCHEMA {
        return Ok(HybridAction::Migrate);
    }
    if body_exists && body_shal {
        return Ok(HybridAction::StampAndClean);
    }
    Ok(HybridAction::RecoverAndRecheck)
}

/// What to do for a schema number and a body.
pub open spec fn hybrid_action(ver: u16, body_exists: bool, body_shal: bool) -> HybridAction {
    if ver == SCHEMA_VERSION {
        if body_exists && !body_shal {
            HybridAction::Migrate
        } else {
            HybridAction::Recover
        }
    } else if ver == PREV_SCHEMA {
        HybridAction::Migrate
    } else if body_exists && body_shal {
        HybridAction::StampAndClean
    } else {
        HybridAction::RecoverAndRecheck
    }
}

/// The decision after recovery: migrate, or refuse the schema number.
pub fn recheck_hybrid(ver: u16, body_exists: bool, body_shal: bool) -> (r: Result<(), StoreError>)
    ensures
        match r {
            Ok(_) => ver == PREV_SCHEMA || (body_exists && !body_shal),
            Err(e) => !(ver == PREV_SCHEMA || (body_exists && !body_shal)) && e
                == StoreError::BadSchema(ver),
        },
{
    if ver == PREV_SCHEMA || (body_exists && !body_shal) {
        return Ok(());
    }
    Err(StoreError::BadSchema(ver))
}

/// Writes a schema number behind the magic of a file. `None` for a file of another
/// kind.
pub fn stamp_store_schema(file: &[u8], schema: u16) -> (r: Option<Vec<u8>>)
    ensures
        match r {
            Some(v) => {
                &&& file@.len() >= 6
                &&& file@.subrange(0, 4) == STORE_MAGIC@
                &&& v@ == overlay(file@, 4, le16(schema))
            },
            None => file@.len() < 6 || file@.subrange(0, 4) != STORE_MAGIC@,
        },
{
    if file.len() < 6 || !bytes_at(file, 0, STORE_MAGIC.as_slice()) {
        return None;
    }
    let mut v = crate::bytes::copy_range(file, 0, file.len());
    let mut s: Vec<u8> = Vec::new();
    crate::bytes::push_u16(&mut s, schema);
    proof {
        crate::bytes::lemma_le_seq_len(schema as nat, 2);
        assert(s@ =~= le16(schema));
        assert(v@ =~= file@);
    }
    put_bytes(&mut v, 4, s.as_slice());
    Some(v)
}

/// The file reads as of the schema that it was stamped with.
pub proof fn law_stamp(file: Seq<u8>, schema: u16)
    requires
        file.len() >= 6,
    ensures
        overlay(file, 4, le16(schema)).len() == file.len(),
        overlay(file, 4, le16(schema)).subrange(0, 4) == file.subrange(0, 4),
        u16_at(overlay(file, 4, le16(schema)), 4) == schema,
{
    crate::bytes::lemma_p256_values();
    crate::bytes::lemma_le_nat_of_seq(schema as nat, 2);
    crate::bytes::lemma_overlay_at(file, 4, le16(schema));
    crate::bytes::lemma_overlay_frame(file, 4, le16(schema), 0, 4);
}

/// The name ends in this.
pub open spec fn ends_with(name: Seq<u8>, end: Seq<u8>) -> bool {
    name.len() >= end.len() && name.subrange(name.len() - end.len(), name.len() as int) == end
}

fn name_ends(name: &[u8], end: &[u8]) -> (r: bool)
    ensures
        r == ends_with(name@, end@),
{
    name.len() >= end.len() && bytes_at(name, name.len() - end.len(), end)
}

/// `.runs`
pub const NAME_RUNS: [u8; 5] = [0x2e, 0x72, 0x75, 0x6e, 0x73];

/// `.bak`
pub const NAME_BAK: [u8; 4] = [0x2e, 0x62, 0x61, 0x6b];

/// `scripthash.migrate`
pub const NAME_MIGRATE: [u8; 18] = [
    0x73,
    0x63,
    0x72,
    0x69,
    0x70,
    0x74,
    0x68,
    0x61,
    0x73,
    0x68,
    0x2e,
    0x6d,
    0x69,
    0x67,
    0x72,
    0x61,
    0x74,
    0x65,
];

/// True if stamping leaves this file or directory out: runs, backups and the build of
/// a migration.
pub fn stamp_skips(name: &[u8]) -> (r: bool)
    ensures
        r == (ends_with(name@, NAME_RUNS@) || ends_with(name@, NAME_BAK@) || name@
            == NAME_MIGRATE@),
{
    if name_ends(name, NAME_RUNS.as_slice()) || name_ends(name, NAME_BAK.as_slice()) {
        return true;
    }
    let same = name.len() == 18 && bytes_at(name, 0, NAME_MIGRATE.as_slice());
    proof {
        if name@.len() == 18 {
            assert(name@.subrange(0, 18) =~= name@);
        }
    }
    same
}

} // verus!
