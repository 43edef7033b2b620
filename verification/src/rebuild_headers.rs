//! Repair of the links between header rows.
//!
//! A row's link to its parent is true when the row's hash commits to the parent's
//! hash. The repair links the confirmed chain where that is so, and cuts every
//! link that is false.

use vstd::prelude::*;
use std::collections::{HashMap, HashSet};
use crate::bytes::bytes_at;
use crate::error::StoreError;
use crate::hashing::{block_header_hash, header_bytes, sha256_of};
use crate::primitives::Fk;

verus! {

/// Row of the header table.
#[derive(Clone, Copy, Debug, PartialEq, Eq)]
pub struct HeaderRecord {
    pub prev_fk: Fk,
    pub version: u32,
    pub timestamp: u32,
    pub bits: u32,
    pub nonce: u32,
    pub merkle_root: [u8; 32],
    pub hash: [u8; 32],
}

/// Header rows, and the row of each confirmed height.
pub struct HeaderStore {
    pub rows: Vec<HeaderRecord>,
    pub confirmed: Vec<Fk>,
}

/// What a repair found and did.
#[derive(Debug, Clone, Copy, PartialEq, Eq, Structural)]
pub struct RebuildReport {
    pub header_rows: u64,
    pub tip_height: Option<u32>,
    pub confirmed_relinked: u64,
    pub false_prev_nulled: u64,
    pub resume_walk_before: u64,
    pub resume_walk_after: u64,
    pub null_prev_rows: u64,
    pub wrote: bool,
}

/// Steps of a walk at most.
pub const RESUME_WALK_MAX: u64 = 500_000;

/// The row with another parent.
pub open spec fn with_prev(r: HeaderRecord, prev: Fk) -> HeaderRecord {
    HeaderRecord { prev_fk: prev, ..r }
}

/// The row's hash commits to this parent hash.
pub open spec fn commits(r: HeaderRecord, parent_hash: Seq<u8>) -> bool {
    sha256_of(
        sha256_of(
            header_bytes(r.version, parent_hash, r.merkle_root@, r.timestamp, r.bits, r.nonce),
        ),
    ) == r.hash@
}

/// The row has no parent, or its hash commits to its parent's.
pub open spec fn prev_ok(rows: Seq<HeaderRecord>, r: HeaderRecord) -> bool {
    r.prev_fk.0 == 0 || (r.prev_fk.0 <= rows.len() && commits(r, rows[r.prev_fk.0 - 1].hash@))
}

/// The newest row with this parent.
pub open spec fn best_child(rows: Seq<HeaderRecord>, parent: u64) -> Option<u64>
    decreases rows.len(),
{
    if rows.len() == 0 {
        None
    } else if rows.last().prev_fk.0 == parent {
        Some(rows.len() as u64)
    } else {
        best_child(rows.drop_last(), parent)
    }
}

/// Steps from parent to newest child, until there is none, a row comes again, or
/// `left` steps are done.
pub open spec fn walk_steps(
    rows: Seq<HeaderRecord>,
    cur: u64,
    seen: Set<u64>,
    left: nat,
) -> nat
    decreases left,
{
    if left == 0 {
        0
    } else {
        match best_child(rows, cur) {
            None => 0,
            Some(n) => if seen.contains(n) {
                0
            } else {
                1 + walk_steps(rows, n, seen.insert(n), (left - 1) as nat)
            },
        }
    }
}

/// Rows without a parent.
pub open spec fn count_null(rows: Seq<HeaderRecord>) -> nat
    decreases rows.len(),
{
    if rows.len() == 0 {
        0
    } else {
        count_null(rows.drop_last()) + if rows.last().prev_fk.0 == 0 {
            1nat
        } else {
            0nat
        }
    }
}

/// The link of a confirmed height that a relink sets, if it changes the row.
pub open spec fn relink_to(rows: Seq<HeaderRecord>, confirmed: Seq<Fk>, h: int) -> Option<Fk> {
    let r = rows[confirmed[h].0 - 1];
    if h == 0 {
        if r.prev_fk.0 != 0 {
            Some(Fk(0))
        } else {
            None
        }
    } else if r.prev_fk != confirmed[h - 1] && prev_ok(rows, with_prev(r, confirmed[h - 1])) {
        Some(confirmed[h - 1])
    } else {
        None
    }
}

/// Rows after the first `k` confirmed heights were linked, and how many changed.
pub open spec fn relinked(
    rows: Seq<HeaderRecord>,
    confirmed: Seq<Fk>,
    k: int,
    write: bool,
) -> (Seq<HeaderRecord>, nat)
    decreases k,
{
    if k <= 0 {
        (rows, 0)
    } else {
        let p = relinked(rows, confirmed, k - 1, write);
        let i = confirmed[k - 1].0 - 1;
        match relink_to(p.0, confirmed, k - 1) {
            None => p,
            Some(fk) => (
                if write {
                    p.0.update(i, with_prev(p.0[i], fk))
                } else {
                    p.0
                },
                p.1 + 1,
            ),
        }
    }
}

/// Rows with the false links cut.
pub open spec fn cut_false(rows: Seq<HeaderRecord>) -> Seq<HeaderRecord> {
    rows.map_values(
        |r: HeaderRecord|
            if prev_ok(rows, r) {
                r
            } else {
                with_prev(r, Fk(0))
            },
    )
}

/// False links in the first `k` rows.
pub open spec fn count_false(rows: Seq<HeaderRecord>, k: int) -> nat
    decreases k,
{
    if k <= 0 {
        0
    } else {
        count_false(rows, k - 1) + if prev_ok(rows, rows[k - 1]) {
            0nat
        } else {
            1nat
        }
    }
}

/// What is wrong with the confirmed row of height `h`.
pub open spec fn confirmed_error(rows: Seq<HeaderRecord>, confirmed: Seq<Fk>, h: int) -> Option<
    StoreError,
> {
    if confirmed[h].0 == 0 {
        Some(StoreError::Corrupt("confirmed hole"))
    } else if confirmed[h].0 > rows.len() {
        Some(StoreError::NotFound)
    } else {
        None
    }
}

/// The confirmed rows of the first `k` heights are there.
pub open spec fn confirmed_ok(rows: Seq<HeaderRecord>, confirmed: Seq<Fk>, k: int) -> bool {
    forall|h: int|
        0 <= h < k && h < confirmed.len() ==> 1 <= (#[trigger] confirmed[h]).0 <= rows.len()
}

/// Two lists of rows with the same hashes.
pub open spec fn same_hashes(a: Seq<HeaderRecord>, b: Seq<HeaderRecord>) -> bool {
    a.len() == b.len() && forall|i: int|
        0 <= i < a.len() ==> (#[trigger] a[i]) == with_prev(b[i], a[i].prev_fk)
}

proof fn lemma_prev_ok_same(a: Seq<HeaderRecord>, b: Seq<HeaderRecord>, r: HeaderRecord)
    requires
        same_hashes(a, b),
    ensures
        prev_ok(a, r) == prev_ok(b, r),
{
    if 1 <= r.prev_fk.0 <= a.len() {
        let i = r.prev_fk.0 - 1;
        assert(a[i] == with_prev(b[i], a[i].prev_fk));
    }
}

proof fn lemma_relinked(rows: Seq<HeaderRecord>, confirmed: Seq<Fk>, k: int, write: bool)
    requires
        0 <= k <= confirmed.len(),
        confirmed_ok(rows, confirmed, k),
    ensures
        same_hashes(relinked(rows, confirmed, k, write).0, rows),
        relinked(rows, confirmed, k, write).1 <= k,
        !write ==> relinked(rows, confirmed, k, write).0 == rows,
    decreases k,
{
    if k > 0 {
        assert(confirmed_ok(rows, confirmed, k - 1));
        lemma_relinked(rows, confirmed, k - 1, write);
        let p = relinked(rows, confirmed, k - 1, write).0;
        let i = confirmed[k - 1].0 - 1;
        assert(1 <= confirmed[k - 1].0 <= rows.len());
        let q = relinked(rows, confirmed, k, write).0;
        assert forall|j: int| 0 <= j < q.len() implies (#[trigger] q[j]) == with_prev(
            rows[j],
            q[j].prev_fk,
        ) by {
            assert(p[j] == with_prev(rows[j], p[j].prev_fk));
        }
    }
}

/// A repaired store has no false link, every hash is as before, and a second repair
/// cuts nothing.
pub proof fn law_no_false_links(rows: Seq<HeaderRecord>, i: int)
    requires
        0 <= i < rows.len(),
    ensures
        same_hashes(cut_false(rows), rows),
        prev_ok(cut_false(rows), cut_false(rows)[i]),
        cut_false(cut_false(rows)) == cut_false(rows),
        prev_ok(rows, rows[i]) ==> cut_false(rows)[i] == rows[i],
{
    let c = cut_false(rows);
    assert forall|j: int| 0 <= j < c.len() implies (#[trigger] c[j]) == with_prev(
        rows[j],
        c[j].prev_fk,
    ) by {}
    assert forall|j: int| 0 <= j < c.len() implies prev_ok(c, #[trigger] c[j]) by {
        lemma_prev_ok_same(c, rows, c[j]);
    }
    assert(cut_false(c) =~= c);
}

/// Each confirmed row whose hash commits to the confirmed row below it is linked to
/// that row.
pub proof fn law_confirmed_linked(rows: Seq<HeaderRecord>, confirmed: Seq<Fk>, h: int)
    requires
        confirmed_ok(rows, confirmed, confirmed.len() as int),
        confirmed.no_duplicates(),
        1 <= h < confirmed.len(),
        prev_ok(rows, with_prev(rows[confirmed[h].0 - 1], confirmed[h - 1])),
    ensures
        cut_false(
            relinked(rows, confirmed, confirmed.len() as int, true).0,
        )[confirmed[h].0 - 1].prev_fk == confirmed[h - 1],
{
    lemma_linked(rows, confirmed, h, confirmed.len() as int);
    lemma_relinked(rows, confirmed, confirmed.len() as int, true);
    let q = relinked(rows, confirmed, confirmed.len() as int, true).0;
    let i = confirmed[h].0 - 1;
    assert(1 <= confirmed[h].0 <= rows.len());
    assert(q[i] == with_prev(rows[i], q[i].prev_fk));
    lemma_prev_ok_same(q, rows, q[i]);
}

proof fn lemma_linked(rows: Seq<HeaderRecord>, confirmed: Seq<Fk>, h: int, k: int)
    requires
        confirmed_ok(rows, confirmed, confirmed.len() as int),
        confirmed.no_duplicates(),
        1 <= h < confirmed.len(),
        0 <= k <= confirmed.len(),
        prev_ok(rows, with_prev(rows[confirmed[h].0 - 1], confirmed[h - 1])),
    ensures
        k > h ==> relinked(rows, confirmed, k, true).0[confirmed[h].0 - 1].prev_fk == confirmed[h
            - 1],
    decreases k,
{
    if k > h {
        assert(confirmed_ok(rows, confirmed, k - 1));
        lemma_linked(rows, confirmed, h, k - 1);
        lemma_relinked(rows, confirmed, k - 1, true);
        let p = relinked(rows, confirmed, k - 1, true).0;
        let i = confirmed[h].0 - 1;
        assert(1 <= confirmed[h].0 <= rows.len());
        assert(1 <= confirmed[k - 1].0 <= rows.len());
        if k - 1 > h {
            assert(confirmed[k - 1] != confirmed[h]);
        } else {
            assert(p[i] == with_prev(rows[i], p[i].prev_fk));
            assert(with_prev(p[i], confirmed[h - 1]) == with_prev(rows[i], confirmed[h - 1]));
            lemma_prev_ok_same(p, rows, with_prev(p[i], confirmed[h - 1]));
        }
    }
}

/// The link that height `h` gives its row, if any: none for the first height, and else the
/// row of the height below where the hash commits to it.
pub open spec fn link_wanted(rows: Seq<HeaderRecord>, confirmed: Seq<Fk>, h: int) -> Option<Fk> {
    if h == 0 {
        Some(Fk(0))
    } else if prev_ok(rows, with_prev(rows[confirmed[h].0 - 1], confirmed[h - 1])) {
        Some(confirmed[h - 1])
    } else {
        None
    }
}

/// A row that is confirmed at two heights is given no two links. So it is where no row is
/// confirmed twice.
pub open spec fn links_agree(rows: Seq<HeaderRecord>, confirmed: Seq<Fk>) -> bool {
    forall|g: int, h: int|
        0 <= g < h < confirmed.len() && #[trigger] confirmed[g] == #[trigger] confirmed[h] ==> {
            ||| link_wanted(rows, confirmed, g) is None
            ||| link_wanted(rows, confirmed, h) is None
            ||| link_wanted(rows, confirmed, g) == link_wanted(rows, confirmed, h)
        }
}

/// Once a height gave its row a link, the row has it.
proof fn lemma_link_stays(rows: Seq<HeaderRecord>, confirmed: Seq<Fk>, h: int, k: int)
    requires
        confirmed_ok(rows, confirmed, confirmed.len() as int),
        links_agree(rows, confirmed),
        0 <= h < confirmed.len(),
        0 <= k <= confirmed.len(),
        link_wanted(rows, confirmed, h) is Some,
    ensures
        k > h ==> relinked(rows, confirmed, k, true).0[confirmed[h].0 - 1].prev_fk
            == link_wanted(rows, confirmed, h)->0,
    decreases k,
{
    if k > h {
        let g = k - 1;
        assert(confirmed_ok(rows, confirmed, g));
        lemma_link_stays(rows, confirmed, h, g);
        lemma_relinked(rows, confirmed, g, true);
        let p = relinked(rows, confirmed, g, true).0;
        let i = confirmed[g].0 - 1;
        assert(1 <= confirmed[h].0 <= rows.len());
        assert(1 <= confirmed[g].0 <= rows.len());
        if confirmed[g] == confirmed[h] {
            assert(p[i] == with_prev(rows[i], p[i].prev_fk));
            if g > 0 {
                assert(with_prev(p[i], confirmed[g - 1]) == with_prev(rows[i], confirmed[g - 1]));
                lemma_prev_ok_same(p, rows, with_prev(p[i], confirmed[g - 1]));
            }
        }
    }
}

proof fn lemma_none_false(rows: Seq<HeaderRecord>, k: int)
    requires
        0 <= k <= rows.len(),
        forall|i: int| 0 <= i < rows.len() ==> prev_ok(rows, #[trigger] rows[i]),
    ensures
        count_false(rows, k) == 0,
    decreases k,
{
    if k > 0 {
        lemma_none_false(rows, k - 1);
        assert(prev_ok(rows, rows[k - 1]));
    }
}

/// A second repair right after the first links nothing anew, cuts nothing and leaves every
/// row as it is.
pub proof fn law_second_repair(rows: Seq<HeaderRecord>, confirmed: Seq<Fk>, k: int, write: bool)
    requires
        confirmed_ok(rows, confirmed, confirmed.len() as int),
        links_agree(rows, confirmed),
        0 <= k <= confirmed.len(),
    ensures
        ({
            let fixed = cut_false(relinked(rows, confirmed, confirmed.len() as int, true).0);
            &&& relinked(fixed, confirmed, k, write) == (fixed, 0nat)
            &&& count_false(fixed, fixed.len() as int) == 0
            &&& cut_false(fixed) == fixed
        }),
    decreases k,
{
    let n = confirmed.len() as int;
    let q = relinked(rows, confirmed, n, true).0;
    let fixed = cut_false(q);
    lemma_relinked(rows, confirmed, n, true);
    assert forall|i: int| 0 <= i < fixed.len() implies prev_ok(fixed, #[trigger] fixed[i])
        && fixed[i] == with_prev(rows[i], fixed[i].prev_fk) by {
        law_no_false_links(q, i);
        assert(q[i] == with_prev(rows[i], q[i].prev_fk));
    }
    assert(same_hashes(fixed, rows));
    lemma_none_false(fixed, fixed.len() as int);
    assert(cut_false(fixed) =~= fixed);
    if k > 0 {
        let h = k - 1;
        law_second_repair(rows, confirmed, h, write);
        let i = confirmed[h].0 - 1;
        assert(1 <= confirmed[h].0 <= rows.len());
        assert(fixed[i] == with_prev(rows[i], fixed[i].prev_fk));
        if h > 0 {
            assert(with_prev(fixed[i], confirmed[h - 1]) == with_prev(rows[i], confirmed[h - 1]));
            lemma_prev_ok_same(fixed, rows, with_prev(fixed[i], confirmed[h - 1]));
        }
        if link_wanted(rows, confirmed, h) is Some {
            lemma_link_stays(rows, confirmed, h, n);
            assert(q[i] == with_prev(rows[i], q[i].prev_fk));
            lemma_prev_ok_same(q, rows, q[i]);
            assert(prev_ok(q, q[i]));
            assert(fixed[i] == q[i]);
        }
        assert(relink_to(fixed, confirmed, h) is None);
    }
}

impl HeaderStore {
    /// Row of a number.
    pub fn get_header(&self, fk: Fk) -> (r: Result<HeaderRecord, StoreError>)
        ensures
            match r {
                Ok(h) => 1 <= fk.0 <= self.rows@.len() && h == self.rows@[fk.0 - 1],
                Err(e) => if fk.0 == 0 {
                    e == StoreError::InvalidFk
                } else {
                    fk.0 > self.rows@.len() && e == StoreError::NotFound
                },
            },
    {
        if fk.is_null() {
            return Err(StoreError::InvalidFk);
        }
        if fk.0 > self.rows.len() as u64 {
            return Err(StoreError::NotFound);
        }
        Ok(self.rows[(fk.0 - 1) as usize])
    }
}

/// Steps from the tip along the newest children.
pub fn resume_walk_len(store: &HeaderStore, tip_fk: Fk, max: u64) -> (r: u64)
    ensures
        r == walk_steps(store.rows@, tip_fk.0, Set::empty(), max as nat),
{
    broadcast use vstd::std_specs::hash::group_hash_axioms;

    let mut best: HashMap<u64, u64> = HashMap::new();
    let mut i: usize = 0;
    let ghost rows = store.rows@;
    proof {
        assert(rows.subrange(0, 0) =~= Seq::empty());
    }
    while i < store.rows.len()
        invariant
            i <= rows.len(),
            rows == store.rows@,
            forall|p: u64| #[trigger]
                best@.contains_key(p) <==> best_child(rows.subrange(0, i as int), p) is Some,
            forall|p: u64| #[trigger]
                best@.contains_key(p) ==> best@[p] == best_child(rows.subrange(0, i as int), p)->0,
        decreases rows.len() - i,
    {
        broadcast use vstd::std_specs::hash::group_hash_axioms;

        proof {
            let p = rows.subrange(0, i + 1);
            assert(p.drop_last() =~= rows.subrange(0, i as int));
            assert(p.last() == rows[i as int]);
        }
        let p: u64 = store.rows[i].prev_fk.0;
        best.insert(p, i as u64 + 1);
        i += 1;
    }
    proof {
        assert(rows.subrange(0, i as int) =~= rows);
    }
    let mut cur: u64 = tip_fk.0;
    let mut steps: u64 = 0;
    let mut seen: HashSet<u64> = HashSet::new();
    proof {
        assert(seen@ =~= Set::empty());
    }
    while steps < max
        invariant
            steps <= max,
            forall|p: u64| #[trigger]
                best@.contains_key(p) <==> best_child(rows, p) is Some,
            forall|p: u64| #[trigger]
                best@.contains_key(p) ==> best@[p] == best_child(rows, p)->0,
            walk_steps(rows, tip_fk.0, Set::empty(), max as nat) == steps + walk_steps(
                rows,
                cur,
                seen@,
                (max - steps) as nat,
            ),
            rows == store.rows@,
        decreases max - steps,
    {
        broadcast use vstd::std_specs::hash::group_hash_axioms;

        let next: u64 = match best.get(&cur) {
            Some(n) => *n,
            None => {
                return steps;
            },
        };
        let fresh = seen.insert(next);
        if !fresh {
            return steps;
        }
        steps += 1;
        cur = next;
    }
    steps
}

/// The row has no parent, or its hash commits to its parent's.
pub fn prev_matches_hash(store: &HeaderStore, rec: &HeaderRecord) -> (r: bool)
    ensures
        r == prev_ok(store.rows@, *rec),
{
    if rec.prev_fk.is_null() {
        return true;
    }
    match store.get_header(rec.prev_fk) {
        Ok(parent) => {
            let expect: [u8; 32] = block_header_hash(
                rec.version,
                &parent.hash,
                &rec.merkle_root,
                rec.timestamp,
                rec.bits,
                rec.nonce,
            );
            proof {
                assert(expect@.subrange(0, 32) =~= expect@);
            }
            bytes_at(expect.as_slice(), 0, rec.hash.as_slice())
        },
        Err(_) => false,
    }
}

/// Row of the tip (0 without a tip).
pub open spec fn tip_of(confirmed: Seq<Fk>) -> u64 {
    if confirmed.len() == 0 {
        0
    } else {
        confirmed.last().0
    }
}

/// Steps of the walk from the tip (0 without a tip).
pub open spec fn tip_walk(rows: Seq<HeaderRecord>, confirmed: Seq<Fk>) -> nat {
    if confirmed.len() == 0 {
        0
    } else {
        walk_steps(rows, tip_of(confirmed), Set::empty(), RESUME_WALK_MAX as nat)
    }
}

impl HeaderStore {
    /// Rows without a parent.
    fn null_rows(&self) -> (r: u64)
        ensures
            r == count_null(self.rows@),
    {
        let mut n: u64 = 0;
        let mut i: usize = 0;
        proof {
            assert(self.rows@.subrange(0, 0) =~= Seq::empty());
        }
        while i < self.rows.len()
            invariant
                i <= self.rows@.len(),
                n <= i,
                n == count_null(self.rows@.subrange(0, i as int)),
            decreases self.rows@.len() - i,
        {
            proof {
                let p = self.rows@.subrange(0, i + 1);
                assert(p.drop_last() =~= self.rows@.subrange(0, i as int));
                assert(p.last() == self.rows@[i as int]);
            }
            if self.rows[i].prev_fk.is_null() {
                n += 1;
            }
            i += 1;
        }
        proof {
            assert(self.rows@.subrange(0, i as int) =~= self.rows@);
        }
        n
    }

    /// Links the confirmed chain where the hashes allow it.
    fn relink(&mut self, write: bool) -> (r: Result<u64, StoreError>)
        ensures
            final(self).confirmed@ == old(self).confirmed@,
            match r {
                Ok(n) => {
                    &&& confirmed_ok(
                        old(self).rows@,
                        old(self).confirmed@,
                        old(self).confirmed@.len() as int,
                    )
                    &&& (final(self).rows@, n as nat) == relinked(
                        old(self).rows@,
                        old(self).confirmed@,
                        old(self).confirmed@.len() as int,
                        write,
                    )
                },
                Err(e) => exists|h: int| {
                    &&& 0 <= h < old(self).confirmed@.len()
                    &&& confirmed_ok(old(self).rows@, old(self).confirmed@, h)
                    &&& #[trigger] confirmed_error(old(self).rows@, old(self).confirmed@, h)
                        == Some(e)
                    &&& final(self).rows@ == relinked(
                        old(self).rows@,
                        old(self).confirmed@,
                        h,
                        write,
                    ).0
                },
            },
    {
        let mut n: u64 = 0;
        let mut h: usize = 0;
        let ghost rows = self.rows@;
        let ghost conf = self.confirmed@;
        while h < self.confirmed.len()
            invariant
                h <= conf.len(),
                rows == old(self).rows@,
                conf == old(self).confirmed@,
                self.confirmed@ == conf,
                confirmed_ok(rows, conf, h as int),
                (self.rows@, n as nat) == relinked(rows, conf, h as int, write),
                n <= h,
                self.rows@.len() == rows.len(),
            decreases conf.len() - h,
        {
            let fk: Fk = self.confirmed[h];
            if fk.is_null() {
                assert(confirmed_error(rows, conf, h as int) == Some(
                    StoreError::Corrupt("confirmed hole"),
                ));
                return Err(StoreError::Corrupt("confirmed hole"));
            }
            let mut rec: HeaderRecord = match self.get_header(fk) {
                Ok(r) => r,
                Err(e) => {
                    assert(confirmed_error(rows, conf, h as int) == Some(e));
                    return Err(e);
                },
            };
            let total: usize = self.rows.len();
            assert(fk.0 <= total);
            let i: usize = (fk.0 - 1) as usize;
            let ghost p = self.rows@;
            let ghost r0 = rec;
            if h == 0 {
                if !rec.prev_fk.is_null() {
                    rec.prev_fk = Fk(0);
                    if write {
                        self.rows.set(i, rec);
                    }
                    n += 1;
                }
            } else {
                let prev: Fk = self.confirmed[h - 1];
                if rec.prev_fk.0 != prev.0 {
                    rec.prev_fk = prev;
                    if prev_matches_hash(self, &rec) {
                        if write {
                            self.rows.set(i, rec);
                        }
                        n += 1;
                    }
                }
            }
            proof {
                assert(r0 == p[conf[h as int].0 - 1]);
                match relink_to(p, conf, h as int) {
                    Some(to) => {
                        assert(rec == with_prev(r0, to));
                        if write {
                            assert(self.rows@ =~= p.update(i as int, with_prev(r0, to)));
                        }
                    },
                    None => {
                        assert(self.rows@ =~= p);
                    },
                }
            }
            h += 1;
        }
        Ok(n)
    }

    /// Cuts false links; without `write` only counts them.
    fn cut_links(&mut self, write: bool) -> (r: u64)
        ensures
            final(self).confirmed@ == old(self).confirmed@,
            r == count_false(old(self).rows@, old(self).rows@.len() as int),
            final(self).rows@ == (if write {
                cut_false(old(self).rows@)
            } else {
                old(self).rows@
            }),
    {
        let ghost rows = self.rows@;
        let mut n: u64 = 0;
        let mut i: usize = 0;
        while i < self.rows.len()
            invariant
                i <= rows.len(),
                rows == old(self).rows@,
                self.confirmed@ == old(self).confirmed@,
                self.rows@.len() == rows.len(),
                n == count_false(rows, i as int),
                n <= i,
                same_hashes(self.rows@, rows),
                forall|j: int|
                    0 <= j < i ==> (#[trigger] self.rows@[j]) == (if write && !prev_ok(
                        rows,
                        rows[j],
                    ) {
                        with_prev(rows[j], Fk(0))
                    } else {
                        rows[j]
                    }),
                forall|j: int| i <= j < rows.len() ==> (#[trigger] self.rows@[j]) == rows[j],
            decreases rows.len() - i,
        {
            let mut rec: HeaderRecord = self.rows[i];
            proof {
                lemma_prev_ok_same(self.rows@, rows, rec);
            }
            if !prev_matches_hash(self, &rec) {
                n += 1;
                if write {
                    rec.prev_fk = Fk(0);
                    self.rows.set(i, rec);
                }
            }
            i += 1;
        }
        proof {
            if write {
                assert(self.rows@ =~= cut_false(rows));
            } else {
                assert(self.rows@ =~= rows);
            }
        }
        n
    }
}

/// Finds what is wrong with the links between header rows and, with `write`, repairs
/// it.
pub fn rebuild_headers(store: &mut HeaderStore, write: bool) -> (r: Result<
    RebuildReport,
    StoreError,
>)
    requires
        old(store).confirmed@.len() <= 0x1_0000_0000,
    ensures
        final(store).confirmed@ == old(store).confirmed@,
        match r {
            Ok(rep) => {
                let rows = old(store).rows@;
                let conf = old(store).confirmed@;
                let re = relinked(rows, conf, conf.len() as int, write);
                &&& confirmed_ok(rows, conf, conf.len() as int)
                &&& final(store).rows@ == (if write {
                    cut_false(re.0)
                } else {
                    rows
                })
                &&& rep.header_rows == rows.len()
                &&& rep.tip_height == (if conf.len() == 0 {
                    None
                } else {
                    Some((conf.len() - 1) as u32)
                })
                &&& rep.wrote == write
                &&& rep.null_prev_rows == count_null(rows)
                &&& rep.confirmed_relinked == re.1
                &&& rep.false_prev_nulled == count_false(re.0, re.0.len() as int)
                &&& rep.resume_walk_before == tip_walk(rows, conf)
                &&& rep.resume_walk_after == tip_walk(final(store).rows@, conf)
            },
            Err(e) => {
                let rows = old(store).rows@;
                let conf = old(store).confirmed@;
                &&& conf.len() > 0
                &&& if conf.last().0 == 0 {
                    e == StoreError::Corrupt("tip fk missing") && final(store).rows@ == rows
                } else {
                    exists|h: int| {
                        &&& 0 <= h < conf.len()
                        &&& confirmed_ok(rows, conf, h)
                        &&& #[trigger] confirmed_error(rows, conf, h) == Some(e)
                        &&& final(store).rows@ == relinked(rows, conf, h, write).0
                    }
                }
            },
        },
{
    let ghost rows = store.rows@;
    let ghost conf = store.confirmed@;
    let m: usize = store.confirmed.len();
    let mut tip_fk: Fk = Fk(0);
    let mut tip_height: Option<u32> = None;
    if m > 0 {
        tip_fk = store.confirmed[m - 1];
        tip_height = Some((m - 1) as u32);
        if tip_fk.is_null() {
            return Err(StoreError::Corrupt("tip fk missing"));
        }
    }
    let header_rows: u64 = store.rows.len() as u64;
    let mut before: u64 = 0;
    if !tip_fk.is_null() {
        before = resume_walk_len(store, tip_fk, RESUME_WALK_MAX);
    }
    let null_prev_rows: u64 = store.null_rows();
    let confirmed_relinked: u64 = store.relink(write)?;
    proof {
        lemma_relinked(rows, conf, conf.len() as int, write);
    }
    let false_prev_nulled: u64 = store.cut_links(write);
    let mut after: u64 = 0;
    if !tip_fk.is_null() {
        after = resume_walk_len(store, tip_fk, RESUME_WALK_MAX);
    }
    Ok(
        RebuildReport {
            header_rows,
            tip_height,
            confirmed_relinked,
            false_prev_nulled,
            resume_walk_before: before,
            resume_walk_after: after,
            null_prev_rows,
            wrote: write,
        },
    )
}

} // verus!
