//! K-way merge of sorted runs.

use vstd::prelude::*;
use vstd::multiset::Multiset;
use crate::bytes::{get_u64, u64_at};
use crate::crc::crc_of;
use crate::error::StoreError;
use crate::hashhead::next_pow2;
use crate::loser_tree::{law_winner_is_least, leaf, leaves_ok, lt, node_ok, to_ints, LoserTree};
use crate::sorted_run::{crc_bad, lemma_full_rank_injective, lemma_rec_bounds, lemma_rec_count, lemma_run_recs, rec_at, rec_key_order, rec_rank, recs_of, run_file, run_sorted, run_strict, verify_run_body, SortedRun, SortedRunPath};
use crate::sorting::Cmp3;

verus! {

/// Part of a run that is still to be merged.
#[derive(Clone, Copy)]
pub struct Cursor {
    pub pos: u64,
    pub end: u64,
}

/// Every run is valid and has the same lengths.
pub open spec fn runs_ok(runs: Seq<SortedRun>, kl: int, rl: int) -> bool {
    forall|r: int| 0 <= r < runs.len() ==> (#[trigger] runs[r]).valid() && runs[r].head.key_len == kl
        && runs[r].head.rec_len == rl
}

/// Cursors lie inside their runs.
pub open spec fn cursors_ok(runs: Seq<SortedRun>, cur: Seq<Cursor>) -> bool {
    &&& cur.len() == runs.len()
    &&& forall|r: int|
        0 <= r < cur.len() ==> (#[trigger] cur[r]).pos <= cur[r].end <= runs[r].head.count
}

/// Rank of the record that a cursor stands on.
pub open spec fn head_of(run: SortedRun, c: Cursor, kl: int, rl: int) -> Option<nat> {
    if c.pos < c.end {
        Some(rec_rank(run.recs()[c.pos as int], kl, rl))
    } else {
        None
    }
}

/// Ranks of the records that the cursors stand on.
pub open spec fn heads_of(runs: Seq<SortedRun>, cur: Seq<Cursor>, kl: int, rl: int) -> Seq<
    Option<nat>,
> {
    Seq::new(runs.len(), |r: int| head_of(runs[r], cur[r], kl, rl))
}

/// The records of all runs between two sets of cursors.
pub open spec fn taken(runs: Seq<SortedRun>, from: Seq<Cursor>, to: Seq<Cursor>, m: int) -> Multiset<
    Seq<u8>,
>
    decreases m,
{
    if m <= 0 {
        Multiset::empty()
    } else {
        taken(runs, from, to, m - 1).add(
            runs[m - 1].recs().subrange(
                from[m - 1].pos as int,
                to[m - 1].pos as int,
            ).to_multiset(),
        )
    }
}

/// The ranks of the part of a run that a cursor covers never fall.
pub open spec fn part_sorted(run: SortedRun, c: Cursor, kl: int, rl: int) -> bool {
    forall|i: int, j: int|
        c.pos <= i < j < c.end ==> rec_rank(#[trigger] run.recs()[i], kl, rl) <= rec_rank(
            #[trigger] run.recs()[j],
            kl,
            rl,
        )
}

/// All parts are sorted.
pub open spec fn parts_sorted(runs: Seq<SortedRun>, cur: Seq<Cursor>, kl: int, rl: int) -> bool {
    forall|r: int| 0 <= r < runs.len() ==> part_sorted(#[trigger] runs[r], cur[r], kl, rl)
}

/// Records without repeats of the one before.
pub open spec fn emitted(full: Seq<Seq<u8>>) -> Seq<Seq<u8>>
    decreases full.len(),
{
    if full.len() == 0 {
        Seq::empty()
    } else {
        let e = emitted(full.drop_last());
        if e.len() > 0 && e.last() == full.last() {
            e
        } else {
            e.push(full.last())
        }
    }
}

/// Equal full records are emitted once; records with a payload are all kept.
pub open spec fn merged_out(full: Seq<Seq<u8>>, kl: int, rl: int) -> Seq<Seq<u8>> {
    if kl == rl {
        emitted(full)
    } else {
        full
    }
}

/// Skip a record that repeats the one emitted before it.
fn should_skip_dup_key(
    key_len: usize,
    rec_len: usize,
    out: &Vec<u8>,
    rec: &[u8],
    off: usize,
) -> (r: bool)
    requires
        1 <= rec_len,
        off + rec_len <= rec@.len(),
        out@.len() as int % rec_len as int == 0,
    ensures
        r == (key_len == rec_len && out@.len() > 0 && out@.subrange(
            out@.len() - rec_len,
            out@.len() as int,
        ) == rec@.subrange(off as int, off + rec_len)),
{
    if key_len != rec_len || out.len() == 0 {
        return false;
    }
    let n: usize = out.len();
    proof {
        vstd::arithmetic::div_mod::lemma_fundamental_div_mod(n as int, rec_len as int);
        if n < rec_len {
            vstd::arithmetic::div_mod::lemma_small_mod(n as nat, rec_len as nat);
        }
    }
    let last: usize = n - rec_len;
    match crate::sorting::bytes_order(out.as_slice(), last, rec, off, rec_len) {
        Cmp3::Same => true,
        _ => false,
    }
}

/// Head `a` comes before head `b`.
fn cursor_less(
    runs: &Vec<SortedRun>,
    cur: &Vec<Cursor>,
    a: usize,
    b: usize,
    key_len: usize,
    rec_len: usize,
) -> (r: bool)
    requires
        runs_ok(runs@, key_len as int, rec_len as int),
        cursors_ok(runs@, cur@),
        1 <= key_len <= rec_len,
    ensures
        r == lt(
            heads_of(runs@, cur@, key_len as int, rec_len as int),
            a as int,
            b as int,
        ),
{
    if a >= runs.len() {
        return false;
    }
    if b >= runs.len() {
        return true;
    }
    let ca: Cursor = cur[a];
    let cb: Cursor = cur[b];
    if ca.pos >= ca.end {
        return false;
    }
    if cb.pos >= cb.end {
        return true;
    }
    let ao: usize = offset_of(&runs[a], ca.pos, rec_len);
    let bo: usize = offset_of(&runs[b], cb.pos, rec_len);
    match rec_key_order(
        runs[a].body.as_slice(),
        ao,
        runs[b].body.as_slice(),
        bo,
        key_len,
        rec_len,
    ) {
        Cmp3::Less => true,
        Cmp3::More => false,
        Cmp3::Same => a < b,
    }
}

/// Offset of a record in its run.
fn offset_of(run: &SortedRun, i: u64, rec_len: usize) -> (r: usize)
    requires
        run.valid(),
        rec_len == run.head.rec_len,
        i < run.head.count,
    ensures
        r + rec_len <= run.body@.len(),
        r + rec_len <= usize::MAX,
        run.recs()[i as int] == run.body@.subrange(r as int, r + rec_len),
{
    let len: usize = run.body.len();
    proof {
        lemma_run_recs(run);
        lemma_rec_bounds(
            run.body@.len() as int,
            run.head.rec_len as int,
            i as int,
            run.head.count as int,
        );
    }
    (i * rec_len as u64) as usize
}

/// Builds the tree over the heads of the cursors.
fn new_tree(runs: &Vec<SortedRun>, cur: &Vec<Cursor>, key_len: usize, rec_len: usize) -> (r:
    LoserTree)
    requires
        runs_ok(runs@, key_len as int, rec_len as int),
        cursors_ok(runs@, cur@),
        1 <= key_len <= rec_len,
        runs@.len() <= usize::MAX / 8,
    ensures
        r.inv(heads_of(runs@, cur@, key_len as int, rec_len as int)),
{
    let ghost heads = heads_of(runs@, cur@, key_len as int, rec_len as int);
    let k: usize = runs.len();
    let n: usize = next_pow2(
        if k < 1 {
            1
        } else {
            k as u64
        },
    ) as usize;
    let (winners, losers) = LoserTree::build(n, k);
    let mut winners = winners;
    let mut losers = losers;
    let mut i: usize = n;
    while i > 1
        invariant
            runs_ok(runs@, key_len as int, rec_len as int),
            cursors_ok(runs@, cur@),
            1 <= key_len <= rec_len,
            heads == heads_of(runs@, cur@, key_len as int, rec_len as int),
            1 <= i <= n <= usize::MAX / 4,
            winners@.len() == 2 * n,
            losers@.len() == n,
            k == heads.len(),
            forall|j: int| n <= j < 2 * n ==> #[trigger] winners@[j] == leaf(k as int, j - n),
            forall|p: int|
                i <= p < n ==> #[trigger] node_ok(heads, losers@, to_ints(winners@), p),
        decreases i,
    {
        i -= 1;
        let left: usize = winners[2 * i];
        let right: usize = winners[2 * i + 1];
        let ghost w0 = winners@;
        let ghost l0 = losers@;
        if cursor_less(runs, cur, left, right, key_len, rec_len) {
            winners.set(i, left);
            losers.set(i, right);
        } else {
            winners.set(i, right);
            losers.set(i, left);
        }
        proof {
            assert forall|p: int| i <= p < n implies #[trigger] node_ok(
                heads,
                losers@,
                to_ints(winners@),
                p,
            ) by {
                if p > i {
                    assert(node_ok(heads, l0, to_ints(w0), p));
                }
            }
        }
    }
    proof {
        let w = to_ints(winners@);
        assert(leaves_ok(w, n as int, k as int)) by {
            assert forall|j: int| n <= j < 2 * n implies #[trigger] w[j] == leaf(k as int, j - n) by {
                assert(winners@[j] == leaf(k as int, j - n));
            }
        }
    }
    LoserTree::finish(winners, losers, n, Ghost(heads))
}

/// Finds the next winner after the head of the last one moved on.
fn replay(
    tree: &mut LoserTree,
    runs: &Vec<SortedRun>,
    cur: &Vec<Cursor>,
    key_len: usize,
    rec_len: usize,
    Ghost(h): Ghost<Seq<Option<nat>>>,
)
    requires
        runs_ok(runs@, key_len as int, rec_len as int),
        cursors_ok(runs@, cur@),
        1 <= key_len <= rec_len,
        old(tree).inv(h),
        old(tree).top() < h.len(),
        h.len() == runs@.len(),
        forall|i: int|
            0 <= i < h.len() && i != old(tree).top() ==> #[trigger] heads_of(
                runs@,
                cur@,
                key_len as int,
                rec_len as int,
            )[i] == h[i],
    ensures
        final(tree).inv(heads_of(runs@, cur@, key_len as int, rec_len as int)),
{
    let ghost g = heads_of(runs@, cur@, key_len as int, rec_len as int);
    let ghost start = *tree;
    let mut player: usize = tree.winner();
    let mut i: usize = tree.climb_start(Ghost(h), Ghost(g));
    while i > 1
        invariant
            runs_ok(runs@, key_len as int, rec_len as int),
            cursors_ok(runs@, cur@),
            1 <= key_len <= rec_len,
            g == heads_of(runs@, cur@, key_len as int, rec_len as int),
            i >= 1,
            tree.climbing(&start, h, g, i as int, player as int),
            i / 2 < tree.losers_seq().len(),
        decreases i,
    {
        let rival: usize = tree.loser_at(i / 2);
        let swap: bool = cursor_less(runs, cur, rival, player, key_len, rec_len);
        player = tree.climb_step(i, player, swap, Ghost(start), Ghost(h), Ghost(g));
        i = i / 2;
    }
    tree.climb_done(player, Ghost(start), Ghost(h), Ghost(g));
}

proof fn lemma_taken_step(
    runs: Seq<SortedRun>,
    from: Seq<Cursor>,
    to: Seq<Cursor>,
    to2: Seq<Cursor>,
    w: int,
    m: int,
)
    requires
        0 <= w < to.len(),
        to2.len() == to.len(),
        from.len() == to.len(),
        m <= to.len(),
        runs.len() == to.len(),
        forall|r: int| 0 <= r < to.len() && r != w ==> to2[r] == to[r],
        to2[w].pos == to[w].pos + 1,
        from[w].pos <= to[w].pos < runs[w].recs().len(),
    ensures
        taken(runs, from, to2, m) == (if w < m {
            taken(runs, from, to, m).insert(runs[w].recs()[to[w].pos as int])
        } else {
            taken(runs, from, to, m)
        }),
    decreases m,
{
    if m > 0 {
        lemma_taken_step(runs, from, to, to2, w, m - 1);
        if m - 1 == w {
            let recs = runs[w].recs();
            let a = recs.subrange(from[w].pos as int, to[w].pos as int);
            let b = recs.subrange(from[w].pos as int, to2[w].pos as int);
            assert(b =~= a.push(recs[to[w].pos as int]));
            a.to_multiset_ensures();
            assert(taken(runs, from, to2, m) =~= taken(runs, from, to, m).insert(
                recs[to[w].pos as int],
            ));
        } else if w < m {
            let x = runs[w].recs()[to[w].pos as int];
            assert(taken(runs, from, to2, m) =~= taken(runs, from, to, m).insert(x));
        }
    }
}

proof fn lemma_taken_none(runs: Seq<SortedRun>, from: Seq<Cursor>, m: int)
    requires
        runs.len() == from.len(),
        m <= from.len(),
        forall|r: int|
            0 <= r < runs.len() ==> from[r].pos <= (#[trigger] runs[r]).recs().len(),
    ensures
        taken(runs, from, from, m) == Multiset::<Seq<u8>>::empty(),
    decreases m,
{
    if m > 0 {
        lemma_taken_none(runs, from, m - 1);
        assert(from[m - 1].pos <= runs[m - 1].recs().len());
        let s = runs[m - 1].recs().subrange(from[m - 1].pos as int, from[m - 1].pos as int);
        assert(s =~= Seq::empty());
        s.to_multiset_ensures();
        assert(taken(runs, from, from, m) =~= Multiset::empty());
    }
}

/// Appending a record to a body appends it to its records.
pub proof fn lemma_recs_push(body: Seq<u8>, rec: Seq<u8>, rl: int)
    requires
        rl >= 1,
        body.len() as int % rl == 0,
        rec.len() == rl,
    ensures
        recs_of(body + rec, rl) == recs_of(body, rl).push(rec),
        (body + rec).len() as int % rl == 0,
        body.len() > 0 ==> recs_of(body, rl).len() > 0 && recs_of(body, rl).last()
            == body.subrange(body.len() - rl, body.len() as int),
        body.len() == 0 ==> recs_of(body, rl).len() == 0,
{
    let n = body.len() as int / rl;
    vstd::arithmetic::div_mod::lemma_fundamental_div_mod(body.len() as int, rl);
    assert(n * rl == body.len() && (n + 1) * rl == body.len() + rl && n >= 0) by (nonlinear_arith)
        requires
            body.len() as int == rl * n + 0,
            rl >= 1,
            body.len() >= 0,
    ;
    lemma_rec_count((body + rec).len() as int, rl, n + 1);
    let a = recs_of(body + rec, rl);
    let b = recs_of(body, rl).push(rec);
    assert forall|i: int| 0 <= i < n + 1 implies a[i] == b[i] by {
        lemma_rec_bounds((body + rec).len() as int, rl, i, n + 1);
        if i < n {
            lemma_rec_bounds(body.len() as int, rl, i, n);
            assert(rec_at(body + rec, rl, i) =~= rec_at(body, rl, i));
        } else {
            assert(rec_at(body + rec, rl, i) =~= rec);
        }
    }
    assert(a =~= b);
    if body.len() > 0 {
        assert(n >= 1) by (nonlinear_arith)
            requires
                n * rl == body.len(),
                body.len() > 0,
                rl >= 1,
        ;
        lemma_rec_bounds(body.len() as int, rl, n - 1, n);
        assert(rec_at(body, rl, n - 1) =~= body.subrange(body.len() - rl, body.len() as int));
    } else {
        assert(n == 0) by (nonlinear_arith)
            requires
                n * rl == 0,
                rl >= 1,
        ;
    }
}

/// Where the cursors stand.
pub open spec fn cursor_pos(cur: Seq<Cursor>) -> Seq<int> {
    Seq::new(cur.len(), |r: int| cur[r].pos as int)
}

/// Where the parts end.
pub open spec fn part_ends(from: Seq<Cursor>) -> Seq<int> {
    Seq::new(from.len(), |r: int| from[r].end as int)
}

/// Record `i` of `full` is the record `at[i]` of run `src[i]`. The records of each run up
/// to `ends` are all there, once and in the order of the run.
pub open spec fn drawn(
    runs: Seq<SortedRun>,
    from: Seq<Cursor>,
    ends: Seq<int>,
    full: Seq<Seq<u8>>,
    src: Seq<int>,
    at: Seq<int>,
) -> bool {
    &&& src.len() == full.len()
    &&& at.len() == full.len()
    &&& forall|i: int|
        0 <= i < full.len() ==> 0 <= #[trigger] src[i] < runs.len() && from[src[i]].pos <= at[i]
            < ends[src[i]] && full[i] == runs[src[i]].recs()[at[i]]
    &&& forall|i: int, j: int|
        0 <= i < j < full.len() && (#[trigger] src[i]) == (#[trigger] src[j]) ==> at[i] < at[j]
    &&& forall|r: int, q: int|
        0 <= r < runs.len() && from[r].pos <= q < ends[r] ==> #[trigger] has_place(src, at, r, q)
}

/// Some record came from this place.
pub open spec fn has_place(src: Seq<int>, at: Seq<int>, r: int, q: int) -> bool {
    exists|i: int| 0 <= i < src.len() && #[trigger] src[i] == r && at[i] == q
}

/// One record more.
proof fn lemma_drawn_step(
    runs: Seq<SortedRun>,
    from: Seq<Cursor>,
    cur: Seq<Cursor>,
    cur2: Seq<Cursor>,
    full: Seq<Seq<u8>>,
    src: Seq<int>,
    at: Seq<int>,
    w: int,
)
    requires
        drawn(runs, from, cursor_pos(cur), full, src, at),
        cur.len() == runs.len(),
        from.len() == runs.len(),
        0 <= w < runs.len(),
        from[w].pos <= cur[w].pos < cur[w].end,
        cur2 == cur.update(w, Cursor { pos: (cur[w].pos + 1) as u64, end: cur[w].end }),
    ensures
        drawn(
            runs,
            from,
            cursor_pos(cur2),
            full.push(runs[w].recs()[cur[w].pos as int]),
            src.push(w),
            at.push(cur[w].pos as int),
        ),
{
    let f2 = full.push(runs[w].recs()[cur[w].pos as int]);
    let s2 = src.push(w);
    let a2 = at.push(cur[w].pos as int);
    let e = cursor_pos(cur);
    let e2 = cursor_pos(cur2);
    assert forall|i: int| 0 <= i < f2.len() implies 0 <= #[trigger] s2[i] < runs.len()
        && from[s2[i]].pos <= a2[i] < e2[s2[i]] && f2[i] == runs[s2[i]].recs()[a2[i]] by {
        if i < full.len() {
            assert(s2[i] == src[i]);
            assert(a2[i] < e[src[i]]);
        }
    }
    assert forall|i: int, j: int|
        0 <= i < j < f2.len() && (#[trigger] s2[i]) == (#[trigger] s2[j]) implies a2[i] < a2[j] by {
        assert(s2[i] == src[i]);
        if j < full.len() {
            assert(s2[j] == src[j]);
        } else {
            assert(at[i] < e[src[i]]);
        }
    }
    assert forall|r: int, q: int|
        0 <= r < runs.len() && from[r].pos <= q < e2[r] implies #[trigger] has_place(
        s2,
        a2,
        r,
        q,
    ) by {
        if r == w && q == cur[w].pos {
            assert(s2[full.len() as int] == w);
        } else {
            assert(q < e[r]);
            assert(has_place(src, at, r, q));
            let i = choose|i: int| 0 <= i < src.len() && #[trigger] src[i] == r && at[i] == q;
            assert(s2[i] == r && a2[i] == q);
        }
    }
}

/// State of a merge: `full` are the records met so far, `src` their runs and `at` their
/// places in them.
pub open spec fn merge_state(
    runs: Seq<SortedRun>,
    from: Seq<Cursor>,
    cur: Seq<Cursor>,
    kl: int,
    rl: int,
    full: Seq<Seq<u8>>,
    src: Seq<int>,
    at: Seq<int>,
    out: Seq<u8>,
) -> bool {
    &&& cursors_ok(runs, cur)
    &&& drawn(runs, from, cursor_pos(cur), full, src, at)
    &&& from.len() == runs.len()
    &&& forall|r: int|
        0 <= r < cur.len() ==> from[r].pos <= (#[trigger] cur[r]).pos && cur[r].end == from[r].end
    &&& full.to_multiset() == taken(runs, from, cur, runs.len() as int)
    &&& src.len() == full.len()
    &&& out.len() as int % rl == 0
    &&& recs_of(out, rl) == merged_out(full, kl, rl)
    &&& parts_sorted(runs, from, kl, rl) ==> ordered(full, src, kl, rl)
    &&& parts_sorted(runs, from, kl, rl) && full.len() > 0 ==> forall|r: int|
        0 <= r < cur.len() && (#[trigger] cur[r]).pos < cur[r].end ==> pair_le(
            rec_rank(full.last(), kl, rl),
            src.last(),
            rec_rank(runs[r].recs()[cur[r].pos as int], kl, rl),
            r,
        )
}

/// By rank, then by run.
pub open spec fn pair_le(x: nat, a: int, y: nat, b: int) -> bool {
    x < y || (x == y && a <= b)
}

/// Records are in order of rank, those of equal rank in order of their runs.
pub open spec fn ordered(full: Seq<Seq<u8>>, src: Seq<int>, kl: int, rl: int) -> bool {
    forall|i: int, j: int|
        0 <= i < j < full.len() ==> pair_le(
            rec_rank(#[trigger] full[i], kl, rl),
            src[i],
            rec_rank(#[trigger] full[j], kl, rl),
            src[j],
        )
}

/// Taking the least head keeps the order.
proof fn lemma_order_step(
    runs: Seq<SortedRun>,
    from: Seq<Cursor>,
    cur: Seq<Cursor>,
    cur2: Seq<Cursor>,
    kl: int,
    rl: int,
    full: Seq<Seq<u8>>,
    src: Seq<int>,
    at: Seq<int>,
    out: Seq<u8>,
    w: int,
)
    requires
        merge_state(runs, from, cur, kl, rl, full, src, at, out),
        parts_sorted(runs, from, kl, rl),
        0 <= w < runs.len(),
        cur[w].pos < cur[w].end,
        cur2 == cur.update(w, Cursor { pos: (cur[w].pos + 1) as u64, end: cur[w].end }),
        forall|j: int|
            0 <= j < runs.len() ==> !lt(#[trigger] heads_of(runs, cur, kl, rl), j, w),
        forall|j: int| 0 <= j < runs.len() ==> !lt(heads_of(runs, cur, kl, rl), j, w),
    ensures
        ordered(full.push(runs[w].recs()[cur[w].pos as int]), src.push(w), kl, rl),
        forall|r: int|
            0 <= r < cur2.len() && (#[trigger] cur2[r]).pos < cur2[r].end ==> pair_le(
                rec_rank(runs[w].recs()[cur[w].pos as int], kl, rl),
                w,
                rec_rank(runs[r].recs()[cur2[r].pos as int], kl, rl),
                r,
            ),
{
    let x = runs[w].recs()[cur[w].pos as int];
    let heads = heads_of(runs, cur, kl, rl);
    assert(heads[w] == Some(rec_rank(x, kl, rl)));
    let f2 = full.push(x);
    let s2 = src.push(w);
    assert forall|i: int, j: int| 0 <= i < j < f2.len() implies pair_le(
        rec_rank(#[trigger] f2[i], kl, rl),
        s2[i],
        rec_rank(#[trigger] f2[j], kl, rl),
        s2[j],
    ) by {
        if j < full.len() {
            assert(f2[i] == full[i] && f2[j] == full[j]);
        } else {
            assert(f2[i] == full[i]);
            assert(cur[w].pos < cur[w].end);
            if i < full.len() - 1 {
                assert(pair_le(
                    rec_rank(full[i], kl, rl),
                    src[i],
                    rec_rank(full[full.len() - 1], kl, rl),
                    src[full.len() - 1],
                ));
            }
        }
    }
    assert forall|r: int| 0 <= r < cur2.len() && (#[trigger] cur2[r]).pos < cur2[r].end implies pair_le(
        rec_rank(x, kl, rl),
        w,
        rec_rank(runs[r].recs()[cur2[r].pos as int], kl, rl),
        r,
    ) by {
        if r == w {
            assert(part_sorted(runs[w], from[w], kl, rl));
            assert(from[w].pos <= cur[w].pos);
            assert(cur[w].end == from[w].end);
            assert(rec_rank(runs[w].recs()[cur[w].pos as int], kl, rl) <= rec_rank(
                runs[w].recs()[cur[w].pos + 1],
                kl,
                rl,
            ));
        } else {
            assert(cur2[r] == cur[r]);
            assert(heads[r] == Some(rec_rank(runs[r].recs()[cur[r].pos as int], kl, rl)));
            assert(!lt(heads, r, w));
        }
    }
}

/// What a merge of the given parts gives.
pub open spec fn is_merge(
    runs: Seq<SortedRun>,
    from: Seq<Cursor>,
    kl: int,
    rl: int,
    out: Seq<u8>,
) -> bool {
    exists|full: Seq<Seq<u8>>, src: Seq<int>, at: Seq<int>| #[trigger]
        merge_result(runs, from, kl, rl, out, full, src, at)
}

/// All records of the parts, those of each run in its order. Where the parts are in order
/// so is the result, and records of equal rank come in the order of their runs. Without
/// repeats where the key is the whole record.
pub open spec fn merge_result(
    runs: Seq<SortedRun>,
    from: Seq<Cursor>,
    kl: int,
    rl: int,
    out: Seq<u8>,
    full: Seq<Seq<u8>>,
    src: Seq<int>,
    at: Seq<int>,
) -> bool {
    &&& drawn(runs, from, part_ends(from), full, src, at)
    &&& full.to_multiset() == parts_multiset(runs, from, runs.len() as int)
    &&& src.len() == full.len()
    &&& out.len() as int % rl == 0
    &&& recs_of(out, rl) == merged_out(full, kl, rl)
    &&& parts_sorted(runs, from, kl, rl) ==> ordered(full, src, kl, rl)
}

/// All records of the first `m` parts.
pub open spec fn parts_multiset(runs: Seq<SortedRun>, from: Seq<Cursor>, m: int) -> Multiset<
    Seq<u8>,
>
    decreases m,
{
    if m <= 0 {
        Multiset::empty()
    } else {
        parts_multiset(runs, from, m - 1).add(
            runs[m - 1].recs().subrange(
                from[m - 1].pos as int,
                from[m - 1].end as int,
            ).to_multiset(),
        )
    }
}

proof fn lemma_taken_all(runs: Seq<SortedRun>, from: Seq<Cursor>, cur: Seq<Cursor>, m: int)
    requires
        from.len() == runs.len(),
        cur.len() == runs.len(),
        m <= runs.len(),
        forall|r: int| 0 <= r < cur.len() ==> (#[trigger] cur[r]).pos == from[r].end,
    ensures
        taken(runs, from, cur, m) == parts_multiset(runs, from, m),
    decreases m,
{
    if m > 0 {
        lemma_taken_all(runs, from, cur, m - 1);
        assert(cur[m - 1].pos == from[m - 1].end);
    }
}

/// Merges parts of runs into one body.
fn merge_cursors(
    runs: &Vec<SortedRun>,
    start: Vec<Cursor>,
    key_len: usize,
    rec_len: usize,
) -> (out: Vec<u8>)
    requires
        runs_ok(runs@, key_len as int, rec_len as int),
        cursors_ok(runs@, start@),
        1 <= key_len <= rec_len,
        runs@.len() <= usize::MAX / 8,
    ensures
        is_merge(runs@, start@, key_len as int, rec_len as int, out@),
{
    let ghost kl = key_len as int;
    let ghost rl = rec_len as int;
    let ghost from = start@;
    let mut cur: Vec<Cursor> = start;
    let mut tree = new_tree(runs, &cur, key_len, rec_len);
    let mut out: Vec<u8> = Vec::new();
    let ghost mut full: Seq<Seq<u8>> = Seq::empty();
    let ghost mut src: Seq<int> = Seq::empty();
    let ghost mut at: Seq<int> = Seq::empty();
    let ghost mut left: int = 0;
    proof {
        assert forall|r: int| 0 <= r < runs@.len() implies from[r].pos <= (
        #[trigger] runs@[r]).recs().len() by {
            lemma_run_recs(&runs@[r]);
            assert(from[r].pos <= from[r].end);
        }
        lemma_taken_none(runs@, from, runs@.len() as int);
        full.to_multiset_ensures();
        assert(full.to_multiset() =~= Multiset::empty());
        lemma_rec_count(0, rl, 0);
        assert(recs_of(out@, rl) =~= Seq::empty());
        left = total_left(cur@, cur@.len() as int);
        lemma_left_nonneg(runs@, cur@, cur@.len() as int);
    }
    loop
        invariant
            runs_ok(runs@, kl, rl),
            kl == key_len,
            rl == rec_len,
            1 <= key_len <= rec_len,
            from.len() == runs@.len(),
            merge_state(runs@, from, cur@, kl, rl, full, src, at, out@),
            tree.inv(heads_of(runs@, cur@, kl, rl)),
            left == total_left(cur@, cur@.len() as int),
            left >= 0,
        ensures
            merge_state(runs@, from, cur@, kl, rl, full, src, at, out@),
            forall|r: int| 0 <= r < cur@.len() ==> (#[trigger] cur@[r]).pos == from[r].end,
        decreases left,
    {
        let w: usize = tree.winner();
        let ghost heads = heads_of(runs@, cur@, kl, rl);
        if w >= runs.len() || cur[w].pos >= cur[w].end {
            proof {
                assert forall|r: int| 0 <= r < cur@.len() implies (#[trigger] cur@[r]).pos
                    == from[r].end by {
                    law_winner_is_least(&tree, heads, r);
                    assert(heads[r] == head_of(runs@[r], cur@[r], kl, rl));
                    if w < runs@.len() {
                        assert(heads[w as int] == head_of(runs@[w as int], cur@[w as int], kl, rl));
                    }
                }
            }
            break;
        }
        let c: Cursor = cur[w];
        let off: usize = offset_of(&runs[w], c.pos, rec_len);
        let ghost x = runs@[w as int].recs()[c.pos as int];
        let skip: bool = should_skip_dup_key(
            key_len,
            rec_len,
            &out,
            runs[w].body.as_slice(),
            off,
        );
        let ghost out0 = out@;
        proof {
            lemma_recs_push(out@, x, rl);
        }
        if !skip {
            let rec = crate::bytes::copy_range(runs[w].body.as_slice(), off, off + rec_len);
            crate::bytes::push_slice(&mut out, rec.as_slice());
        }
        let ghost cur0 = cur@;
        cur.set(w, Cursor { pos: c.pos + 1, end: c.end });
        proof {
            lemma_run_recs(&runs@[w as int]);
            assert(full.push(x).drop_last() =~= full);
            full.to_multiset_ensures();
            lemma_taken_step(runs@, from, cur0, cur@, w as int, runs@.len() as int);
            assert(full.push(x).to_multiset() =~= taken(
                runs@,
                from,
                cur@,
                runs@.len() as int,
            ));
            if parts_sorted(runs@, from, kl, rl) {
                assert forall|j: int| 0 <= j < runs@.len() implies !lt(heads, j, w as int) by {
                    law_winner_is_least(&tree, heads, j);
                }
                lemma_order_step(
                    runs@,
                    from,
                    cur0,
                    cur@,
                    kl,
                    rl,
                    full,
                    src,
                    at,
                    out0,
                    w as int,
                );
            }
            lemma_drawn_step(runs@, from, cur0, cur@, full, src, at, w as int);
            full = full.push(x);
            src = src.push(w as int);
            at = at.push(c.pos as int);
            lemma_left_step(cur0, cur@, w as int, cur@.len() as int);
            left = left - 1;
            lemma_left_nonneg(runs@, cur@, cur@.len() as int);
            let g = heads_of(runs@, cur@, kl, rl);
            assert forall|i: int| 0 <= i < heads.len() && i != w implies #[trigger] g[i]
                == heads[i] by {
                assert(cur@[i] == cur0[i]);
            }
        }
        replay(&mut tree, runs, &cur, key_len, rec_len, Ghost(heads));
    }
    proof {
        lemma_taken_all(runs@, from, cur@, runs@.len() as int);
        assert(cursor_pos(cur@) =~= part_ends(from)) by {
            assert forall|r: int| 0 <= r < from.len() implies cursor_pos(cur@)[r] == #[trigger] part_ends(
                from,
            )[r] by {
                assert(cur@[r].pos == from[r].end);
            }
        }
        assert(merge_result(runs@, from, kl, rl, out@, full, src, at));
    }
    out
}

/// Records that are left in the first `m` cursors.
pub open spec fn total_left(cur: Seq<Cursor>, m: int) -> int
    decreases m,
{
    if m <= 0 {
        0
    } else {
        total_left(cur, m - 1) + (cur[m - 1].end - cur[m - 1].pos)
    }
}

proof fn lemma_left_nonneg(runs: Seq<SortedRun>, cur: Seq<Cursor>, m: int)
    requires
        cursors_ok(runs, cur),
        m <= cur.len(),
    ensures
        total_left(cur, m) >= 0,
    decreases m,
{
    if m > 0 {
        lemma_left_nonneg(runs, cur, m - 1);
        assert(cur[m - 1].pos <= cur[m - 1].end);
    }
}

proof fn lemma_left_step(a: Seq<Cursor>, b: Seq<Cursor>, w: int, m: int)
    requires
        a.len() == b.len(),
        0 <= w < a.len(),
        m <= a.len(),
        forall|r: int| 0 <= r < a.len() && r != w ==> b[r] == a[r],
        b[w].pos == a[w].pos + 1,
        b[w].end == a[w].end,
    ensures
        total_left(b, m) == total_left(a, m) - (if w < m {
            1int
        } else {
            0int
        }),
    decreases m,
{
    if m > 0 {
        lemma_left_step(a, b, w, m - 1);
    }
}

/// A record that was met was emitted, and the last one met was emitted last.
proof fn lemma_emitted(full: Seq<Seq<u8>>)
    ensures
        full.len() > 0 ==> emitted(full).len() > 0 && emitted(full).last() == full.last(),
        forall|x: Seq<u8>| #[trigger] emitted(full).contains(x) <==> full.contains(x),
    decreases full.len(),
{
    if full.len() > 0 {
        let d = full.drop_last();
        lemma_emitted(d);
        let e = emitted(d);
        let r = emitted(full);
        assert forall|x: Seq<u8>| #[trigger] r.contains(x) <==> full.contains(x) by {
            if r.contains(x) {
                let i = choose|i: int| 0 <= i < r.len() && r[i] == x;
                if i < e.len() {
                    assert(e[i] == x);
                    assert(e.contains(x));
                    let j = choose|j: int| 0 <= j < d.len() && d[j] == x;
                    assert(full[j] == x);
                } else {
                    assert(full[full.len() - 1] == x);
                }
            }
            if full.contains(x) {
                let j = choose|j: int| 0 <= j < full.len() && full[j] == x;
                if j < d.len() {
                    assert(d[j] == x);
                    assert(d.contains(x));
                    assert(e.contains(x));
                    let i = choose|i: int| 0 <= i < e.len() && e[i] == x;
                    assert(r[i] == x);
                } else {
                    assert(r[r.len() - 1] == x);
                }
            }
        }
    }
}

/// The record differs from the one before it, or is the first.
pub open spec fn differs(full: Seq<Seq<u8>>, i: int) -> bool {
    i == 0 || full[i] != full[i - 1]
}

/// `src` are the places of the records that differ from the one before them.
pub open spec fn changes(full: Seq<Seq<u8>>, src: Seq<int>) -> bool {
    &&& forall|j: int|
        0 <= j < src.len() ==> 0 <= #[trigger] src[j] < full.len() && differs(full, src[j])
    &&& forall|a: int, b: int| 0 <= a < b < src.len() ==> #[trigger] src[a] < #[trigger] src[b]
    &&& forall|i: int| 0 <= i < full.len() && #[trigger] differs(full, i) ==> src.contains(i)
}

/// Where the key is the whole record a merge leaves out a record that repeats the one before,
/// and keeps every other.
pub proof fn law_emitted(full: Seq<Seq<u8>>) -> (src: Seq<int>)
    ensures
        changes(full, src),
        src.len() == emitted(full).len(),
        forall|j: int| 0 <= j < src.len() ==> emitted(full)[j] == full[#[trigger] src[j]],
    decreases full.len(),
{
    if full.len() == 0 {
        Seq::empty()
    } else {
        let d = full.drop_last();
        let n = full.len() - 1;
        let s = law_emitted(d);
        lemma_emitted(d);
        let e = emitted(d);
        assert forall|i: int| 0 <= i < n implies #[trigger] differs(d, i) == differs(full, i) by {}
        if n > 0 {
            assert(d.last() == full[n - 1]);
        }
        let repeats = !differs(full, n);
        let t = if repeats {
            s
        } else {
            s.push(n)
        };
        assert forall|j: int| 0 <= j < t.len() implies 0 <= #[trigger] t[j] < full.len()
            && differs(full, t[j]) && emitted(full)[j] == full[t[j]] by {
            if j < s.len() {
                assert(t[j] == s[j]);
                assert(differs(d, s[j]));
                assert(emitted(full)[j] == e[j]);
                assert(d[s[j]] == full[s[j]]);
            }
        }
        assert forall|a: int, b: int| 0 <= a < b < t.len() implies #[trigger] t[a]
            < #[trigger] t[b] by {
            assert(t[a] == s[a]);
            if b < s.len() {
                assert(t[b] == s[b]);
            }
        }
        assert forall|i: int| 0 <= i < full.len() && #[trigger] differs(
            full,
            i,
        ) implies t.contains(i) by {
            if i < n {
                assert(differs(d, i));
                assert(s.contains(i));
                let j = choose|j: int| 0 <= j < s.len() && s[j] == i;
                assert(t[j] == i);
            } else {
                assert(t[s.len() as int] == i);
            }
        }
        t
    }
}

/// Full records in order are emitted in strict order.
proof fn lemma_emitted_strict(full: Seq<Seq<u8>>, src: Seq<int>, rl: int)
    requires
        rl >= 1,
        src.len() == full.len(),
        ordered(full, src, rl, rl),
        forall|i: int| 0 <= i < full.len() ==> (#[trigger] full[i]).len() == rl,
    ensures
        forall|i: int, j: int|
            0 <= i < j < emitted(full).len() ==> rec_rank(#[trigger] emitted(full)[i], rl, rl)
                < rec_rank(#[trigger] emitted(full)[j], rl, rl),
        forall|i: int| 0 <= i < emitted(full).len() ==> (#[trigger] emitted(full)[i]).len() == rl,
    decreases full.len(),
{
    if full.len() > 0 {
        let d = full.drop_last();
        let x = full.last();
        assert forall|i: int, j: int| 0 <= i < j < d.len() implies pair_le(
            rec_rank(#[trigger] d[i], rl, rl),
            src.drop_last()[i],
            rec_rank(#[trigger] d[j], rl, rl),
            src.drop_last()[j],
        ) by {
            assert(full[i] == d[i] && full[j] == d[j]);
        }
        assert forall|i: int| 0 <= i < d.len() implies (#[trigger] d[i]).len() == rl by {
            assert(full[i] == d[i]);
        }
        lemma_emitted_strict(d, src.drop_last(), rl);
        lemma_emitted(d);
        let e = emitted(d);
        let r = emitted(full);
        assert(full[full.len() - 1] == x);
        assert forall|i: int, j: int| 0 <= i < j < r.len() implies rec_rank(
            #[trigger] r[i],
            rl,
            rl,
        ) < rec_rank(#[trigger] r[j], rl, rl) by {
            if j < e.len() {
                assert(r[i] == e[i] && r[j] == e[j]);
            } else {
                assert(r[j] == x && r[i] == e[i]);
                assert(d.len() > 0);
                let y = d.last();
                assert(full[d.len() - 1] == y);
                assert(e[e.len() - 1] == y);
                assert(rec_rank(y, rl, rl) <= rec_rank(x, rl, rl));
                if rec_rank(y, rl, rl) == rec_rank(x, rl, rl) {
                    lemma_full_rank_injective(y, x, rl);
                }
                if i < e.len() - 1 {
                    assert(rec_rank(e[i], rl, rl) < rec_rank(e[e.len() - 1], rl, rl));
                }
            }
        }
        assert forall|i: int| 0 <= i < r.len() implies (#[trigger] r[i]).len() == rl by {
            if i < e.len() {
                assert(r[i] == e[i]);
            }
        }
    }
}

/// A record is in one of the parts.
pub open spec fn in_parts(runs: Seq<SortedRun>, from: Seq<Cursor>, m: int, x: Seq<u8>) -> bool {
    exists|r: int, i: int|
        0 <= r < m && from[r].pos <= i < from[r].end && #[trigger] runs[r].recs()[i] == x
}

/// Parts lie inside their runs.
pub open spec fn parts_in(runs: Seq<SortedRun>, from: Seq<Cursor>) -> bool {
    forall|r: int| 0 <= r < runs.len() ==> #[trigger] part_in(runs[r], from[r])
}

/// The part lies inside the run.
pub open spec fn part_in(run: SortedRun, c: Cursor) -> bool {
    c.pos <= c.end && c.end <= run.recs().len()
}

proof fn lemma_parts_count(runs: Seq<SortedRun>, from: Seq<Cursor>, m: int, x: Seq<u8>)
    requires
        from.len() == runs.len(),
        0 <= m <= runs.len(),
        parts_in(runs, from),
    ensures
        parts_multiset(runs, from, m).count(x) > 0 <==> in_parts(runs, from, m, x),
    decreases m,
{
    if m > 0 {
        lemma_parts_count(runs, from, m - 1, x);
        let r = m - 1;
        assert(part_in(runs[r], from[r]));
        let s = runs[r].recs().subrange(from[r].pos as int, from[r].end as int);
        s.to_multiset_ensures();
        assert(s.contains(x) <==> s.to_multiset().count(x) > 0);
        if s.contains(x) {
            let i = choose|i: int| 0 <= i < s.len() && s[i] == x;
            assert(runs[r].recs()[from[r].pos + i] == x);
        }
        if in_parts(runs, from, m, x) {
            let (q, i) = choose|q: int, i: int|
                0 <= q < m && from[q].pos <= i < from[q].end && #[trigger] runs[q].recs()[i] == x;
            if q == r {
                assert(s[i - from[r].pos] == x);
            } else {
                assert(in_parts(runs, from, m - 1, x));
            }
        }
        if in_parts(runs, from, m - 1, x) {
            let (q, i) = choose|q: int, i: int|
                0 <= q < m - 1 && from[q].pos <= i < from[q].end && #[trigger] runs[q].recs()[i]
                    == x;
            assert(in_parts(runs, from, m, x));
        }
    }
}

/// A merge loses no record and makes up none, in order or not.
pub proof fn law_merge_records(
    runs: Seq<SortedRun>,
    from: Seq<Cursor>,
    kl: int,
    rl: int,
    out: Seq<u8>,
)
    requires
        from.len() == runs.len(),
        is_merge(runs, from, kl, rl, out),
    ensures
        forall|x: Seq<u8>| #[trigger]
            recs_of(out, rl).contains(x) <==> exists|r: int, i: int|
                0 <= r < runs.len() && from[r].pos <= i < from[r].end
                    && #[trigger] runs[r].recs()[i] == x,
{
    let (full, src, at) = choose|full: Seq<Seq<u8>>, src: Seq<int>, at: Seq<int>| #[trigger]
        merge_result(runs, from, kl, rl, out, full, src, at);
    lemma_emitted(full);
    assert forall|x: Seq<u8>| #[trigger] recs_of(out, rl).contains(x) <==> exists|r: int, i: int|
        0 <= r < runs.len() && from[r].pos <= i < from[r].end && #[trigger] runs[r].recs()[i]
            == x by {
        assert(recs_of(out, rl).contains(x) <==> full.contains(x)) by {
            assert(emitted(full).contains(x) <==> full.contains(x));
        }
        if full.contains(x) {
            let j = choose|j: int| 0 <= j < full.len() && full[j] == x;
            assert(0 <= src[j] < runs.len());
            assert(runs[src[j]].recs()[at[j]] == x);
        }
        if exists|r: int, i: int|
            0 <= r < runs.len() && from[r].pos <= i < from[r].end && #[trigger] runs[r].recs()[i]
                == x {
            let (r, i) = choose|r: int, i: int|
                0 <= r < runs.len() && from[r].pos <= i < from[r].end
                    && #[trigger] runs[r].recs()[i] == x;
            assert(has_place(src, at, r, i));
            let j = choose|j: int| 0 <= j < src.len() && #[trigger] src[j] == r && at[j] == i;
            assert(full[j] == x);
        }
    }
}

/// The records of a merged body are the records of the runs.
pub open spec fn holds_all(inputs: Seq<SortedRun>, out: Seq<u8>) -> bool {
    forall|x: Seq<u8>| #[trigger]
        recs_of(out, inputs[0].head.rec_len as int).contains(x) <==> exists|r: int, i: int|
            0 <= r < inputs.len() && 0 <= i < inputs[r].recs().len()
                && #[trigger] inputs[r].recs()[i] == x
}

proof fn lemma_holds_all(inputs: Seq<SortedRun>, out: Seq<u8>)
    requires
        inputs.len() > 0,
        forall|r: int| 0 <= r < inputs.len() ==> (#[trigger] inputs[r]).valid(),
        is_merge(
            inputs,
            whole(inputs),
            inputs[0].head.key_len as int,
            inputs[0].head.rec_len as int,
            out,
        ),
    ensures
        holds_all(inputs, out),
{
    let rl = inputs[0].head.rec_len as int;
    law_merge_records(inputs, whole(inputs), inputs[0].head.key_len as int, rl, out);
    assert forall|x: Seq<u8>| #[trigger] recs_of(out, rl).contains(x) <==> exists|r: int, i: int|
        0 <= r < inputs.len() && 0 <= i < inputs[r].recs().len() && #[trigger] inputs[r].recs()[i]
            == x by {
        if recs_of(out, rl).contains(x) {
            let (r, i) = choose|r: int, i: int|
                0 <= r < inputs.len() && whole(inputs)[r].pos <= i < whole(inputs)[r].end
                    && #[trigger] inputs[r].recs()[i] == x;
            lemma_run_recs(&inputs[r]);
            assert(inputs[r].recs()[i] == x);
        }
        if exists|r: int, i: int|
            0 <= r < inputs.len() && 0 <= i < inputs[r].recs().len()
                && #[trigger] inputs[r].recs()[i] == x {
            let (r, i) = choose|r: int, i: int|
                0 <= r < inputs.len() && 0 <= i < inputs[r].recs().len()
                    && #[trigger] inputs[r].recs()[i] == x;
            lemma_run_recs(&inputs[r]);
            assert(whole(inputs)[r].pos <= i < whole(inputs)[r].end);
        }
    }
}

/// The number bounds what the records of the runs hold at offset 32, and one of them holds
/// it. It is 0 where there is no record, or records are shorter than 40 bytes.
pub open spec fn max_in_runs(inputs: Seq<SortedRun>, m: u64) -> bool {
    if inputs[0].head.rec_len < 40 {
        m == 0
    } else {
        &&& forall|r: int, i: int|
            0 <= r < inputs.len() && 0 <= i < inputs[r].recs().len() ==> u64_at(
                #[trigger] inputs[r].recs()[i],
                32,
            ) <= m
        &&& m == 0 || exists|r: int, i: int|
            0 <= r < inputs.len() && 0 <= i < inputs[r].recs().len() && u64_at(
                #[trigger] inputs[r].recs()[i],
                32,
            ) == m
    }
}

/// The highest number of the merged records is the highest of all runs.
proof fn lemma_max_in_runs(inputs: Seq<SortedRun>, out: Seq<u8>)
    requires
        inputs.len() > 0,
        holds_all(inputs, out),
        inputs[0].head.rec_len >= 40,
    ensures
        max_in_runs(inputs, max_at_32(recs_of(out, inputs[0].head.rec_len as int))),
{
    let recs = recs_of(out, inputs[0].head.rec_len as int);
    let m = max_at_32(recs);
    law_max_at_32(recs);
    assert forall|r: int, i: int|
        0 <= r < inputs.len() && 0 <= i < inputs[r].recs().len() implies u64_at(
        #[trigger] inputs[r].recs()[i],
        32,
    ) <= m by {
        let x = inputs[r].recs()[i];
        assert(recs.contains(x));
        let j = choose|j: int| 0 <= j < recs.len() && recs[j] == x;
        assert(u64_at(recs[j], 32) <= m);
    }
    if recs.len() > 0 {
        let j = choose|j: int| 0 <= j < recs.len() && u64_at(#[trigger] recs[j], 32) == m;
        assert(recs.contains(recs[j]));
        let (r, i) = choose|r: int, i: int|
            0 <= r < inputs.len() && 0 <= i < inputs[r].recs().len()
                && #[trigger] inputs[r].recs()[i] == recs[j];
        assert(u64_at(inputs[r].recs()[i], 32) == m);
    }
}

/// Merging sorted parts whose key is the whole record gives their records in
/// strict order, each once, and no others.
pub proof fn law_merge_distinct(runs: Seq<SortedRun>, from: Seq<Cursor>, rl: int, out: Seq<u8>)
    requires
        runs_ok(runs, rl, rl),
        cursors_ok(runs, from),
        rl >= 1,
        parts_sorted(runs, from, rl, rl),
        is_merge(runs, from, rl, rl, out),
    ensures
        run_strict(out, rl, rl),
        forall|x: Seq<u8>| #[trigger]
            recs_of(out, rl).contains(x) <==> in_parts(runs, from, runs.len() as int, x),
{
    let (full, src, at) = choose|full: Seq<Seq<u8>>, src: Seq<int>, at: Seq<int>| #[trigger]
        merge_result(runs, from, rl, rl, out, full, src, at);
    lemma_emitted(full);
    assert forall|r: int| 0 <= r < runs.len() implies #[trigger] part_in(runs[r], from[r]) by {
        lemma_run_recs(&runs[r]);
        assert(from[r].pos <= from[r].end);
    }
    full.to_multiset_ensures();
    assert forall|x: Seq<u8>| #[trigger] full.contains(x) <==> in_parts(
        runs,
        from,
        runs.len() as int,
        x,
    ) by {
        lemma_parts_count(runs, from, runs.len() as int, x);
        assert(full.contains(x) <==> full.to_multiset().count(x) > 0);
    }
    assert forall|i: int| 0 <= i < full.len() implies (#[trigger] full[i]).len() == rl by {
        assert(full.contains(full[i]));
        let (q, j) = choose|q: int, j: int|
            0 <= q < runs.len() && from[q].pos <= j < from[q].end && #[trigger] runs[q].recs()[j]
                == full[i];
        lemma_run_recs(&runs[q]);
        assert(from[q].end <= runs[q].head.count);
    }
    lemma_emitted_strict(full, src, rl);
    assert forall|x: Seq<u8>| #[trigger] recs_of(out, rl).contains(x) <==> in_parts(
        runs,
        from,
        runs.len() as int,
        x,
    ) by {
        assert(emitted(full).contains(x) <==> full.contains(x));
    }
}

/// Merging sorted parts whose records carry a payload gives all their records in order.
pub proof fn law_merge_all(runs: Seq<SortedRun>, from: Seq<Cursor>, kl: int, rl: int, out: Seq<u8>)
    requires
        runs_ok(runs, kl, rl),
        cursors_ok(runs, from),
        1 <= kl < rl,
        parts_sorted(runs, from, kl, rl),
        is_merge(runs, from, kl, rl, out),
    ensures
        run_sorted(out, kl, rl),
        recs_of(out, rl).to_multiset() == parts_multiset(runs, from, runs.len() as int),
{
    let (full, src, at) = choose|full: Seq<Seq<u8>>, src: Seq<int>, at: Seq<int>| #[trigger]
        merge_result(runs, from, kl, rl, out, full, src, at);
    let r = recs_of(out, rl);
    assert forall|i: int, j: int| 0 <= i < j < r.len() implies rec_rank(#[trigger] r[i], kl, rl)
        <= rec_rank(#[trigger] r[j], kl, rl) by {
        assert(pair_le(
            rec_rank(full[i], kl, rl),
            src[i],
            rec_rank(full[j], kl, rl),
            src[j],
        ));
    }
}

/// The runs do not all have the lengths of the first one.
pub open spec fn lens_mismatch(inputs: Seq<SortedRun>) -> bool {
    exists|i: int|
        0 <= i < inputs.len() && ((#[trigger] inputs[i]).head.key_len != inputs[0].head.key_len
            || inputs[i].head.rec_len != inputs[0].head.rec_len)
}

/// Key and record length that the runs share.
fn merge_lens(inputs: &Vec<SortedRun>) -> (r: Result<(usize, usize), StoreError>)
    requires
        inputs@.len() > 0,
    ensures
        match r {
            Ok((kl, rl)) => !lens_mismatch(inputs@) && kl == inputs@[0].head.key_len && rl
                == inputs@[0].head.rec_len,
            Err(e) => lens_mismatch(inputs@) && e == StoreError::Corrupt(
                "sorted run: merge len mismatch",
            ),
        },
{
    let kl: u32 = inputs[0].head.key_len;
    let rl: u32 = inputs[0].head.rec_len;
    let mut i: usize = 0;
    while i < inputs.len()
        invariant
            i <= inputs@.len(),
            inputs@.len() > 0,
            kl == inputs@[0].head.key_len,
            rl == inputs@[0].head.rec_len,
            forall|j: int|
                0 <= j < i ==> (#[trigger] inputs@[j]).head.key_len == kl && inputs@[j].head.rec_len
                    == rl,
        decreases inputs@.len() - i,
    {
        if inputs[i].head.key_len != kl || inputs[i].head.rec_len != rl {
            assert(inputs@[i as int].head.key_len != inputs@[0].head.key_len
                || inputs@[i as int].head.rec_len != inputs@[0].head.rec_len);
            return Err(StoreError::Corrupt("sorted run: merge len mismatch"));
        }
        i += 1;
    }
    Ok((kl as usize, rl as usize))
}

/// Whole runs.
pub open spec fn whole(inputs: Seq<SortedRun>) -> Seq<Cursor> {
    Seq::new(inputs.len(), |i: int| Cursor { pos: 0, end: inputs[i].head.count })
}

/// Some run has a wrong checksum.
pub open spec fn any_crc_bad(inputs: Seq<SortedRun>) -> bool {
    exists|i: int|
        0 <= i < inputs.len() && crc_bad((#[trigger] inputs[i]).head, inputs[i].body@)
}

/// All runs are valid.
pub open spec fn inputs_ok(inputs: Seq<SortedRun>) -> bool {
    inputs.len() <= usize::MAX / 8 && forall|i: int|
        0 <= i < inputs.len() ==> (#[trigger] inputs[i]).valid()
}

/// Records of all runs, merged. With `verify_crc` checksums are checked first.
pub fn for_each_merged_rec_opts(inputs: &Vec<SortedRun>, verify_crc: bool) -> (r: Result<
    Vec<u8>,
    StoreError,
>)
    requires
        inputs_ok(inputs@),
    ensures
        match r {
            Ok(out) => {
                &&& inputs@.len() == 0 ==> out@.len() == 0
                &&& inputs@.len() > 0 ==> !lens_mismatch(inputs@) && !(verify_crc && any_crc_bad(
                    inputs@,
                )) && is_merge(
                    inputs@,
                    whole(inputs@),
                    inputs@[0].head.key_len as int,
                    inputs@[0].head.rec_len as int,
                    out@,
                ) && holds_all(inputs@, out@)
            },
            Err(e) => if lens_mismatch(inputs@) {
                e == StoreError::Corrupt("sorted run: merge len mismatch")
            } else {
                verify_crc && any_crc_bad(inputs@) && e == StoreError::Corrupt(
                    "sorted run: body CRC mismatch",
                )
            },
        },
{
    let none: Vec<u8> = Vec::new();
    if inputs.len() == 0 {
        return Ok(none);
    }
    let (kl, rl) = match merge_lens(inputs) {
        Ok(x) => x,
        Err(e) => return Err(e),
    };
    let mut cur: Vec<Cursor> = Vec::new();
    let mut i: usize = 0;
    while i < inputs.len()
        invariant
            i <= inputs@.len(),
            inputs_ok(inputs@),
            !lens_mismatch(inputs@),
            cur@.len() == i,
            forall|j: int|
                0 <= j < i ==> #[trigger] cur@[j] == (Cursor {
                    pos: 0,
                    end: inputs@[j].head.count,
                }),
            verify_crc ==> forall|j: int|
                0 <= j < i ==> !crc_bad((#[trigger] inputs@[j]).head, inputs@[j].body@),
        decreases inputs@.len() - i,
    {
        if verify_crc {
            match verify_run_body(&inputs[i].head, inputs[i].body.as_slice()) {
                Ok(_) => {},
                Err(e) => {
                    assert(crc_bad(inputs@[i as int].head, inputs@[i as int].body@));
                    return Err(e);
                },
            }
        }
        cur.push(Cursor { pos: 0, end: inputs[i].head.count });
        i += 1;
    }
    proof {
        assert(cur@ =~= whole(inputs@));
        assert(inputs@[0].valid());
        assert forall|r: int| 0 <= r < inputs@.len() implies (#[trigger] inputs@[r]).valid()
            && inputs@[r].head.key_len == kl && inputs@[r].head.rec_len == rl by {}
    }
    let out = merge_cursors(inputs, cur, kl, rl);
    proof {
        lemma_holds_all(inputs@, out@);
    }
    Ok(out)
}

/// Records of all runs, merged, after their checksums were checked.
pub fn for_each_merged_rec(inputs: &Vec<SortedRun>) -> (r: Result<Vec<u8>, StoreError>)
    requires
        inputs_ok(inputs@),
    ensures
        match r {
            Ok(out) => {
                &&& inputs@.len() == 0 ==> out@.len() == 0
                &&& inputs@.len() > 0 ==> !lens_mismatch(inputs@) && !any_crc_bad(inputs@)
                    && is_merge(
                    inputs@,
                    whole(inputs@),
                    inputs@[0].head.key_len as int,
                    inputs@[0].head.rec_len as int,
                    out@,
                ) && holds_all(inputs@, out@)
            },
            Err(e) => if lens_mismatch(inputs@) {
                e == StoreError::Corrupt("sorted run: merge len mismatch")
            } else {
                any_crc_bad(inputs@) && e == StoreError::Corrupt("sorted run: body CRC mismatch")
            },
        },
{
    for_each_merged_rec_opts(inputs, true)
}

/// The part of a run that a shard's cuts name.
pub open spec fn shard_part(run: SortedRun, starts: Seq<u64>, shard: int) -> Cursor {
    let n = run.head.count;
    let lo = starts[shard];
    let want = if starts[shard + 1] > lo {
        starts[shard + 1] - lo
    } else {
        0
    };
    let pos = if lo < n {
        lo
    } else {
        n
    };
    Cursor {
        pos,
        end: (if want < n - pos {
            pos + want
        } else {
            n as int
        }) as u64,
    }
}

/// The parts of all runs that a shard's cuts name.
pub open spec fn shard_parts(inputs: Seq<SortedRun>, cuts: Seq<Vec<u64>>, shard: int) -> Seq<
    Cursor,
> {
    Seq::new(inputs.len(), |i: int| shard_part(inputs[i], cuts[i]@, shard))
}

/// The cuts give the shard some records.
pub open spec fn part_asked(starts: Seq<u64>, shard: int) -> bool {
    starts[shard] < starts[shard + 1]
}

/// Records of one prefix shard of all runs, merged. With `verify_crc` the checksums of the
/// runs with records of the shard are checked first.
pub fn for_each_merged_rec_shard(
    inputs: &Vec<SortedRun>,
    cuts: &Vec<Vec<u64>>,
    shard: usize,
    verify_crc: bool,
) -> (r: Result<Vec<u8>, StoreError>)
    requires
        inputs_ok(inputs@),
        shard < usize::MAX,
    ensures
        match r {
            Ok(out) => {
                &&& inputs@.len() == 0 ==> out@.len() == 0
                &&& inputs@.len() > 0 ==> cuts@.len() == inputs@.len() && !lens_mismatch(inputs@)
                    && (forall|i: int|
                    0 <= i < inputs@.len() ==> shard + 1 < (#[trigger] cuts@[i])@.len())
                    && is_merge(
                    inputs@,
                    shard_parts(inputs@, cuts@, shard as int),
                    inputs@[0].head.key_len as int,
                    inputs@[0].head.rec_len as int,
                    out@,
                )
                &&& inputs@.len() > 0 && verify_crc ==> forall|i: int|
                    0 <= i < inputs@.len() && part_asked(#[trigger] cuts@[i]@, shard as int)
                        ==> !crc_bad(inputs@[i].head, inputs@[i].body@)
            },
            Err(e) => {
                &&& inputs@.len() > 0
                &&& if cuts@.len() != inputs@.len() {
                    e == StoreError::Corrupt("sorted run: shard cuts len mismatch")
                } else if lens_mismatch(inputs@) {
                    e == StoreError::Corrupt("sorted run: merge len mismatch")
                } else {
                    ||| e == StoreError::Corrupt("sorted run: shard cut out of range") && exists|
                        i: int,
                    |
                        0 <= i < inputs@.len() && shard + 1 >= (#[trigger] cuts@[i])@.len()
                    ||| e == StoreError::Corrupt("sorted run: body CRC mismatch") && verify_crc
                        && exists|i: int|
                        0 <= i < inputs@.len() && shard + 1 < cuts@[i]@.len() && part_asked(
                            #[trigger] cuts@[i]@,
                            shard as int,
                        ) && crc_bad(inputs@[i].head, inputs@[i].body@)
                }
            },
        },
{
    let none: Vec<u8> = Vec::new();
    if inputs.len() == 0 {
        return Ok(none);
    }
    if cuts.len() != inputs.len() {
        return Err(StoreError::Corrupt("sorted run: shard cuts len mismatch"));
    }
    let (kl, rl) = match merge_lens(inputs) {
        Ok(x) => x,
        Err(e) => return Err(e),
    };
    let mut cur: Vec<Cursor> = Vec::new();
    let mut i: usize = 0;
    while i < inputs.len()
        invariant
            i <= inputs@.len(),
            inputs_ok(inputs@),
            cuts@.len() == inputs@.len(),
            !lens_mismatch(inputs@),
            inputs@.len() > 0,
            shard < usize::MAX,
            cur@.len() == i,
            forall|j: int|
                0 <= j < i ==> #[trigger] cur@[j] == shard_part(
                    inputs@[j],
                    cuts@[j]@,
                    shard as int,
                ),
            forall|j: int| 0 <= j < i ==> shard + 1 < (#[trigger] cuts@[j])@.len(),
            verify_crc ==> forall|j: int|
                0 <= j < i && part_asked(#[trigger] cuts@[j]@, shard as int) ==> !crc_bad(
                    inputs@[j].head,
                    inputs@[j].body@,
                ),
        decreases inputs@.len() - i,
    {
        if shard + 1 >= cuts[i].len() {
            assert(shard + 1 >= cuts@[i as int]@.len());
            return Err(StoreError::Corrupt("sorted run: shard cut out of range"));
        }
        let n: u64 = inputs[i].head.count;
        let lo: u64 = cuts[i][shard];
        let hi: u64 = cuts[i][shard + 1];
        let want: u64 = if hi > lo {
            hi - lo
        } else {
            0
        };
        if want > 0 && verify_crc {
            match verify_run_body(&inputs[i].head, inputs[i].body.as_slice()) {
                Ok(_) => {},
                Err(e) => {
                    assert(part_asked(cuts@[i as int]@, shard as int));
                    assert(crc_bad(inputs@[i as int].head, inputs@[i as int].body@));
                    return Err(e);
                },
            }
        }
        let pos: u64 = if lo < n {
            lo
        } else {
            n
        };
        let end: u64 = if want < n - pos {
            pos + want
        } else {
            n
        };
        cur.push(Cursor { pos, end });
        i += 1;
    }
    proof {
        assert(cur@ =~= shard_parts(inputs@, cuts@, shard as int));
        assert(inputs@[0].valid());
        assert forall|r: int| 0 <= r < inputs@.len() implies (#[trigger] inputs@[r]).valid()
            && inputs@[r].head.key_len == kl && inputs@[r].head.rec_len == rl by {}
    }
    Ok(merge_cursors(inputs, cur, kl, rl))
}

/// Merged run: its header, its file and the largest number at offset 32.
pub struct MergeToFileResult {
    pub run: SortedRunPath,
    pub file: Vec<u8>,
    /// 0 for records that are shorter than 40 bytes.
    pub max_u64_at_32: u64,
}

/// Largest number at offset 32 of the records.
pub open spec fn max_at_32(recs: Seq<Seq<u8>>) -> u64
    decreases recs.len(),
{
    if recs.len() == 0 {
        0
    } else {
        let m = max_at_32(recs.drop_last());
        let x = u64_at(recs.last(), 32);
        if x > m {
            x
        } else {
            m
        }
    }
}

/// The number bounds every record and is attained; it is 0 for no records.
pub proof fn law_max_at_32(recs: Seq<Seq<u8>>)
    ensures
        forall|i: int| 0 <= i < recs.len() ==> u64_at(#[trigger] recs[i], 32) <= max_at_32(recs),
        recs.len() > 0 ==> exists|i: int|
            0 <= i < recs.len() && u64_at(#[trigger] recs[i], 32) == max_at_32(recs),
        recs.len() == 0 ==> max_at_32(recs) == 0,
    decreases recs.len(),
{
    if recs.len() > 0 {
        let d = recs.drop_last();
        law_max_at_32(d);
        let m = max_at_32(recs);
        assert forall|i: int| 0 <= i < recs.len() implies u64_at(#[trigger] recs[i], 32) <= m by {
            if i < d.len() {
                assert(d[i] == recs[i]);
            }
        }
        if m == u64_at(recs.last(), 32) {
            assert(u64_at(recs[recs.len() - 1], 32) == m);
        } else if d.len() > 0 {
            let i = choose|i: int| 0 <= i < d.len() && u64_at(#[trigger] d[i], 32) == max_at_32(d);
            assert(recs[i] == d[i]);
        }
    }
}

fn find_max_at_32(body: &Vec<u8>, rec_len: usize) -> (r: u64)
    requires
        rec_len >= 1,
        body@.len() as int % rec_len as int == 0,
    ensures
        r == (if rec_len >= 40 {
            max_at_32(recs_of(body@, rec_len as int))
        } else {
            0
        }),
        rec_len >= 40 ==> forall|i: int|
            0 <= i < recs_of(body@, rec_len as int).len() ==> u64_at(
                #[trigger] recs_of(body@, rec_len as int)[i],
                32,
            ) <= r,
        rec_len >= 40 && body@.len() > 0 ==> exists|i: int|
            0 <= i < recs_of(body@, rec_len as int).len() && u64_at(
                #[trigger] recs_of(body@, rec_len as int)[i],
                32,
            ) == r,
{
    if rec_len < 40 {
        return 0;
    }
    let ghost rl = rec_len as int;
    let len: usize = body.len();
    let n: usize = len / rec_len;
    let ghost recs = recs_of(body@, rl);
    proof {
        vstd::arithmetic::div_mod::lemma_fundamental_div_mod(len as int, rl);
        assert(n * rl == len) by (nonlinear_arith)
            requires
                len as int == rl * n as int + 0,
        ;
        assert(recs.subrange(0, 0) =~= Seq::empty());
    }
    let mut m: u64 = 0;
    let mut i: usize = 0;
    let mut off: usize = 0;
    while i < n
        invariant
            i <= n,
            off == i * rl,
            n * rl == len,
            len == body@.len(),
            rl == rec_len,
            rl >= 40,
            recs == recs_of(body@, rl),
            recs.len() == n,
            m == max_at_32(recs.subrange(0, i as int)),
        decreases n - i,
    {
        proof {
            lemma_rec_bounds(len as int, rl, i as int, n as int);
            let p = recs.subrange(0, i + 1);
            assert(p.drop_last() =~= recs.subrange(0, i as int));
            assert(p.last() == rec_at(body@, rl, i as int));
            assert(rec_at(body@, rl, i as int).subrange(32, 40) =~= body@.subrange(
                off + 32,
                off + 40,
            ));
        }
        let x: u64 = get_u64(body.as_slice(), off + 32);
        if x > m {
            m = x;
        }
        off += rec_len;
        i += 1;
    }
    proof {
        assert(recs.subrange(0, n as int) =~= recs);
        law_max_at_32(recs);
        if n == 0 {
            assert(n * rl == 0) by (nonlinear_arith)
                requires
                    n == 0,
            ;
        }
    }
    m
}

/// A run file with merged records.
pub open spec fn merged_file(res: MergeToFileResult, kl: u32, rl: u32, body: Seq<u8>, seq: Option<
    u64,
>) -> bool {
    &&& res.file@ == run_file(kl, rl, body)
    &&& res.run == (SortedRunPath {
        seq,
        count: (body.len() as int / rl as int) as u64,
        rec_len: rl,
        key_len: kl,
        body_crc32: crc_of(body),
    })
    &&& res.max_u64_at_32 == (if rl >= 40 {
        max_at_32(recs_of(body, rl as int))
    } else {
        0
    })
}

/// A merged file holds the records of the runs from byte 32 on, and reports the highest number
/// that they have at offset 32.
pub open spec fn merge_holds(inputs: Seq<SortedRun>, res: MergeToFileResult) -> bool {
    &&& res.file@.len() >= 32
    &&& holds_all(inputs, res.file@.subrange(32, res.file@.len() as int))
    &&& max_in_runs(inputs, res.max_u64_at_32)
}

/// Merges sorted runs into a new run file. Of no runs at all the result is an
/// empty run of 40-byte records.
pub fn merge_runs_to_file_with_policy(
    inputs: &Vec<SortedRun>,
    out_seq: Option<u64>,
    verify_crc: bool,
) -> (r: Result<MergeToFileResult, StoreError>)
    requires
        inputs_ok(inputs@),
    ensures
        inputs@.len() == 0 ==> r is Ok && merged_file(r->Ok_0, 40, 40, Seq::empty(), out_seq),
        inputs@.len() > 0 ==> match r {
            Ok(res) => exists|body: Seq<u8>| #[trigger]
                is_merge(
                    inputs@,
                    whole(inputs@),
                    inputs@[0].head.key_len as int,
                    inputs@[0].head.rec_len as int,
                    body,
                ) && merged_file(
                    res,
                    inputs@[0].head.key_len,
                    inputs@[0].head.rec_len,
                    body,
                    out_seq,
                ) && holds_all(inputs@, body) && !lens_mismatch(inputs@) && !(verify_crc
                    && any_crc_bad(inputs@)),
            Err(e) => if lens_mismatch(inputs@) {
                e == StoreError::Corrupt("sorted run: merge len mismatch")
            } else {
                verify_crc && any_crc_bad(inputs@) && e == StoreError::Corrupt(
                    "sorted run: body CRC mismatch",
                )
            },
        },
        inputs@.len() > 0 && r is Ok ==> merge_holds(inputs@, r->Ok_0),
{
    if inputs.len() == 0 {
        let none: Vec<u8> = Vec::new();
        proof {
            assert(none@ =~= Seq::<u8>::empty());
            lemma_rec_count(0, 40, 0);
            assert(recs_of(none@, 40) =~= Seq::<Seq<u8>>::empty());
        }
        let (run, file) = crate::sorted_run::run_bytes(out_seq, 40, 40, none.as_slice());
        return Ok(MergeToFileResult { run, file, max_u64_at_32: 0 });
    }
    let body = match for_each_merged_rec_opts(inputs, verify_crc) {
        Ok(b) => b,
        Err(e) => return Err(e),
    };
    let kl: u32 = inputs[0].head.key_len;
    let rl: u32 = inputs[0].head.rec_len;
    let ghost from = whole(inputs@);
    proof {
        assert(inputs@[0].valid());
        let (full, src, at) = choose|full: Seq<Seq<u8>>, src: Seq<int>, at: Seq<int>| #[trigger]
            merge_result(inputs@, from, kl as int, rl as int, body@, full, src, at);
        assert(body@.len() as int % rl as int == 0);
    }
    let max: u64 = find_max_at_32(&body, rl as usize);
    let blen: usize = body.len();
    assert(body@.len() == blen);
    let (run, file) = crate::sorted_run::run_bytes(out_seq, kl, rl, body.as_slice());
    let res = MergeToFileResult { run, file, max_u64_at_32: max };
    assert(is_merge(inputs@, from, kl as int, rl as int, body@));
    assert(merged_file(res, kl, rl, body@, out_seq));
    proof {
        if rl >= 40 {
            lemma_max_in_runs(inputs@, body@);
        }
        crate::format_laws::law_run_layout(kl, rl, body@);
    }
    Ok(res)
}

} // verus!
