//! What holds of merges of sorted runs as a whole: a merge has one result, and merging
//! shard by shard gives it piece by piece.

use vstd::prelude::*;
use crate::run_merge::{drawn, emitted, has_place, is_merge, merge_result, merged_out, ordered, pair_le, part_ends, part_sorted, parts_multiset, parts_sorted, runs_ok, shard_part, shard_parts, whole, Cursor};
use crate::scripthash_head::shard_count_ok;
use crate::sorted_run::{lemma_rank_shard, lemma_rec_bounds, lemma_run_recs, rec_rank, rec_shard, recs_of, run_sorted, SortedRun};

verus! {

/// The records of the parts in merge order, with their places.
pub open spec fn merge_of(
    runs: Seq<SortedRun>,
    from: Seq<Cursor>,
    kl: int,
    rl: int,
    full: Seq<Seq<u8>>,
    src: Seq<int>,
    at: Seq<int>,
) -> bool {
    &&& drawn(runs, from, part_ends(from), full, src, at)
    &&& ordered(full, src, kl, rl)
}

/// Record `i` comes before record `j` of another list: by rank, then by run, then by
/// place.
spec fn before(
    x: Seq<u8>,
    r: int,
    p: int,
    y: Seq<u8>,
    q: int,
    o: int,
    kl: int,
    rl: int,
) -> bool {
    let (a, b) = (rec_rank(x, kl, rl), rec_rank(y, kl, rl));
    a < b || (a == b && (r < q || (r == q && p < o)))
}

proof fn lemma_before(
    runs: Seq<SortedRun>,
    from: Seq<Cursor>,
    kl: int,
    rl: int,
    full: Seq<Seq<u8>>,
    src: Seq<int>,
    at: Seq<int>,
    i: int,
    j: int,
)
    requires
        merge_of(runs, from, kl, rl, full, src, at),
        0 <= i < j < full.len(),
    ensures
        before(full[i], src[i], at[i], full[j], src[j], at[j], kl, rl),
{
    assert(pair_le(rec_rank(full[i], kl, rl), src[i], rec_rank(full[j], kl, rl), src[j]));
}

/// Two merges of the same parts agree up to `n`.
proof fn lemma_agree(
    runs: Seq<SortedRun>,
    from: Seq<Cursor>,
    kl: int,
    rl: int,
    f: Seq<Seq<u8>>,
    s: Seq<int>,
    a: Seq<int>,
    g: Seq<Seq<u8>>,
    t: Seq<int>,
    b: Seq<int>,
    n: int,
)
    requires
        merge_of(runs, from, kl, rl, f, s, a),
        merge_of(runs, from, kl, rl, g, t, b),
        0 <= n <= f.len(),
    ensures
        n <= g.len(),
        forall|i: int| 0 <= i < n ==> (#[trigger] s[i]) == t[i] && a[i] == b[i] && f[i] == g[i],
    decreases n,
{
    if n > 0 {
        let m = n - 1;
        lemma_agree(runs, from, kl, rl, f, s, a, g, t, b, m);
        assert(has_place(t, b, s[m], a[m]));
        let j = choose|j: int| 0 <= j < t.len() && #[trigger] t[j] == s[m] && b[j] == a[m];
        if j < m {
            assert(s[j] == t[j]);
            lemma_before(runs, from, kl, rl, f, s, a, j, m);
        }
        if j > m {
            assert(has_place(s, a, t[m], b[m]));
            let k = choose|k: int| 0 <= k < s.len() && #[trigger] s[k] == t[m] && a[k] == b[m];
            lemma_before(runs, from, kl, rl, g, t, b, m, j);
            if k < m {
                assert(s[k] == t[k]);
                lemma_before(runs, from, kl, rl, g, t, b, k, m);
            } else if k > m {
                lemma_before(runs, from, kl, rl, f, s, a, m, k);
            }
        }
        assert(j == m);
    }
}

/// The records of the parts in merge order are one list.
proof fn lemma_one_order(
    runs: Seq<SortedRun>,
    from: Seq<Cursor>,
    kl: int,
    rl: int,
    f: Seq<Seq<u8>>,
    s: Seq<int>,
    a: Seq<int>,
    g: Seq<Seq<u8>>,
    t: Seq<int>,
    b: Seq<int>,
)
    requires
        merge_of(runs, from, kl, rl, f, s, a),
        merge_of(runs, from, kl, rl, g, t, b),
    ensures
        f == g,
{
    lemma_agree(runs, from, kl, rl, f, s, a, g, t, b, f.len() as int);
    lemma_agree(runs, from, kl, rl, g, t, b, f, s, a, g.len() as int);
    assert forall|i: int| 0 <= i < f.len() implies f[i] == g[i] by {
        assert(s[i] == t[i]);
    }
    assert(f =~= g);
}

/// Bytes of whole records are those of the records.
proof fn lemma_same_bytes(x: Seq<u8>, y: Seq<u8>, rl: int)
    requires
        rl >= 1,
        x.len() as int % rl == 0,
        y.len() as int % rl == 0,
        recs_of(x, rl) == recs_of(y, rl),
    ensures
        x == y,
{
    let n = recs_of(x, rl).len() as int;
    assert(n == x.len() as int / rl && n == y.len() as int / rl);
    vstd::arithmetic::div_mod::lemma_fundamental_div_mod(x.len() as int, rl);
    vstd::arithmetic::div_mod::lemma_fundamental_div_mod(y.len() as int, rl);
    assert(x.len() == y.len());
    assert forall|p: int| 0 <= p < x.len() implies x[p] == y[p] by {
        let i = p / rl;
        vstd::arithmetic::div_mod::lemma_fundamental_div_mod(p, rl);
        vstd::arithmetic::div_mod::lemma_mod_bound(p, rl);
        assert(0 <= i < n) by (nonlinear_arith)
            requires
                p == rl * i + p % rl,
                0 <= p % rl < rl,
                0 <= p < x.len(),
                x.len() == rl * n,
                rl >= 1,
        ;
        assert(i * rl == rl * i) by (nonlinear_arith);
        assert(n * rl == rl * n) by (nonlinear_arith);
        lemma_rec_bounds(x.len() as int, rl, i, n);
        assert(recs_of(x, rl)[i][p % rl] == x[p]);
        assert(recs_of(y, rl)[i][p % rl] == y[p]);
    }
    assert(x =~= y);
}

/// Record `i` of a merged body is record `at[i]` of run `src[i]`. Every record between the
/// cursors is there once. They come by rank, those of equal rank in the order of the runs, and
/// those of one run in its order.
pub open spec fn stands_in_order(
    runs: Seq<SortedRun>,
    from: Seq<Cursor>,
    kl: int,
    rl: int,
    recs: Seq<Seq<u8>>,
    src: Seq<int>,
    at: Seq<int>,
) -> bool {
    &&& src.len() == recs.len()
    &&& at.len() == recs.len()
    &&& forall|i: int|
        0 <= i < recs.len() ==> 0 <= #[trigger] src[i] < runs.len() && from[src[i]].pos <= at[i]
            < from[src[i]].end && recs[i] == runs[src[i]].recs()[at[i]]
    &&& forall|r: int, q: int|
        0 <= r < runs.len() && from[r].pos <= q < from[r].end ==> #[trigger] has_place(
            src,
            at,
            r,
            q,
        )
    &&& forall|i: int, j: int|
        0 <= i < j < recs.len() ==> {
            let a = rec_rank(#[trigger] recs[i], kl, rl);
            let b = rec_rank(#[trigger] recs[j], kl, rl);
            a < b || (a == b && (src[i] < src[j] || (src[i] == src[j] && at[i] < at[j])))
        }
}

/// Sorted parts whose records carry a payload are merged whole: by key, then by run, then as
/// they stand in the run.
pub proof fn law_merge_order(
    runs: Seq<SortedRun>,
    from: Seq<Cursor>,
    kl: int,
    rl: int,
    out: Seq<u8>,
)
    requires
        1 <= kl < rl,
        from.len() == runs.len(),
        parts_sorted(runs, from, kl, rl),
        is_merge(runs, from, kl, rl, out),
    ensures
        exists|src: Seq<int>, at: Seq<int>| #[trigger]
            stands_in_order(runs, from, kl, rl, recs_of(out, rl), src, at),
{
    let (full, src, at) = choose|full: Seq<Seq<u8>>, src: Seq<int>, at: Seq<int>| #[trigger]
        merge_result(runs, from, kl, rl, out, full, src, at);
    let recs = recs_of(out, rl);
    assert(recs == full);
    assert forall|i: int, j: int| 0 <= i < j < recs.len() implies {
        let a = rec_rank(#[trigger] recs[i], kl, rl);
        let b = rec_rank(#[trigger] recs[j], kl, rl);
        a < b || (a == b && (src[i] < src[j] || (src[i] == src[j] && at[i] < at[j])))
    } by {
        assert(pair_le(rec_rank(full[i], kl, rl), src[i], rec_rank(full[j], kl, rl), src[j]));
        if src[i] == src[j] {
            assert(at[i] < at[j]);
        }
    }
    assert(stands_in_order(runs, from, kl, rl, recs, src, at));
}

/// The part of a run that belongs to a shard begins and ends where its cuts say.
pub proof fn law_shard_part(run: SortedRun, starts: Seq<u64>, shard: int)
    requires
        0 <= shard,
        shard + 1 < starts.len(),
        starts[shard] <= starts[shard + 1] <= run.head.count,
    ensures
        shard_part(run, starts, shard).pos == starts[shard],
        shard_part(run, starts, shard).end == starts[shard + 1],
{
}

/// A merge of sorted parts has one result: the records by rank, those of equal rank in
/// the order of the runs, and within a run in its order.
pub proof fn law_merge_unique(
    runs: Seq<SortedRun>,
    from: Seq<Cursor>,
    kl: int,
    rl: int,
    x: Seq<u8>,
    y: Seq<u8>,
)
    requires
        1 <= kl <= rl,
        parts_sorted(runs, from, kl, rl),
        is_merge(runs, from, kl, rl, x),
        is_merge(runs, from, kl, rl, y),
    ensures
        x == y,
{
    let (f, s, a) = choose|f: Seq<Seq<u8>>, s: Seq<int>, a: Seq<int>| #[trigger]
        merge_result(runs, from, kl, rl, x, f, s, a);
    let (g, t, b) = choose|g: Seq<Seq<u8>>, t: Seq<int>, b: Seq<int>| #[trigger]
        merge_result(runs, from, kl, rl, y, g, t, b);
    lemma_one_order(runs, from, kl, rl, f, s, a, g, t, b);
    lemma_same_bytes(x, y, rl);
}

/// Records of the first `m` runs.
pub open spec fn total_recs(runs: Seq<SortedRun>, m: int) -> int
    decreases m,
{
    if m <= 0 {
        0
    } else {
        total_recs(runs, m - 1) + runs[m - 1].head.count
    }
}

proof fn lemma_parts_len(runs: Seq<SortedRun>, from: Seq<Cursor>, m: int)
    requires
        0 <= m <= runs.len(),
        from.len() == runs.len(),
        forall|r: int|
            0 <= r < runs.len() ==> (#[trigger] from[r]).pos <= from[r].end
                <= runs[r].head.count && runs[r].valid(),
    ensures
        parts_multiset(runs, from, m).len() <= total_recs(runs, m),
    decreases m,
{
    if m > 0 {
        lemma_parts_len(runs, from, m - 1);
        assert(from[m - 1].pos <= from[m - 1].end);
        lemma_run_recs(&runs[m - 1]);
        let p = runs[m - 1].recs().subrange(from[m - 1].pos as int, from[m - 1].end as int);
        p.to_multiset_ensures();
    }
}

proof fn lemma_emitted_len(f: Seq<Seq<u8>>)
    ensures
        emitted(f).len() <= f.len(),
    decreases f.len(),
{
    if f.len() > 0 {
        lemma_emitted_len(f.drop_last());
    }
}

/// A merge has no more records than the runs.
pub proof fn lemma_merge_len(
    runs: Seq<SortedRun>,
    from: Seq<Cursor>,
    kl: int,
    rl: int,
    out: Seq<u8>,
)
    requires
        is_merge(runs, from, kl, rl, out),
        from.len() == runs.len(),
        forall|r: int|
            0 <= r < runs.len() ==> (#[trigger] from[r]).pos <= from[r].end
                <= runs[r].head.count && runs[r].valid(),
    ensures
        recs_of(out, rl).len() <= total_recs(runs, runs.len() as int),
{
    let (full, src, at) = choose|full: Seq<Seq<u8>>, src: Seq<int>, at: Seq<int>| #[trigger]
        merge_result(runs, from, kl, rl, out, full, src, at);
    lemma_parts_len(runs, from, runs.len() as int);
    full.to_multiset_ensures();
    lemma_emitted_len(full);
}

/// The cuts are those of the shards: record `i` lies at or behind cut `s` exactly if its
/// shard is `s` or a later one.
pub open spec fn shard_cuts(run: SortedRun, cuts: Seq<u64>, n: int) -> bool {
    &&& cuts.len() == n + 1
    &&& cuts[0] == 0
    &&& cuts[n] == run.head.count
    &&& forall|s: int| 0 <= s <= n ==> (#[trigger] cuts[s]) <= run.head.count
    &&& forall|s: int, i: int|
        0 <= s < n && 0 <= i < run.recs().len() ==> ((#[trigger] cuts[s] <= i) <==> rec_shard(
            #[trigger] run.recs()[i],
            n,
        ) >= s)
}

/// Sorted runs with the same lengths, and their cuts.
pub open spec fn cut_runs(
    inputs: Seq<SortedRun>,
    cuts: Seq<Vec<u64>>,
    kl: int,
    rl: int,
    n: int,
) -> bool {
    &&& 1 <= kl <= rl
    &&& n >= 1
    &&& shard_count_ok(n)
    &&& runs_ok(inputs, kl, rl)
    &&& cuts.len() == inputs.len()
    &&& forall|r: int|
        0 <= r < inputs.len() ==> run_sorted((#[trigger] inputs[r]).body@, kl, rl) && shard_cuts(
            inputs[r],
            cuts[r]@,
            n,
        )
}

/// The records before shard `m` of each run.
spec fn first_shards(inputs: Seq<SortedRun>, cuts: Seq<Vec<u64>>, m: int) -> Seq<Cursor> {
    Seq::new(inputs.len(), |r: int| Cursor { pos: 0, end: cuts[r]@[m] })
}

proof fn lemma_cuts_rise(run: SortedRun, cuts: Seq<u64>, n: int, s: int)
    requires
        run.valid(),
        shard_cuts(run, cuts, n),
        0 <= s < n,
    ensures
        cuts[s] <= cuts[s + 1],
{
    lemma_run_recs(&run);
    if cuts[s + 1] < cuts[s] {
        let i = cuts[s + 1] as int;
        assert(s + 1 < n);
        assert(cuts[s + 1] <= i);
        assert(rec_shard(run.recs()[i], n) >= s + 1);
        assert(cuts[s] <= i);
    }
}

/// The part of a shard lies between its cuts.
proof fn lemma_shard_part(inputs: Seq<SortedRun>, cuts: Seq<Vec<u64>>, kl: int, rl: int, n: int, s: int)
    requires
        cut_runs(inputs, cuts, kl, rl, n),
        0 <= s < n,
    ensures
        forall|r: int|
            0 <= r < inputs.len() ==> (#[trigger] shard_parts(inputs, cuts, s)[r]) == (Cursor {
                pos: cuts[r]@[s],
                end: cuts[r]@[s + 1],
            }),
{
    assert forall|r: int| 0 <= r < inputs.len() implies (#[trigger] shard_parts(
        inputs,
        cuts,
        s,
    )[r]) == (Cursor { pos: cuts[r]@[s], end: cuts[r]@[s + 1] }) by {
        assert(run_sorted(inputs[r].body@, kl, rl));
        assert(inputs[r].valid());
        lemma_cuts_rise(inputs[r], cuts[r]@, n, s);
    }
}

/// The merge of the shards before `m` and the merge of shard `m`, one behind the other.
proof fn lemma_one_more_shard(
    inputs: Seq<SortedRun>,
    cuts: Seq<Vec<u64>>,
    kl: int,
    rl: int,
    n: int,
    m: int,
    f: Seq<Seq<u8>>,
    s: Seq<int>,
    a: Seq<int>,
    g: Seq<Seq<u8>>,
    t: Seq<int>,
    b: Seq<int>,
)
    requires
        cut_runs(inputs, cuts, kl, rl, n),
        0 <= m < n,
        merge_of(inputs, first_shards(inputs, cuts, m), kl, rl, f, s, a),
        merge_of(inputs, shard_parts(inputs, cuts, m), kl, rl, g, t, b),
    ensures
        merge_of(inputs, first_shards(inputs, cuts, m + 1), kl, rl, f + g, s + t, a + b),
        forall|i: int, j: int|
            0 <= i < f.len() && 0 <= j < g.len() ==> (#[trigger] f[i]) != (#[trigger] g[j]),
{
    let p = first_shards(inputs, cuts, m);
    let q = shard_parts(inputs, cuts, m);
    let w = first_shards(inputs, cuts, m + 1);
    let (ff, ss, aa) = (f + g, s + t, a + b);
    let len = f.len() as int;
    lemma_shard_part(inputs, cuts, kl, rl, n, m);
    assert forall|i: int| 0 <= i < len implies 0 <= #[trigger] s[i] < inputs.len() && 0 <= a[i]
        < cuts[s[i]]@[m] by {
        assert(part_ends(p)[s[i]] == cuts[s[i]]@[m]);
    }
    assert forall|j: int| 0 <= j < g.len() implies 0 <= #[trigger] t[j] < inputs.len() && cuts[t[j]]@[m]
        <= b[j] < cuts[t[j]]@[m + 1] by {
        assert(q[t[j]] == (Cursor { pos: cuts[t[j]]@[m], end: cuts[t[j]]@[m + 1] }));
        assert(part_ends(q)[t[j]] == cuts[t[j]]@[m + 1]);
    }
    assert forall|i: int, j: int| 0 <= i < len && 0 <= j < g.len() implies rec_rank(
        #[trigger] f[i],
        kl,
        rl,
    ) < rec_rank(#[trigger] g[j], kl, rl) by {
        lemma_apart(inputs, cuts, kl, rl, n, m, s[i], a[i], t[j], b[j]);
    }
    assert forall|i: int| 0 <= i < ff.len() implies 0 <= #[trigger] ss[i] < inputs.len()
        && w[ss[i]].pos <= aa[i] < part_ends(w)[ss[i]] && ff[i] == inputs[ss[i]].recs()[aa[i]] by {
        if i < len {
            assert(ss[i] == s[i]);
            lemma_run_cut(inputs, cuts, kl, rl, n, s[i], m);
        } else {
            assert(ss[i] == t[i - len]);
        }
    }
    assert forall|i: int, j: int|
        0 <= i < j < ff.len() && (#[trigger] ss[i]) == (#[trigger] ss[j]) implies aa[i] < aa[j] by {
        if j < len {
            assert(ss[i] == s[i] && ss[j] == s[j]);
        } else if i >= len {
            assert(ss[i] == t[i - len] && ss[j] == t[j - len]);
        } else {
            assert(ss[i] == s[i] && ss[j] == t[j - len]);
        }
    }
    assert forall|r: int, o: int|
        0 <= r < inputs.len() && w[r].pos <= o < part_ends(w)[r] implies #[trigger] has_place(
        ss,
        aa,
        r,
        o,
    ) by {
        if o < cuts[r]@[m] {
            assert(o < part_ends(p)[r]);
            assert(has_place(s, a, r, o));
            let i = choose|i: int| 0 <= i < s.len() && #[trigger] s[i] == r && a[i] == o;
            assert(ss[i] == r && aa[i] == o);
        } else {
            assert(q[r].pos <= o < part_ends(q)[r]);
            assert(has_place(t, b, r, o));
            let j = choose|j: int| 0 <= j < t.len() && #[trigger] t[j] == r && b[j] == o;
            assert(ss[len + j] == r && aa[len + j] == o);
        }
    }
    assert forall|i: int, j: int| 0 <= i < j < ff.len() implies pair_le(
        rec_rank(#[trigger] ff[i], kl, rl),
        ss[i],
        rec_rank(#[trigger] ff[j], kl, rl),
        ss[j],
    ) by {
        if j < len {
            assert(ff[i] == f[i] && ff[j] == f[j]);
        } else if i >= len {
            assert(ff[i] == g[i - len] && ff[j] == g[j - len]);
        } else {
            assert(ff[i] == f[i] && ff[j] == g[j - len]);
        }
    }
    assert forall|i: int, j: int| 0 <= i < f.len() && 0 <= j < g.len() implies (#[trigger] f[i]) != (
    #[trigger] g[j]) by {
        assert(rec_rank(f[i], kl, rl) < rec_rank(g[j], kl, rl));
    }
}

proof fn lemma_run_cut(inputs: Seq<SortedRun>, cuts: Seq<Vec<u64>>, kl: int, rl: int, n: int, r: int, m: int)
    requires
        cut_runs(inputs, cuts, kl, rl, n),
        0 <= r < inputs.len(),
        0 <= m < n,
    ensures
        cuts[r]@[m] <= cuts[r]@[m + 1] <= inputs[r].recs().len(),
{
    assert(run_sorted(inputs[r].body@, kl, rl));
    assert(inputs[r].valid());
    lemma_cuts_rise(inputs[r], cuts[r]@, n, m);
    lemma_run_recs(&inputs[r]);
    assert(cuts[r]@[m + 1] <= inputs[r].head.count);
}

/// A record before shard `m` has a smaller rank than one of shard `m`.
proof fn lemma_apart(
    inputs: Seq<SortedRun>,
    cuts: Seq<Vec<u64>>,
    kl: int,
    rl: int,
    n: int,
    m: int,
    r: int,
    i: int,
    q: int,
    j: int,
)
    requires
        cut_runs(inputs, cuts, kl, rl, n),
        0 <= m < n,
        0 <= r < inputs.len(),
        0 <= q < inputs.len(),
        0 <= i < cuts[r]@[m],
        cuts[q]@[m] <= j < cuts[q]@[m + 1],
    ensures
        rec_rank(inputs[r].recs()[i], kl, rl) < rec_rank(inputs[q].recs()[j], kl, rl),
{
    let x = inputs[r].recs()[i];
    let y = inputs[q].recs()[j];
    lemma_run_cut(inputs, cuts, kl, rl, n, r, m);
    lemma_run_cut(inputs, cuts, kl, rl, n, q, m);
    assert(inputs[r].valid() && inputs[q].valid());
    lemma_run_recs(&inputs[r]);
    lemma_run_recs(&inputs[q]);
    assert(run_sorted(inputs[r].body@, kl, rl) && run_sorted(inputs[q].body@, kl, rl));
    assert(!(cuts[r]@[m] <= i));
    assert(cuts[q]@[m] <= j);
    assert(rec_shard(x, n) < m);
    assert(rec_shard(y, n) >= m);
    if rec_rank(y, kl, rl) <= rec_rank(x, kl, rl) {
        lemma_rank_shard(y, x, kl, rl, n);
    }
}

/// Emitting two lists that share no record.
proof fn lemma_emitted_concat(f: Seq<Seq<u8>>, g: Seq<Seq<u8>>)
    requires
        forall|i: int, j: int|
            0 <= i < f.len() && 0 <= j < g.len() ==> (#[trigger] f[i]) != (#[trigger] g[j]),
    ensures
        emitted(f + g) == emitted(f) + emitted(g),
    decreases g.len(),
{
    if g.len() == 0 {
        assert(f + g =~= f);
        assert(emitted(f) + emitted(g) =~= emitted(f));
    } else {
        let d = g.drop_last();
        assert forall|i: int, j: int| 0 <= i < f.len() && 0 <= j < d.len() implies (
        #[trigger] f[i]) != (#[trigger] d[j]) by {
            assert(d[j] == g[j]);
        }
        lemma_emitted_concat(f, d);
        assert((f + g).drop_last() =~= f + d);
        assert((f + g).last() == g.last());
        lemma_emitted_last(f);
        lemma_emitted_last(d);
        if d.len() == 0 {
            assert(emitted(f) + emitted(d) =~= emitted(f));
            if f.len() > 0 {
                assert(f[f.len() - 1] != g[0]);
            }
        }
        assert(emitted(f + g) =~= emitted(f) + emitted(g));
    }
}

proof fn lemma_emitted_last(f: Seq<Seq<u8>>)
    ensures
        f.len() == 0 ==> emitted(f).len() == 0,
        f.len() > 0 ==> emitted(f).len() > 0 && emitted(f).last() == f.last(),
    decreases f.len(),
{
    if f.len() > 0 {
        lemma_emitted_last(f.drop_last());
    }
}

/// The records of the first `m` outputs, one behind the other.
pub open spec fn outputs_recs(outs: Seq<Seq<u8>>, rl: int, m: int) -> Seq<Seq<u8>>
    decreases m,
{
    if m <= 0 {
        Seq::empty()
    } else {
        outputs_recs(outs, rl, m - 1) + recs_of(outs[m - 1], rl)
    }
}

/// The records before shard `m`, merged, are the outputs of the shards before it.
proof fn lemma_replay(
    inputs: Seq<SortedRun>,
    cuts: Seq<Vec<u64>>,
    kl: int,
    rl: int,
    n: int,
    outs: Seq<Seq<u8>>,
    m: int,
) -> (r: (Seq<Seq<u8>>, Seq<int>, Seq<int>))
    requires
        cut_runs(inputs, cuts, kl, rl, n),
        0 <= m <= n,
        outs.len() == n,
        forall|s: int|
            0 <= s < n ==> is_merge(
                inputs,
                shard_parts(inputs, cuts, s),
                kl,
                rl,
                #[trigger] outs[s],
            ),
    ensures
        merge_of(inputs, first_shards(inputs, cuts, m), kl, rl, r.0, r.1, r.2),
        merged_out(r.0, kl, rl) == outputs_recs(outs, rl, m),
    decreases m,
{
    if m == 0 {
        let r = (Seq::<Seq<u8>>::empty(), Seq::<int>::empty(), Seq::<int>::empty());
        let p = first_shards(inputs, cuts, 0);
        assert forall|k: int, q: int|
            0 <= k < inputs.len() && p[k].pos <= q < part_ends(p)[k] implies #[trigger] has_place(
            r.1,
            r.2,
            k,
            q,
        ) by {
            assert(run_sorted(inputs[k].body@, kl, rl));
        }
        r
    } else {
        let (f, s, a) = lemma_replay(inputs, cuts, kl, rl, n, outs, m - 1);
        let from = shard_parts(inputs, cuts, m - 1);
        assert(is_merge(inputs, from, kl, rl, outs[m - 1]));
        let (g, t, b) = choose|g: Seq<Seq<u8>>, t: Seq<int>, b: Seq<int>| #[trigger]
            merge_result(inputs, from, kl, rl, outs[m - 1], g, t, b);
        lemma_shard_part(inputs, cuts, kl, rl, n, m - 1);
        lemma_shard_sorted(inputs, cuts, kl, rl, n, m - 1);
        lemma_one_more_shard(inputs, cuts, kl, rl, n, m - 1, f, s, a, g, t, b);
        lemma_emitted_concat(f, g);
        (f + g, s + t, a + b)
    }
}

/// Merging sorted runs shard by shard gives the merge of the whole runs, piece by piece.
pub proof fn law_shards_replay(
    inputs: Seq<SortedRun>,
    cuts: Seq<Vec<u64>>,
    kl: int,
    rl: int,
    n: int,
    outs: Seq<Seq<u8>>,
    out: Seq<u8>,
)
    requires
        cut_runs(inputs, cuts, kl, rl, n),
        outs.len() == n,
        forall|s: int|
            0 <= s < n ==> is_merge(
                inputs,
                shard_parts(inputs, cuts, s),
                kl,
                rl,
                #[trigger] outs[s],
            ),
        is_merge(inputs, whole(inputs), kl, rl, out),
    ensures
        recs_of(out, rl) == outputs_recs(outs, rl, n),
{
    let (f, s, a) = lemma_replay(inputs, cuts, kl, rl, n, outs, n);
    let from = whole(inputs);
    let (g, t, b) = choose|g: Seq<Seq<u8>>, t: Seq<int>, b: Seq<int>| #[trigger]
        merge_result(inputs, from, kl, rl, out, g, t, b);
    assert(first_shards(inputs, cuts, n) =~= from) by {
        assert forall|r: int| 0 <= r < inputs.len() implies #[trigger] first_shards(
            inputs,
            cuts,
            n,
        )[r] == from[r] by {
            assert(run_sorted(inputs[r].body@, kl, rl));
        }
    }
    lemma_whole_sorted(inputs, cuts, kl, rl, n);
    lemma_one_order(inputs, from, kl, rl, f, s, a, g, t, b);
}

/// The records from the start whose shard is before `m`, where shards do not fall.
spec fn before_shard(f: Seq<Seq<u8>>, n: int, m: int) -> int
    decreases f.len(),
{
    if f.len() == 0 || rec_shard(f.last(), n) < m {
        f.len() as int
    } else {
        before_shard(f.drop_last(), n, m)
    }
}

/// Shards do not fall.
spec fn shards_rise(f: Seq<Seq<u8>>, n: int) -> bool {
    forall|i: int, j: int|
        0 <= i < j < f.len() ==> rec_shard(#[trigger] f[i], n) <= rec_shard(#[trigger] f[j], n)
}

proof fn lemma_before_shard(f: Seq<Seq<u8>>, n: int, m: int)
    requires
        shards_rise(f, n),
    ensures
        0 <= before_shard(f, n, m) <= f.len(),
        forall|i: int|
            0 <= i < f.len() ==> (rec_shard(#[trigger] f[i], n) < m <==> i < before_shard(f, n, m)),
    decreases f.len(),
{
    if f.len() > 0 {
        let d = f.drop_last();
        if rec_shard(f.last(), n) >= m {
            assert(shards_rise(d, n)) by {
                assert forall|i: int, j: int| 0 <= i < j < d.len() implies rec_shard(
                    #[trigger] d[i],
                    n,
                ) <= rec_shard(#[trigger] d[j], n) by {
                    assert(d[i] == f[i] && d[j] == f[j]);
                }
            }
            lemma_before_shard(d, n, m);
            assert forall|i: int| 0 <= i < f.len() implies (rec_shard(#[trigger] f[i], n) < m <==> i
                < before_shard(f, n, m)) by {
                if i < d.len() {
                    assert(d[i] == f[i]);
                }
            }
        } else {
            assert forall|i: int| 0 <= i < f.len() implies (rec_shard(#[trigger] f[i], n) < m <==> i
                < before_shard(f, n, m)) by {
                if i < f.len() - 1 {
                    assert(rec_shard(f[i], n) <= rec_shard(f[f.len() - 1], n));
                }
            }
        }
    }
}

/// The records of one shard.
pub open spec fn of_shard(recs: Seq<Seq<u8>>, n: int, m: int) -> Seq<Seq<u8>> {
    recs.filter(|rec: Seq<u8>| rec_shard(rec, n) == m)
}

proof fn lemma_of_shard_concat(x: Seq<Seq<u8>>, y: Seq<Seq<u8>>, n: int, m: int)
    ensures
        of_shard(x + y, n, m) == of_shard(x, n, m) + of_shard(y, n, m),
    decreases y.len(),
{
    reveal(Seq::filter);
    if y.len() == 0 {
        assert(x + y =~= x);
        assert(of_shard(x, n, m) + of_shard(y, n, m) =~= of_shard(x, n, m));
    } else {
        lemma_of_shard_concat(x, y.drop_last(), n, m);
        assert((x + y).drop_last() =~= x + y.drop_last());
        assert(of_shard(x + y, n, m) =~= of_shard(x, n, m) + of_shard(y, n, m));
    }
}

proof fn lemma_of_shard_all(x: Seq<Seq<u8>>, n: int, m: int)
    ensures
        (forall|i: int| 0 <= i < x.len() ==> rec_shard(#[trigger] x[i], n) == m) ==> of_shard(
            x,
            n,
            m,
        ) == x,
        (forall|i: int| 0 <= i < x.len() ==> rec_shard(#[trigger] x[i], n) != m) ==> of_shard(
            x,
            n,
            m,
        ).len() == 0,
    decreases x.len(),
{
    reveal(Seq::filter);
    if x.len() > 0 {
        let d = x.drop_last();
        lemma_of_shard_all(d, n, m);
        assert forall|i: int| 0 <= i < d.len() implies d[i] == x[i] by {}
        if forall|i: int| 0 <= i < x.len() ==> rec_shard(#[trigger] x[i], n) == m {
            assert forall|i: int| 0 <= i < d.len() implies rec_shard(#[trigger] d[i], n) == m by {
                assert(x[i] == d[i]);
            }
            assert(rec_shard(x[x.len() - 1], n) == m);
            assert(d.push(x.last()) =~= x);
        }
        if forall|i: int| 0 <= i < x.len() ==> rec_shard(#[trigger] x[i], n) != m {
            assert forall|i: int| 0 <= i < d.len() implies rec_shard(#[trigger] d[i], n) != m by {
                assert(x[i] == d[i]);
            }
            assert(rec_shard(x[x.len() - 1], n) != m);
        }
    } else {
        assert(of_shard(x, n, m) =~= x);
    }
}

/// What is emitted is among the records.
proof fn lemma_emitted_from(f: Seq<Seq<u8>>, i: int)
    requires
        0 <= i < emitted(f).len(),
    ensures
        f.contains(emitted(f)[i]),
    decreases f.len(),
{
    if f.len() > 0 {
        let d = f.drop_last();
        if i < emitted(d).len() {
            lemma_emitted_from(d, i);
            let j = choose|j: int| 0 <= j < d.len() && d[j] == emitted(d)[i];
            assert(f[j] == emitted(f)[i]);
        } else {
            assert(f[f.len() - 1] == emitted(f)[i]);
        }
    }
}

/// The records of a shard in a merge lie together, and emitting them is picking them.
proof fn lemma_pick_shard(f: Seq<Seq<u8>>, kl: int, rl: int, n: int, m: int, lo: int, hi: int)
    requires
        0 <= lo <= hi <= f.len(),
        forall|i: int|
            0 <= i < f.len() ==> (rec_shard(#[trigger] f[i], n) == m <==> lo <= i < hi),
    ensures
        of_shard(merged_out(f, kl, rl), n, m) == merged_out(f.subrange(lo, hi), kl, rl),
{
    let x = f.subrange(0, lo);
    let y = f.subrange(lo, hi);
    let z = f.subrange(hi, f.len() as int);
    assert(f =~= (x + y) + z);
    assert forall|i: int| 0 <= i < x.len() implies rec_shard(#[trigger] x[i], n) != m by {
        assert(x[i] == f[i]);
    }
    assert forall|i: int| 0 <= i < y.len() implies rec_shard(#[trigger] y[i], n) == m by {
        assert(y[i] == f[lo + i]);
    }
    assert forall|i: int| 0 <= i < z.len() implies rec_shard(#[trigger] z[i], n) != m by {
        assert(z[i] == f[hi + i]);
    }
    if kl == rl {
        let b = emitted(y);
        lemma_emitted_parts(x, y, z, n, m);
        assert forall|i: int| 0 <= i < b.len() implies rec_shard(#[trigger] b[i], n) == m by {
            lemma_emitted_from(y, i);
        }
        lemma_of_shard_all(b, n, m);
    } else {
        lemma_of_shard_concat(x + y, z, n, m);
        lemma_of_shard_concat(x, y, n, m);
        lemma_of_shard_all(x, n, m);
        lemma_of_shard_all(y, n, m);
        lemma_of_shard_all(z, n, m);
        assert(of_shard(f, n, m) =~= y);
    }
}

/// Emitting records of other shards around those of one.
proof fn lemma_emitted_parts(
    x: Seq<Seq<u8>>,
    y: Seq<Seq<u8>>,
    z: Seq<Seq<u8>>,
    n: int,
    m: int,
)
    requires
        forall|i: int| 0 <= i < x.len() ==> rec_shard(#[trigger] x[i], n) != m,
        forall|i: int| 0 <= i < y.len() ==> rec_shard(#[trigger] y[i], n) == m,
        forall|i: int| 0 <= i < z.len() ==> rec_shard(#[trigger] z[i], n) != m,
    ensures
        of_shard(emitted((x + y) + z), n, m) == of_shard(emitted(y), n, m),
    decreases z.len(),
{
    reveal(Seq::filter);
    if z.len() > 0 {
        let d = z.drop_last();
        assert forall|i: int| 0 <= i < d.len() implies rec_shard(#[trigger] d[i], n) != m by {
            assert(d[i] == z[i]);
        }
        lemma_emitted_parts(x, y, d, n, m);
        let w = (x + y) + z;
        assert(w.drop_last() =~= (x + y) + d);
        assert(w.last() == z[z.len() - 1]);
        let e = emitted(w.drop_last());
        if !(e.len() > 0 && e.last() == w.last()) {
            assert(emitted(w).drop_last() =~= e);
            assert(of_shard(emitted(w), n, m) == of_shard(e, n, m));
        }
    } else {
        assert((x + y) + z =~= x + y);
        lemma_emitted_concat(x, y);
        lemma_of_shard_concat(emitted(x), emitted(y), n, m);
        let a = emitted(x);
        assert forall|i: int| 0 <= i < a.len() implies rec_shard(#[trigger] a[i], n) != m by {
            lemma_emitted_from(x, i);
        }
        lemma_of_shard_all(a, n, m);
        assert(of_shard(a, n, m) + of_shard(emitted(y), n, m) =~= of_shard(emitted(y), n, m));
    }
}

/// Whole runs are parts in order.
proof fn lemma_whole_sorted(
    inputs: Seq<SortedRun>,
    cuts: Seq<Vec<u64>>,
    kl: int,
    rl: int,
    n: int,
)
    requires
        cut_runs(inputs, cuts, kl, rl, n),
    ensures
        parts_sorted(inputs, whole(inputs), kl, rl),
{
    let from = whole(inputs);
    assert forall|k: int| 0 <= k < inputs.len() implies part_sorted(
        #[trigger] inputs[k],
        from[k],
        kl,
        rl,
    ) by {
        assert(run_sorted(inputs[k].body@, kl, rl));
        assert(inputs[k].valid());
        lemma_run_recs(&inputs[k]);
    }
}

/// The parts of a shard are in order.
proof fn lemma_shard_sorted(
    inputs: Seq<SortedRun>,
    cuts: Seq<Vec<u64>>,
    kl: int,
    rl: int,
    n: int,
    m: int,
)
    requires
        cut_runs(inputs, cuts, kl, rl, n),
        0 <= m < n,
    ensures
        parts_sorted(inputs, shard_parts(inputs, cuts, m), kl, rl),
{
    let from = shard_parts(inputs, cuts, m);
    lemma_shard_part(inputs, cuts, kl, rl, n, m);
    assert forall|k: int| 0 <= k < inputs.len() implies part_sorted(
        #[trigger] inputs[k],
        from[k],
        kl,
        rl,
    ) by {
        assert(run_sorted(inputs[k].body@, kl, rl));
        assert(inputs[k].valid());
        lemma_run_cut(inputs, cuts, kl, rl, n, k, m);
        assert(from[k] == (Cursor { pos: cuts[k]@[m], end: cuts[k]@[m + 1] }));
    }
}

/// The records of one shard in the merge of the whole runs are the merge of its parts.
proof fn lemma_shard_of_whole(
    inputs: Seq<SortedRun>,
    cuts: Seq<Vec<u64>>,
    kl: int,
    rl: int,
    n: int,
    m: int,
    f: Seq<Seq<u8>>,
    s: Seq<int>,
    a: Seq<int>,
    lo: int,
    hi: int,
)
    requires
        cut_runs(inputs, cuts, kl, rl, n),
        0 <= m < n,
        merge_of(inputs, whole(inputs), kl, rl, f, s, a),
        0 <= lo <= hi <= f.len(),
        forall|i: int|
            0 <= i < f.len() ==> (rec_shard(#[trigger] f[i], n) == m <==> lo <= i < hi),
    ensures
        merge_of(
            inputs,
            shard_parts(inputs, cuts, m),
            kl,
            rl,
            f.subrange(lo, hi),
            s.subrange(lo, hi),
            a.subrange(lo, hi),
        ),
{
    let w = whole(inputs);
    let q = shard_parts(inputs, cuts, m);
    let (ff, ss, aa) = (f.subrange(lo, hi), s.subrange(lo, hi), a.subrange(lo, hi));
    lemma_shard_part(inputs, cuts, kl, rl, n, m);
    assert forall|r: int, o: int|
        0 <= r < inputs.len() && 0 <= o < inputs[r].head.count implies (rec_shard(
        #[trigger] inputs[r].recs()[o],
        n,
    ) == m <==> q[r].pos <= o < q[r].end) by {
        assert(run_sorted(inputs[r].body@, kl, rl));
        assert(inputs[r].valid());
        lemma_run_recs(&inputs[r]);
        lemma_rec_shard_range(inputs[r].recs()[o], kl, rl, n);
        assert(q[r] == (Cursor { pos: cuts[r]@[m], end: cuts[r]@[m + 1] }));
        assert((cuts[r]@[m] <= o) <==> rec_shard(inputs[r].recs()[o], n) >= m);
        if m + 1 < n {
            assert((cuts[r]@[m + 1] <= o) <==> rec_shard(inputs[r].recs()[o], n) >= m + 1);
        }
    }
    assert forall|i: int| 0 <= i < ff.len() implies 0 <= #[trigger] ss[i] < inputs.len()
        && q[ss[i]].pos <= aa[i] < part_ends(q)[ss[i]] && ff[i] == inputs[ss[i]].recs()[aa[i]] by {
        assert(ss[i] == s[lo + i] && aa[i] == a[lo + i] && ff[i] == f[lo + i]);
        assert(part_ends(w)[s[lo + i]] == inputs[s[lo + i]].head.count);
        assert(rec_shard(f[lo + i], n) == m);
        assert(inputs[ss[i]].recs()[aa[i]] == f[lo + i]);
    }
    assert forall|i: int, j: int|
        0 <= i < j < ff.len() && (#[trigger] ss[i]) == (#[trigger] ss[j]) implies aa[i] < aa[j] by {
        assert(ss[i] == s[lo + i] && ss[j] == s[lo + j]);
    }
    assert forall|r: int, o: int|
        0 <= r < inputs.len() && q[r].pos <= o < part_ends(q)[r] implies #[trigger] has_place(
        ss,
        aa,
        r,
        o,
    ) by {
        lemma_run_cut(inputs, cuts, kl, rl, n, r, m);
        assert(run_sorted(inputs[r].body@, kl, rl));
        assert(inputs[r].valid());
        lemma_run_recs(&inputs[r]);
        assert(q[r] == (Cursor { pos: cuts[r]@[m], end: cuts[r]@[m + 1] }));
        assert(o < part_ends(w)[r]);
        assert(has_place(s, a, r, o));
        let i = choose|i: int| 0 <= i < s.len() && #[trigger] s[i] == r && a[i] == o;
        assert(f[i] == inputs[r].recs()[o]);
        assert(ss[i - lo] == r && aa[i - lo] == o);
    }
    assert forall|i: int, j: int| 0 <= i < j < ff.len() implies pair_le(
        rec_rank(#[trigger] ff[i], kl, rl),
        ss[i],
        rec_rank(#[trigger] ff[j], kl, rl),
        ss[j],
    ) by {
        assert(ff[i] == f[lo + i] && ff[j] == f[lo + j]);
    }
}

/// The merge of one shard is the merge of the whole runs without the records of the other
/// shards.
pub proof fn law_shard_filter(
    inputs: Seq<SortedRun>,
    cuts: Seq<Vec<u64>>,
    kl: int,
    rl: int,
    n: int,
    m: int,
    part: Seq<u8>,
    out: Seq<u8>,
)
    requires
        cut_runs(inputs, cuts, kl, rl, n),
        0 <= m < n,
        is_merge(inputs, shard_parts(inputs, cuts, m), kl, rl, part),
        is_merge(inputs, whole(inputs), kl, rl, out),
    ensures
        recs_of(part, rl) == of_shard(recs_of(out, rl), n, m),
{
    let q = shard_parts(inputs, cuts, m);
    let w = whole(inputs);
    let (f, s, a) = choose|f: Seq<Seq<u8>>, s: Seq<int>, a: Seq<int>| #[trigger]
        merge_result(inputs, w, kl, rl, out, f, s, a);
    let (g, t, b) = choose|g: Seq<Seq<u8>>, t: Seq<int>, b: Seq<int>| #[trigger]
        merge_result(inputs, q, kl, rl, part, g, t, b);
    lemma_whole_sorted(inputs, cuts, kl, rl, n);
    lemma_shard_sorted(inputs, cuts, kl, rl, n, m);
    assert forall|i: int| 0 <= i < f.len() implies (#[trigger] f[i]).len() == rl by {
        assert(0 <= s[i] < inputs.len());
        let r = s[i];
        assert(run_sorted(inputs[r].body@, kl, rl));
        assert(inputs[r].valid());
        lemma_run_recs(&inputs[r]);
        assert(part_ends(w)[r] == inputs[r].head.count);
    }
    assert(shards_rise(f, n)) by {
        assert forall|i: int, j: int| 0 <= i < j < f.len() implies rec_shard(#[trigger] f[i], n)
            <= rec_shard(#[trigger] f[j], n) by {
            assert(pair_le(rec_rank(f[i], kl, rl), s[i], rec_rank(f[j], kl, rl), s[j]));
            lemma_rank_shard(f[i], f[j], kl, rl, n);
        }
    }
    let lo = before_shard(f, n, m);
    let hi = before_shard(f, n, m + 1);
    lemma_before_shard(f, n, m);
    lemma_before_shard(f, n, m + 1);
    assert forall|i: int| 0 <= i < f.len() implies (rec_shard(#[trigger] f[i], n) == m <==> lo <= i
        < hi) by {}
    if hi < lo {
        assert(rec_shard(f[hi], n) < m);
    }
    lemma_shard_of_whole(inputs, cuts, kl, rl, n, m, f, s, a, lo, hi);
    lemma_one_order(
        inputs,
        q,
        kl,
        rl,
        f.subrange(lo, hi),
        s.subrange(lo, hi),
        a.subrange(lo, hi),
        g,
        t,
        b,
    );
    lemma_pick_shard(f, kl, rl, n, m, lo, hi);
}

/// Every record has one of the shards.
proof fn lemma_rec_shard_range(rec: Seq<u8>, kl: int, rl: int, n: int)
    requires
        rec.len() == rl,
        1 <= kl <= rl,
        n >= 1,
        shard_count_ok(n),
    ensures
        0 <= rec_shard(rec, n) < n,
{
    let h = Seq::new(32, |i: int| rec[0]);
    crate::scripthash_head::law_prefix_shard_monotone(h, h, n);
}

} // verus!
