//! Laws on the linked lists of the old scripthash form and on what a migration makes of them.

use vstd::prelude::*;
use crate::bytes::u64_at;
use crate::primitives::Fk;
use crate::scripthash::ScriptHashTable;
use crate::scripthash_head::key16;
use crate::scripthash_migrate::{converted, count_live, count_rows, v3_asked, v3_chain, v3_key_list, v3_list};

verus! {

/// `ids` are the rows of a list, newest first: bytes 12 to 20 of each row hold the number of
/// the row behind it, and those of the last hold no row of the body.
pub open spec fn is_list(body: Seq<u8>, head: u64, ids: Seq<int>) -> bool {
    let rows = (body.len() / 20) as int;
    &&& forall|j: int| 0 <= j < ids.len() ==> 1 <= #[trigger] ids[j] <= rows
    &&& forall|j: int|
        0 <= j < ids.len() - 1 ==> u64_at(body, 20 * (#[trigger] ids[j] - 1) + 12) == ids[j + 1]
    &&& if ids.len() == 0 {
        head == 0 || head > rows
    } else {
        &&& ids[0] == head
        &&& u64_at(body, 20 * (ids.last() - 1) + 12) == 0 || u64_at(
            body,
            20 * (ids.last() - 1) + 12,
        ) > rows
    }
}

/// The creates of rows; rows without one are left out.
pub open spec fn creates_in(body: Seq<u8>, ids: Seq<int>) -> Seq<Fk> {
    ids.map_values(|id: int| Fk(u64_at(body, 20 * (id - 1)))).filter(|f: Fk| f.0 != 0)
}

proof fn lemma_list_tail(body: Seq<u8>, head: u64, ids: Seq<int>)
    requires
        is_list(body, head, ids),
        ids.len() > 0,
    ensures
        1 <= head <= body.len() / 20,
        is_list(
            body,
            u64_at(body, 20 * (head - 1) + 12),
            ids.subrange(1, ids.len() as int),
        ),
{
    let t = ids.subrange(1, ids.len() as int);
    assert(ids[0] == head);
    assert forall|j: int| 0 <= j < t.len() implies 1 <= #[trigger] t[j] <= body.len() / 20 by {
        assert(t[j] == ids[j + 1]);
    }
    assert forall|j: int| 0 <= j < t.len() - 1 implies u64_at(body, 20 * (#[trigger] t[j] - 1) + 12)
        == t[j + 1] by {
        assert(t[j] == ids[j + 1]);
        assert(t[j + 1] == ids[j + 2]);
    }
    if t.len() > 0 {
        assert(t.last() == ids.last());
        assert(u64_at(body, 20 * (ids[0] - 1) + 12) == ids[1]);
    } else {
        assert(ids.last() == ids[0]);
    }
}

proof fn lemma_creates_first(body: Seq<u8>, ids: Seq<int>)
    requires
        ids.len() > 0,
    ensures
        creates_in(body, ids) == (if u64_at(body, 20 * (ids[0] - 1)) == 0 {
            creates_in(body, ids.subrange(1, ids.len() as int))
        } else {
            seq![Fk(u64_at(body, 20 * (ids[0] - 1)))] + creates_in(
                body,
                ids.subrange(1, ids.len() as int),
            )
        }),
    decreases ids.len(),
{
    reveal(Seq::filter);
    let f = |id: int| Fk(u64_at(body, 20 * (id - 1)));
    let p = |f: Fk| f.0 != 0;
    let t = ids.subrange(1, ids.len() as int);
    let m = ids.map_values(f);
    let mt = t.map_values(f);
    if ids.len() == 1 {
        assert(mt =~= Seq::empty());
        assert(m.drop_last() =~= Seq::empty());
        assert(mt.filter(p) =~= Seq::empty());
        assert(m.drop_last().filter(p) =~= Seq::empty());
        if u64_at(body, 20 * (ids[0] - 1)) != 0 {
            assert(m.filter(p) =~= seq![m[0]] + mt.filter(p));
        }
    } else {
        let d = ids.drop_last();
        lemma_creates_first(body, d);
        assert(d.map_values(f) =~= m.drop_last());
        assert(d.subrange(1, d.len() as int) =~= t.drop_last());
        assert(t.drop_last().map_values(f) =~= mt.drop_last());
        assert(mt.last() == m.last());
        assert(creates_in(body, ids) =~= (if u64_at(body, 20 * (ids[0] - 1)) == 0 {
            creates_in(body, t)
        } else {
            seq![Fk(u64_at(body, 20 * (ids[0] - 1)))] + creates_in(body, t)
        }));
    }
}

proof fn lemma_list_read(body: Seq<u8>, head: u64, ids: Seq<int>, fuel: nat)
    requires
        is_list(body, head, ids),
        ids.len() <= fuel,
    ensures
        v3_list(body, head, fuel) == (creates_in(body, ids), true),
    decreases ids.len(),
{
    if ids.len() == 0 {
        reveal(Seq::filter);
        assert(creates_in(body, ids) =~= Seq::empty());
    } else {
        lemma_list_tail(body, head, ids);
        let t = ids.subrange(1, ids.len() as int);
        lemma_list_read(body, u64_at(body, 20 * (head - 1) + 12), t, (fuel - 1) as nat);
        lemma_creates_first(body, ids);
    }
}

/// Rows that come twice in a list have the same rows behind them.
proof fn lemma_list_same(body: Seq<u8>, head: u64, ids: Seq<int>, a: int, b: int, t: int)
    requires
        is_list(body, head, ids),
        0 <= a <= b,
        0 <= t,
        b + t < ids.len(),
        ids[a] == ids[b],
    ensures
        ids[a + t] == ids[b + t],
    decreases t,
{
    if t > 0 {
        lemma_list_same(body, head, ids, a, b, t - 1);
        assert(u64_at(body, 20 * (ids[a + (t - 1)] - 1) + 12) == ids[a + t]);
        assert(u64_at(body, 20 * (ids[b + (t - 1)] - 1) + 12) == ids[b + t]);
    }
}

proof fn lemma_list_short(body: Seq<u8>, head: u64, ids: Seq<int>)
    requires
        is_list(body, head, ids),
    ensures
        ids.no_duplicates(),
        ids.len() <= body.len() / 20,
{
    let n = ids.len() as int;
    assert forall|a: int, b: int| 0 <= a < n && 0 <= b < n && a != b implies ids[a] != ids[b] by {
        let lo = if a < b {
            a
        } else {
            b
        };
        let hi = if a < b {
            b
        } else {
            a
        };
        if ids[a] == ids[b] {
            let t = n - 1 - hi;
            lemma_list_same(body, head, ids, lo, hi, t);
            assert(u64_at(body, 20 * (ids[lo + t] - 1) + 12) == ids[lo + t + 1]);
            assert(ids.last() == ids[lo + t]);
        }
    }
    let rows = (body.len() / 20) as int;
    let all = vstd::set_lib::set_int_range(1, rows + 1);
    vstd::set_lib::lemma_int_range(1, rows + 1);
    ids.unique_seq_to_set();
    assert(ids.to_set().subset_of(all)) by {
        assert forall|x: int| ids.to_set().contains(x) implies all.contains(x) by {
            let j = choose|j: int| 0 <= j < ids.len() && ids[j] == x;
            assert(1 <= ids[j] <= rows);
        }
    }
    vstd::set_lib::lemma_len_subset(ids.to_set(), all);
}

proof fn lemma_list_rows(body: Seq<u8>, head: u64, fuel: nat) -> (ids: Seq<int>)
    requires
        v3_list(body, head, fuel).1,
    ensures
        is_list(body, head, ids),
    decreases fuel,
{
    if head == 0 || head > body.len() / 20 {
        Seq::empty()
    } else {
        let next = u64_at(body, 20 * (head - 1) + 12);
        let t = lemma_list_rows(body, next, (fuel - 1) as nat);
        let ids = seq![head as int] + t;
        assert forall|j: int| 0 <= j < ids.len() implies 1 <= #[trigger] ids[j] <= body.len()
            / 20 by {
            if j > 0 {
                assert(ids[j] == t[j - 1]);
            }
        }
        assert forall|j: int| 0 <= j < ids.len() - 1 implies u64_at(
            body,
            20 * (#[trigger] ids[j] - 1) + 12,
        ) == ids[j + 1] by {
            assert(ids[j + 1] == t[j]);
            if j > 0 {
                assert(ids[j] == t[j - 1]);
            }
        }
        if t.len() > 0 {
            assert(ids.last() == t.last());
        }
        ids
    }
}

/// The list of a head is walked by the row numbers that the rows hold: its creates are those
/// of the rows on it, and it ends exactly if there is such a row of rows.
pub proof fn law_list_follows_links(body: Seq<u8>, head: Fk, ids: Seq<int>)
    ensures
        is_list(body, head.0, ids) ==> v3_chain(body, head) == (creates_in(body, ids), true),
        is_list(body, head.0, ids) ==> forall|x: u64|
            #[trigger] v3_chain(body, head).0.contains(Fk(x)) <==> x != 0 && exists|j: int|
                0 <= j < ids.len() && u64_at(body, 20 * (#[trigger] ids[j] - 1)) == x,
        v3_chain(body, head).1 <==> exists|l: Seq<int>| is_list(body, head.0, l),
{
    if is_list(body, head.0, ids) {
        lemma_list_short(body, head.0, ids);
        lemma_list_read(body, head.0, ids, body.len() / 20);
        assert forall|x: u64| #[trigger] v3_chain(body, head).0.contains(Fk(x)) <==> x != 0
            && exists|j: int|
                0 <= j < ids.len() && u64_at(body, 20 * (#[trigger] ids[j] - 1)) == x by {
            lemma_creates_has(body, ids, x);
        }
    }
    if v3_chain(body, head).1 {
        let l = lemma_list_rows(body, head.0, body.len() / 20);
        assert(is_list(body, head.0, l));
    }
    if exists|l: Seq<int>| is_list(body, head.0, l) {
        let l = choose|l: Seq<int>| is_list(body, head.0, l);
        lemma_list_short(body, head.0, l);
        lemma_list_read(body, head.0, l, body.len() / 20);
    }
}

proof fn lemma_creates_has(body: Seq<u8>, ids: Seq<int>, x: u64)
    ensures
        creates_in(body, ids).contains(Fk(x)) <==> x != 0 && exists|j: int|
            0 <= j < ids.len() && u64_at(body, 20 * (#[trigger] ids[j] - 1)) == x,
    decreases ids.len(),
{
    if ids.len() == 0 {
        reveal(Seq::filter);
        assert(creates_in(body, ids) =~= Seq::empty());
    } else {
        let t = ids.subrange(1, ids.len() as int);
        let c = u64_at(body, 20 * (ids[0] - 1));
        lemma_creates_first(body, ids);
        lemma_creates_has(body, t, x);
        let l = creates_in(body, ids);
        let r = creates_in(body, t);
        if l.contains(Fk(x)) {
            let i = choose|i: int| 0 <= i < l.len() && l[i] == Fk(x);
            if c != 0 && i == 0 {
                assert(u64_at(body, 20 * (ids[0] - 1)) == x);
            } else {
                assert(r[if c != 0 {
                    i - 1
                } else {
                    i
                }] == Fk(x));
                assert(r.contains(Fk(x)));
                let j = choose|j: int|
                    0 <= j < t.len() && u64_at(body, 20 * (#[trigger] t[j] - 1)) == x;
                assert(ids[j + 1] == t[j]);
            }
        }
        if x != 0 && exists|j: int|
            0 <= j < ids.len() && u64_at(body, 20 * (#[trigger] ids[j] - 1)) == x {
            let j = choose|j: int|
                0 <= j < ids.len() && u64_at(body, 20 * (#[trigger] ids[j] - 1)) == x;
            if j == 0 {
                assert(l[0] == Fk(x));
            } else {
                assert(t[j - 1] == ids[j]);
                assert(r.contains(Fk(x)));
                let i = choose|i: int| 0 <= i < r.len() && r[i] == Fk(x);
                assert(l[if c != 0 {
                    i + 1
                } else {
                    i
                }] == Fk(x));
            }
        }
    }
}

/// `n` is the newest row of key `h` below `r`, or 0 where there is none. `own` gives the key
/// of each row.
pub open spec fn newest_below(own: Seq<int>, h: int, r: int, n: int) -> bool {
    &&& 0 <= n < r
    &&& n > 0 ==> own[n - 1] == h
    &&& forall|q: int| n < q < r && 0 < q <= own.len() ==> #[trigger] own[q - 1] != h
}

/// Every row belongs to one head and links to the next older row of the same head; a head
/// gives the newest of its rows.
pub open spec fn rows_owned(body: Seq<u8>, heads: Seq<([u8; 32], Fk)>, own: Seq<int>) -> bool {
    &&& own.len() == body.len() / 20
    &&& forall|r: int|
        1 <= r <= own.len() ==> newest_below(
            own,
            #[trigger] own[r - 1],
            r,
            u64_at(body, 20 * (r - 1) + 12) as int,
        )
    &&& forall|h: int|
        0 <= h < heads.len() ==> newest_below(
            own,
            h,
            (own.len() + 1) as int,
            (#[trigger] heads[h]).1.0 as int,
        )
}

/// The rows of a head from row `n` on.
proof fn lemma_owned_list(
    body: Seq<u8>,
    heads: Seq<([u8; 32], Fk)>,
    own: Seq<int>,
    h: int,
    r: int,
    n: u64,
) -> (ids: Seq<int>)
    requires
        rows_owned(body, heads, own),
        1 <= r <= own.len() + 1,
        newest_below(own, h, r, n as int),
    ensures
        is_list(body, n, ids),
        forall|j: int| 0 <= j < ids.len() ==> own[#[trigger] ids[j] - 1] == h && ids[j] < r,
        forall|q: int|
            1 <= q < r && #[trigger] own[q - 1] == h ==> ids.contains(q),
    decreases r,
{
    if n == 0 {
        let ids = Seq::<int>::empty();
        assert forall|q: int| 1 <= q < r && #[trigger] own[q - 1] == h implies ids.contains(q) by {}
        ids
    } else {
        let next = u64_at(body, 20 * (n - 1) + 12);
        assert(own[n - 1] == h);
        let t = lemma_owned_list(body, heads, own, h, n as int, next);
        let ids = seq![n as int] + t;
        assert forall|j: int| 0 <= j < ids.len() implies 1 <= #[trigger] ids[j] <= body.len() / 20
            && own[ids[j] - 1] == h && ids[j] < r by {
            if j > 0 {
                assert(ids[j] == t[j - 1]);
            }
        }
        assert forall|j: int| 0 <= j < ids.len() - 1 implies u64_at(
            body,
            20 * (#[trigger] ids[j] - 1) + 12,
        ) == ids[j + 1] by {
            assert(ids[j + 1] == t[j]);
            if j > 0 {
                assert(ids[j] == t[j - 1]);
            }
        }
        if t.len() > 0 {
            assert(ids.last() == t.last());
        }
        assert forall|q: int| 1 <= q < r && #[trigger] own[q - 1] == h implies ids.contains(q) by {
            if q == n {
                assert(ids[0] == q);
            } else {
                assert(q < n);
                let j = choose|j: int| 0 <= j < t.len() && t[j] == q;
                assert(ids[j + 1] == q);
            }
        }
        ids
    }
}

/// Every key keeps its own creates in a migration: where each row belongs to one head and
/// links to the next older row of that head, the migrated table holds under a head's key the
/// creates of that head's rows, in order and each once, and nothing under other keys.
pub proof fn law_migrated_keys(
    t: &ScriptHashTable,
    body: Seq<u8>,
    heads: Seq<([u8; 32], Fk)>,
    own: Seq<int>,
)
    requires
        converted(t, body, heads),
        rows_owned(body, heads, own),
        forall|a: int, b: int|
            0 <= a < b < heads.len() ==> key16((#[trigger] heads[a]).0@) != key16(
                (#[trigger] heads[b]).0@,
            ),
    ensures
        forall|h: int, x: u64|
            0 <= h < heads.len() ==> (#[trigger] t.creates(key16(heads[h].0@)).contains(Fk(x))
                <==> x != 0 && exists|r: int|
                1 <= r <= own.len() && #[trigger] own[r - 1] == h && u64_at(body, 20 * (r - 1))
                    == x),
        forall|h: int, i: int, j: int|
            0 <= h < heads.len() && 0 <= i < j < t.creates(key16(heads[h].0@)).len() ==> (
            #[trigger] t.creates(key16(heads[h].0@))[i]).0 < (#[trigger] t.creates(
                key16(heads[h].0@),
            )[j]).0,
        forall|k: Seq<u8>|
            k.len() == 16 && (forall|h: int|
                0 <= h < heads.len() ==> key16((#[trigger] heads[h]).0@) != k) ==> (
            #[trigger] t.creates(k)).len() == 0,
        forall|h: int| 0 <= h < heads.len() ==> v3_chain(body, (#[trigger] heads[h]).1).1,
{
    assert forall|h: int| 0 <= h < heads.len() implies v3_chain(body, (#[trigger] heads[h]).1).1 by {
        let ids = lemma_owned_list(body, heads, own, h, (own.len() + 1) as int, heads[h].1.0);
        law_list_follows_links(body, heads[h].1, ids);
    }
    assert forall|h: int, x: u64| 0 <= h < heads.len() implies (#[trigger] t.creates(
        key16(heads[h].0@),
    ).contains(Fk(x)) <==> x != 0 && exists|r: int|
        1 <= r <= own.len() && #[trigger] own[r - 1] == h && u64_at(body, 20 * (r - 1)) == x) by {
        let k = key16(heads[h].0@);
        let l = t.creates(k);
        assert(k.len() == 16);
        assert(v3_key_list(l, body, heads, k));
        let ids = lemma_owned_list(body, heads, own, h, (own.len() + 1) as int, heads[h].1.0);
        law_list_follows_links(body, heads[h].1, ids);
        if l.contains(Fk(x)) {
            let i = choose|i: int| 0 <= i < l.len() && l[i] == Fk(x);
            assert(v3_asked(body, heads, k, l[i].0));
            let g = choose|g: int|
                0 <= g < heads.len() && key16((#[trigger] heads[g]).0@) == k && v3_chain(
                    body,
                    heads[g].1,
                ).0.contains(Fk(x));
            assert(g == h) by {
                if g < h {
                    assert(key16(heads[g].0@) != key16(heads[h].0@));
                } else if h < g {
                    assert(key16(heads[h].0@) != key16(heads[g].0@));
                }
            }
            let j = choose|j: int|
                0 <= j < ids.len() && u64_at(body, 20 * (#[trigger] ids[j] - 1)) == x;
            assert(own[ids[j] - 1] == h);
        }
        if x != 0 && exists|r: int|
            1 <= r <= own.len() && #[trigger] own[r - 1] == h && u64_at(body, 20 * (r - 1)) == x {
            let r = choose|r: int|
                1 <= r <= own.len() && #[trigger] own[r - 1] == h && u64_at(body, 20 * (r - 1))
                    == x;
            let j = choose|j: int| 0 <= j < ids.len() && ids[j] == r;
            assert(u64_at(body, 20 * (ids[j] - 1)) == x);
            assert(v3_chain(body, heads[h].1).0.contains(Fk(x)));
            assert(v3_asked(body, heads, k, x));
        }
    }
    assert forall|h: int, i: int, j: int|
        0 <= h < heads.len() && 0 <= i < j < t.creates(key16(heads[h].0@)).len() implies (
    #[trigger] t.creates(key16(heads[h].0@))[i]).0 < (#[trigger] t.creates(
        key16(heads[h].0@),
    )[j]).0 by {
        let k = key16(heads[h].0@);
        assert(k.len() == 16);
        assert(v3_key_list(t.creates(k), body, heads, k));
    }
    assert forall|k: Seq<u8>|
        k.len() == 16 && (forall|h: int|
            0 <= h < heads.len() ==> key16((#[trigger] heads[h]).0@) != k) implies (
    #[trigger] t.creates(k)).len() == 0 by {
        let l = t.creates(k);
        assert(v3_key_list(l, body, heads, k));
        if l.len() > 0 {
            assert(v3_asked(body, heads, k, l[0].0));
        }
    }
}

/// The number of keys that a migration reports is the number of heads whose list holds a
/// create; the rows that it counts are those with a create on the lists of the heads.
pub proof fn law_keys_counted(body: Seq<u8>, heads: Seq<([u8; 32], Fk)>, n: int)
    requires
        0 <= n <= heads.len(),
    ensures
        ({
            let live = Set::new(
                |i: int| 0 <= i < n && v3_chain(body, heads[i].1).0.len() > 0,
            );
            live.finite() && count_live(body, heads, n) == live.len()
        }),
        forall|i: int|
            0 <= i < n ==> v3_chain(body, (#[trigger] heads[i]).1).0.len() <= count_rows(
                body,
                heads,
                n,
            ),
    decreases n,
{
    let live = Set::new(|i: int| 0 <= i < n && v3_chain(body, heads[i].1).0.len() > 0);
    if n == 0 {
        assert(live =~= Set::empty());
    } else {
        law_keys_counted(body, heads, n - 1);
        let less = Set::new(|i: int| 0 <= i < n - 1 && v3_chain(body, heads[i].1).0.len() > 0);
        if v3_chain(body, heads[n - 1].1).0.len() > 0 {
            assert(live =~= less.insert(n - 1));
        } else {
            assert(live =~= less);
        }
    }
}

} // verus!
