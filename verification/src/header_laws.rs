//! Laws on the repair of header links.

use vstd::prelude::*;
use crate::bytes::{le32, lemma_le_seq_of_nat, lemma_le_nat_bound, lemma_p256_values, u32_at};
use crate::error::StoreError;
use crate::hashing::{header_bytes, is_header, law_header_fields, sha256_of};
use crate::primitives::Fk;
use crate::rebuild_headers::{best_child, commits, confirmed_error, confirmed_ok, count_false, count_null, cut_false, prev_ok, relink_to, relinked, tip_walk, walk_steps, with_prev, HeaderRecord};

verus! {

proof fn lemma_u32_bytes(b: Seq<u8>, off: int, x: u32)
    requires
        0 <= off,
        off + 4 <= b.len(),
        u32_at(b, off) == x,
    ensures
        b.subrange(off, off + 4) == le32(x),
{
    let s = b.subrange(off, off + 4);
    lemma_p256_values();
    lemma_le_nat_bound(s);
    lemma_le_seq_of_nat(s);
}

/// The fields of a header fix its bytes.
pub proof fn law_header_unique(
    b: Seq<u8>,
    version: u32,
    prev_hash: Seq<u8>,
    merkle_root: Seq<u8>,
    timestamp: u32,
    bits: u32,
    nonce: u32,
)
    requires
        prev_hash.len() == 32,
        merkle_root.len() == 32,
    ensures
        is_header(b, version, prev_hash, merkle_root, timestamp, bits, nonce) <==> b
            == header_bytes(version, prev_hash, merkle_root, timestamp, bits, nonce),
{
    law_header_fields(version, prev_hash, merkle_root, timestamp, bits, nonce);
    if is_header(b, version, prev_hash, merkle_root, timestamp, bits, nonce) {
        let h = header_bytes(version, prev_hash, merkle_root, timestamp, bits, nonce);
        lemma_u32_bytes(b, 0, version);
        lemma_u32_bytes(b, 68, timestamp);
        lemma_u32_bytes(b, 72, bits);
        lemma_u32_bytes(b, 76, nonce);
        assert forall|i: int| 0 <= i < 80 implies b[i] == h[i] by {
            if i < 4 {
                assert(b.subrange(0, 4)[i] == b[i]);
                assert(h.subrange(0, 4)[i] == h[i]);
            } else if i < 36 {
                assert(b[4 + (i - 4)] == prev_hash[i - 4]);
                assert(h.subrange(4, 36)[i - 4] == h[i]);
            } else if i < 68 {
                assert(b[36 + (i - 36)] == merkle_root[i - 36]);
                assert(h.subrange(36, 68)[i - 36] == h[i]);
            } else if i < 72 {
                assert(b.subrange(68, 72)[i - 68] == b[i]);
                assert(h.subrange(68, 72)[i - 68] == h[i]);
            } else if i < 76 {
                assert(b.subrange(72, 76)[i - 72] == b[i]);
                assert(h.subrange(72, 76)[i - 72] == h[i]);
            } else {
                assert(b.subrange(76, 80)[i - 76] == b[i]);
                assert(h.subrange(76, 80)[i - 76] == h[i]);
            }
        }
        assert(b =~= h);
    }
}

/// The row's hash is the double digest of the header that has row `parent`'s hash as its
/// parent hash.
pub open spec fn true_link(rows: Seq<HeaderRecord>, r: HeaderRecord, parent: Fk) -> bool {
    &&& 1 <= parent.0 <= rows.len()
    &&& exists|b: Seq<u8>| #[trigger]
        is_header(
            b,
            r.version,
            rows[parent.0 - 1].hash@,
            r.merkle_root@,
            r.timestamp,
            r.bits,
            r.nonce,
        ) && sha256_of(sha256_of(b)) == r.hash@
}

/// A row's link is accepted exactly if the row has none or its link is true.
pub proof fn law_true_link(rows: Seq<HeaderRecord>, r: HeaderRecord, parent: Fk)
    ensures
        prev_ok(rows, r) <==> r.prev_fk.0 == 0 || true_link(rows, r, r.prev_fk),
        parent.0 != 0 ==> (prev_ok(rows, with_prev(r, parent)) <==> true_link(rows, r, parent)),
{
    lemma_true_link(rows, r, r.prev_fk);
    lemma_true_link(rows, r, parent);
}

proof fn lemma_true_link(rows: Seq<HeaderRecord>, r: HeaderRecord, parent: Fk)
    ensures
        true_link(rows, r, parent) <==> 1 <= parent.0 <= rows.len() && commits(
            r,
            rows[parent.0 - 1].hash@,
        ),
{
    if 1 <= parent.0 <= rows.len() {
        let h = rows[parent.0 - 1].hash@;
        let w = header_bytes(r.version, h, r.merkle_root@, r.timestamp, r.bits, r.nonce);
        law_header_unique(w, r.version, h, r.merkle_root@, r.timestamp, r.bits, r.nonce);
        if true_link(rows, r, parent) {
            let b = choose|b: Seq<u8>| #[trigger]
                is_header(b, r.version, h, r.merkle_root@, r.timestamp, r.bits, r.nonce)
                    && sha256_of(sha256_of(b)) == r.hash@;
            law_header_unique(b, r.version, h, r.merkle_root@, r.timestamp, r.bits, r.nonce);
        }
        if commits(r, h) {
            assert(is_header(w, r.version, h, r.merkle_root@, r.timestamp, r.bits, r.nonce));
        }
    }
}

/// Row `n` is the last one that has `parent` as its parent.
pub open spec fn newest_child(rows: Seq<HeaderRecord>, parent: u64, n: u64) -> bool {
    &&& 1 <= n <= rows.len()
    &&& rows[n - 1].prev_fk.0 == parent
    &&& forall|m: int| n <= m < rows.len() ==> (#[trigger] rows[m]).prev_fk.0 != parent
}

/// No row has `parent` as its parent.
pub open spec fn childless(rows: Seq<HeaderRecord>, parent: u64) -> bool {
    forall|m: int| 0 <= m < rows.len() ==> (#[trigger] rows[m]).prev_fk.0 != parent
}

/// The child that a walk takes is the newest one, and it stops only where there is none.
pub proof fn law_best_child(rows: Seq<HeaderRecord>, parent: u64)
    requires
        rows.len() <= u64::MAX,
    ensures
        match best_child(rows, parent) {
            Some(n) => newest_child(rows, parent, n),
            None => childless(rows, parent),
        },
    decreases rows.len(),
{
    if rows.len() > 0 {
        let d = rows.drop_last();
        law_best_child(d, parent);
        if rows.last().prev_fk.0 != parent {
            match best_child(d, parent) {
                Some(n) => {
                    assert(d[n - 1] == rows[n - 1]);
                    assert forall|m: int| n <= m < rows.len() implies (
                    #[trigger] rows[m]).prev_fk.0 != parent by {
                        if m < d.len() {
                            assert(d[m] == rows[m]);
                        }
                    }
                },
                None => {
                    assert forall|m: int| 0 <= m < rows.len() implies (
                    #[trigger] rows[m]).prev_fk.0 != parent by {
                        if m < d.len() {
                            assert(d[m] == rows[m]);
                        }
                    }
                },
            }
        }
    }
}

/// `path` goes from row `cur` to newest child after newest child, over no row twice and no
/// row that is in `seen`. It is as long as `max` allows, or goes on to no row that it could
/// take.
pub open spec fn is_walk(
    rows: Seq<HeaderRecord>,
    cur: u64,
    seen: Set<u64>,
    max: nat,
    path: Seq<u64>,
) -> bool {
    &&& path.len() <= max
    &&& path.len() > 0 ==> newest_child(rows, cur, path[0])
    &&& forall|j: int|
        0 <= j < path.len() - 1 ==> newest_child(rows, #[trigger] path[j], path[j + 1])
    &&& path.no_duplicates()
    &&& forall|j: int| 0 <= j < path.len() ==> !seen.contains(#[trigger] path[j])
    &&& path.len() == max || stops(rows, walk_end(cur, path), seen, path)
}

/// Where a walk ends.
pub open spec fn walk_end(cur: u64, path: Seq<u64>) -> u64 {
    if path.len() == 0 {
        cur
    } else {
        path.last()
    }
}

/// The row has no child, or its newest child was met before.
pub open spec fn stops(rows: Seq<HeaderRecord>, end: u64, seen: Set<u64>, path: Seq<u64>) -> bool {
    ||| childless(rows, end)
    ||| exists|n: u64| #[trigger]
        newest_child(rows, end, n) && (path.contains(n) || seen.contains(n))
}

proof fn lemma_newest_unique(rows: Seq<HeaderRecord>, parent: u64, a: u64, b: u64)
    requires
        newest_child(rows, parent, a),
        newest_child(rows, parent, b),
    ensures
        a == b,
{
    if a < b {
        assert(rows[b - 1].prev_fk.0 != parent);
    } else if b < a {
        assert(rows[a - 1].prev_fk.0 != parent);
    }
}

/// The number that a walk reports is the length of the way from the tip along newest
/// children.
pub proof fn law_walk_length(
    rows: Seq<HeaderRecord>,
    cur: u64,
    seen: Set<u64>,
    max: nat,
    path: Seq<u64>,
)
    requires
        rows.len() <= u64::MAX,
        is_walk(rows, cur, seen, max, path),
    ensures
        walk_steps(rows, cur, seen, max) == path.len(),
    decreases max,
{
    law_best_child(rows, cur);
    if max > 0 {
        if path.len() == 0 {
            if childless(rows, cur) {
                if best_child(rows, cur) is Some {
                    assert(rows[best_child(rows, cur)->0 - 1].prev_fk.0 == cur);
                }
            } else {
                let n = choose|n: u64| #[trigger]
                    newest_child(rows, cur, n) && (path.contains(n) || seen.contains(n));
                if best_child(rows, cur) is None {
                    assert(rows[n - 1].prev_fk.0 != cur);
                }
                lemma_newest_unique(rows, cur, n, best_child(rows, cur)->0);
            }
        } else {
            let n = path[0];
            if best_child(rows, cur) is None {
                assert(rows[n - 1].prev_fk.0 != cur);
            }
            lemma_newest_unique(rows, cur, n, best_child(rows, cur)->0);
            let t = path.subrange(1, path.len() as int);
            let s = seen.insert(n);
            assert forall|j: int| 0 <= j < t.len() - 1 implies newest_child(
                rows,
                #[trigger] t[j],
                t[j + 1],
            ) by {
                assert(t[j] == path[j + 1] && t[j + 1] == path[j + 2]);
            }
            assert(t.len() > 0 ==> newest_child(rows, path[0], path[1]));
            assert forall|j: int| 0 <= j < t.len() implies !s.contains(#[trigger] t[j]) by {
                assert(t[j] == path[j + 1]);
                assert(path[j + 1] != path[0]);
            }
            assert(t.no_duplicates()) by {
                assert forall|a: int, b: int| 0 <= a < t.len() && 0 <= b < t.len() && a
                    != b implies t[a] != t[b] by {
                    assert(path[a + 1] != path[b + 1]);
                }
            }
            if path.len() < max {
                let end = path.last();
                assert(walk_end(n, t) == end);
                if !childless(rows, end) {
                    let c = choose|c: u64| #[trigger]
                        newest_child(rows, end, c) && (path.contains(c) || seen.contains(c));
                    if path.contains(c) {
                        let j = choose|j: int| 0 <= j < path.len() && path[j] == c;
                        if j > 0 {
                            assert(t[j - 1] == c);
                        }
                    }
                    assert(t.contains(c) || s.contains(c));
                }
                assert(stops(rows, end, s, t));
            }
            assert(is_walk(rows, n, s, (max - 1) as nat, t));
            law_walk_length(rows, n, s, (max - 1) as nat, t);
        }
    }
}

/// The walk of a report begins at the row of the highest confirmed height and takes at most
/// half a million steps; without one there is no walk.
pub proof fn law_tip_walk(rows: Seq<HeaderRecord>, confirmed: Seq<Fk>, path: Seq<u64>)
    requires
        rows.len() <= u64::MAX,
    ensures
        confirmed.len() == 0 ==> tip_walk(rows, confirmed) == 0,
        confirmed.len() > 0 && is_walk(
            rows,
            confirmed[confirmed.len() - 1].0,
            Set::empty(),
            500_000,
            path,
        ) ==> tip_walk(rows, confirmed) == path.len(),
{
    if confirmed.len() > 0 && is_walk(
        rows,
        confirmed[confirmed.len() - 1].0,
        Set::empty(),
        500_000,
        path,
    ) {
        law_walk_length(rows, confirmed[confirmed.len() - 1].0, Set::empty(), 500_000, path);
    }
}

/// A confirmed height is wrong where it has no row, or one that is not there.
pub proof fn law_confirmed_error(rows: Seq<HeaderRecord>, confirmed: Seq<Fk>, h: int)
    ensures
        confirmed_error(rows, confirmed, h) is None <==> 1 <= confirmed[h].0 <= rows.len(),
        confirmed[h].0 == 0 ==> confirmed_error(rows, confirmed, h) == Some(
            StoreError::Corrupt("confirmed hole"),
        ),
        confirmed[h].0 > rows.len() ==> confirmed_error(rows, confirmed, h) == Some(
            StoreError::NotFound,
        ),
{
}

/// The numbers that a repair reports count rows: those without a parent, and those whose link
/// is neither absent nor true.
pub proof fn law_rows_counted(rows: Seq<HeaderRecord>, k: int)
    requires
        0 <= k <= rows.len(),
    ensures
        ({
            let null = Set::new(|i: int| 0 <= i < k && rows[i].prev_fk.0 == 0);
            null.finite() && count_null(rows.subrange(0, k)) == null.len()
        }),
        ({
            let wrong = Set::new(
                |i: int|
                    0 <= i < k && rows[i].prev_fk.0 != 0 && !true_link(
                        rows,
                        rows[i],
                        rows[i].prev_fk,
                    ),
            );
            wrong.finite() && count_false(rows, k) == wrong.len()
        }),
        rows.subrange(0, rows.len() as int) == rows,
    decreases k,
{
    assert(rows.subrange(0, rows.len() as int) =~= rows);
    let null = Set::new(|i: int| 0 <= i < k && rows[i].prev_fk.0 == 0);
    let wrong = Set::new(
        |i: int|
            0 <= i < k && rows[i].prev_fk.0 != 0 && !true_link(rows, rows[i], rows[i].prev_fk),
    );
    if k == 0 {
        assert(null =~= Set::empty());
        assert(wrong =~= Set::empty());
    } else {
        let j = k - 1;
        law_rows_counted(rows, j);
        law_true_link(rows, rows[j], rows[j].prev_fk);
        let n0 = Set::new(|i: int| 0 <= i < j && rows[i].prev_fk.0 == 0);
        let w0 = Set::new(
            |i: int|
                0 <= i < j && rows[i].prev_fk.0 != 0 && !true_link(rows, rows[i], rows[i].prev_fk),
        );
        assert(rows.subrange(0, k).drop_last() =~= rows.subrange(0, j));
        assert(rows.subrange(0, k).last() == rows[j]);
        if rows[j].prev_fk.0 == 0 {
            assert(null =~= n0.insert(j));
        } else {
            assert(null =~= n0);
        }
        if prev_ok(rows, rows[j]) {
            assert(wrong =~= w0);
        } else {
            assert(wrong =~= w0.insert(j));
        }
    }
}

/// Cutting takes the link of a row exactly if it is false, and changes nothing else.
pub proof fn law_cut_links(rows: Seq<HeaderRecord>, i: int)
    requires
        0 <= i < rows.len(),
    ensures
        cut_false(rows).len() == rows.len(),
        cut_false(rows)[i] == (if rows[i].prev_fk.0 == 0 || true_link(
            rows,
            rows[i],
            rows[i].prev_fk,
        ) {
            rows[i]
        } else {
            HeaderRecord { prev_fk: Fk(0), ..rows[i] }
        }),
{
    law_true_link(rows, rows[i], rows[i].prev_fk);
}

/// A relink changes the row of height `h`: the first row has a link, or another one has a
/// link other than to the row of the height below, to which a link is true.
pub open spec fn moves(rows: Seq<HeaderRecord>, confirmed: Seq<Fk>, h: int) -> bool {
    let r = rows[confirmed[h].0 - 1];
    if h == 0 {
        r.prev_fk.0 != 0
    } else {
        r.prev_fk != confirmed[h - 1] && true_link(rows, r, confirmed[h - 1])
    }
}

/// The parent of the row of height `h` in a linked chain.
pub open spec fn below(confirmed: Seq<Fk>, h: int) -> Fk {
    if h == 0 {
        Fk(0)
    } else {
        confirmed[h - 1]
    }
}

/// Relinking gives each confirmed row that is to move the row of the height below as its
/// parent, leaves all other rows and all other fields, and counts the rows that move. Without
/// `write` it only counts.
pub proof fn law_relink(rows: Seq<HeaderRecord>, confirmed: Seq<Fk>, k: int, write: bool)
    requires
        confirmed_ok(rows, confirmed, confirmed.len() as int),
        confirmed.no_duplicates(),
        0 <= k <= confirmed.len(),
    ensures
        ({
            let (q, n) = relinked(rows, confirmed, k, write);
            let moved = Set::new(|h: int| 0 <= h < k && moves(rows, confirmed, h));
            &&& q.len() == rows.len()
            &&& moved.finite() && n == moved.len()
            &&& forall|i: int|
                0 <= i < q.len() ==> #[trigger] q[i] == (HeaderRecord {
                    prev_fk: q[i].prev_fk,
                    ..rows[i]
                })
            &&& forall|h: int|
                0 <= h < confirmed.len() ==> q[(#[trigger] confirmed[h]).0 - 1].prev_fk == (if write
                    && h < k && moves(rows, confirmed, h) {
                    below(confirmed, h)
                } else {
                    rows[confirmed[h].0 - 1].prev_fk
                })
            &&& forall|i: int|
                0 <= i < rows.len() && !confirmed.contains(Fk((i + 1) as u64)) ==> #[trigger] q[i]
                    == rows[i]
        }),
    decreases k,
{
    let (q, n) = relinked(rows, confirmed, k, write);
    let moved = Set::new(|h: int| 0 <= h < k && moves(rows, confirmed, h));
    if k == 0 {
        assert(moved =~= Set::empty());
    } else {
        let j = k - 1;
        law_relink(rows, confirmed, j, write);
        let (p, m) = relinked(rows, confirmed, j, write);
        let less = Set::new(|h: int| 0 <= h < j && moves(rows, confirmed, h));
        let i0 = confirmed[j].0 - 1;
        assert(1 <= confirmed[j].0 <= rows.len());
        assert(p[i0] == rows[i0]) by {
            assert(p[i0] == (HeaderRecord { prev_fk: p[i0].prev_fk, ..rows[i0] }));
            assert(p[confirmed[j].0 - 1].prev_fk == rows[i0].prev_fk);
        }
        if j > 0 {
            let c = confirmed[j - 1];
            assert(1 <= c.0 <= rows.len());
            lemma_true_link(rows, rows[i0], c);
            assert(p[c.0 - 1] == (HeaderRecord { prev_fk: p[c.0 - 1].prev_fk, ..rows[c.0 - 1] }));
            assert(prev_ok(p, with_prev(p[i0], c)) <==> true_link(rows, rows[i0], c));
        }
        assert((relink_to(p, confirmed, j) is Some) == moves(rows, confirmed, j));
        if moves(rows, confirmed, j) {
            assert(relink_to(p, confirmed, j) == Some(below(confirmed, j)));
            assert(moved =~= less.insert(j));
        } else {
            assert(moved =~= less);
        }
        assert forall|i: int| 0 <= i < q.len() implies #[trigger] q[i] == (HeaderRecord {
            prev_fk: q[i].prev_fk,
            ..rows[i]
        }) by {
            assert(p[i] == (HeaderRecord { prev_fk: p[i].prev_fk, ..rows[i] }));
        }
        assert forall|h: int| 0 <= h < confirmed.len() implies q[(
        #[trigger] confirmed[h]).0 - 1].prev_fk == (if write && h < k && moves(rows, confirmed, h) {
            below(confirmed, h)
        } else {
            rows[confirmed[h].0 - 1].prev_fk
        }) by {
            assert(1 <= confirmed[h].0 <= rows.len());
            assert(p[confirmed[h].0 - 1].prev_fk == (if write && h < j && moves(
                rows,
                confirmed,
                h,
            ) {
                below(confirmed, h)
            } else {
                rows[confirmed[h].0 - 1].prev_fk
            }));
            if h != j {
                assert(confirmed[h] != confirmed[j]);
            }
        }
        assert forall|i: int|
            0 <= i < rows.len() && !confirmed.contains(
                Fk((i + 1) as u64),
            ) implies #[trigger] q[i] == rows[i] by {
            assert(p[i] == rows[i]);
            if i == i0 {
                assert(confirmed[j] == Fk((i + 1) as u64));
            }
        }
    }
}

} // verus!
