//! Laws on the segmented head: what a lookup finds and how batches fill segments.

use vstd::prelude::*;
use vstd::arithmetic::power2::pow2;
use crate::primitives::Fk;
use crate::segmented_head::{abs_fk, all_pairs, asked_segment, count_sealed, entry_error, filled, first_error, first_refused, full_segments, hits, lookup_skips, max_id, max_keys, new_pairs, opened, seg_pairs, segment_error, segment_skips, sum_counts, tail_open, used_entries, HeadLayout, NewEntry, RelEntry, SegDesc, Segment, SegmentFile, Shape};

verus! {

/// A lookup finds the records of the key, newest first, and no others.
pub proof fn law_hits(pairs: Seq<(Seq<u8>, u64)>, key: Seq<u8>)
    ensures
        hits(pairs, key) == pairs.filter(|p: (Seq<u8>, u64)| p.0 == key).map_values(
            |p: (Seq<u8>, u64)| Fk(p.1),
        ).reverse(),
        forall|x: u64| #[trigger]
            hits(pairs, key).contains(Fk(x)) <==> exists|i: int|
                0 <= i < pairs.len() && #[trigger] pairs[i] == (key, x),
    decreases pairs.len(),
{
    reveal(Seq::filter);
    let sel = |p: (Seq<u8>, u64)| p.0 == key;
    let fk = |p: (Seq<u8>, u64)| Fk(p.1);
    let h = hits(pairs, key);
    let l = pairs.filter(sel).map_values(fk).reverse();
    if pairs.len() == 0 {
        assert(h =~= l);
    } else {
        let d = pairs.drop_last();
        law_hits(d, key);
        let g = hits(d, key);
        assert(h =~= l);
        assert forall|x: u64| #[trigger] h.contains(Fk(x)) <==> exists|i: int|
            0 <= i < pairs.len() && #[trigger] pairs[i] == (key, x) by {
            if h.contains(Fk(x)) {
                let j = choose|j: int| 0 <= j < h.len() && h[j] == Fk(x);
                if pairs.last().0 == key && j == 0 {
                    assert(pairs[pairs.len() - 1] == (key, x));
                } else {
                    assert(g[if pairs.last().0 == key {
                        j - 1
                    } else {
                        j
                    }] == Fk(x));
                    assert(g.contains(Fk(x)));
                    let i = choose|i: int| 0 <= i < d.len() && #[trigger] d[i] == (key, x);
                    assert(pairs[i] == (key, x));
                }
            }
            if exists|i: int| 0 <= i < pairs.len() && #[trigger] pairs[i] == (key, x) {
                let i = choose|i: int| 0 <= i < pairs.len() && #[trigger] pairs[i] == (key, x);
                if i == pairs.len() - 1 {
                    assert(h[0] == Fk(x));
                } else {
                    assert(d[i] == (key, x));
                    assert(g.contains(Fk(x)));
                    let j = choose|j: int| 0 <= j < g.len() && g[j] == Fk(x);
                    assert(h[if pairs.last().0 == key {
                        j + 1
                    } else {
                        j
                    }] == Fk(x));
                }
            }
        }
    }
}

/// Of records that came later the later ones are found first; a batch brings a record for each
/// of its entries, in order.
pub proof fn law_hits_later(
    a: Seq<(Seq<u8>, u64)>,
    b: Seq<(Seq<u8>, u64)>,
    key: Seq<u8>,
    entries: Seq<NewEntry>,
    i: int,
)
    ensures
        hits(a + b, key) == hits(b, key) + hits(a, key),
        new_pairs(entries).len() == entries.len(),
        0 <= i < entries.len() ==> new_pairs(entries)[i] == (entries[i].0@, entries[i].1.0),
    decreases b.len(),
{
    if b.len() == 0 {
        assert(a + b =~= a);
        assert(hits(b, key) + hits(a, key) =~= hits(a, key));
    } else {
        law_hits_later(a, b.drop_last(), key, entries, i);
        assert((a + b).drop_last() =~= a + b.drop_last());
        assert(hits(a + b, key) =~= hits(b, key) + hits(a, key));
    }
}

/// The records of a head are those of its segments in their order; an entry of a segment
/// stands for the segment's first record plus its relative number less one.
pub proof fn law_pairs(a: Seq<Segment>, b: Seq<Segment>, s: Segment, i: int)
    ensures
        all_pairs(a + b) == all_pairs(a) + all_pairs(b),
        all_pairs(Seq::empty()) == Seq::<(Seq<u8>, u64)>::empty(),
        all_pairs(seq![s]) == seg_pairs(s),
        seg_pairs(s).len() == s.entries@.len(),
        0 <= i < s.entries@.len() && s.entries@[i].rel >= 1 ==> seg_pairs(s)[i].0
            == s.entries@[i].mixed@ && (seg_pairs(s)[i].1 == s.first_fk + s.entries@[i].rel - 1
            || seg_pairs(s)[i].1 + 0x1_0000_0000_0000_0000 == s.first_fk + s.entries@[i].rel - 1),
    decreases b.len(),
{
    reveal_with_fuel(all_pairs, 2);
    assert(seq![s].drop_last() =~= Seq::empty());
    assert(all_pairs(seq![s]) =~= seg_pairs(s));
    if b.len() == 0 {
        assert(a + b =~= a);
        assert(all_pairs(a) + all_pairs(b) =~= all_pairs(a));
    } else {
        law_pairs(a, b.drop_last(), s, i);
        assert((a + b).drop_last() =~= a + b.drop_last());
        assert(all_pairs(a + b) =~= all_pairs(a) + all_pairs(b));
    }
}

/// Relative numbers count from the segment's first record, 0 standing for none.
pub proof fn law_relative(first_fk: u64, rel: int)
    requires
        0 <= rel <= u64::MAX,
    ensures
        abs_fk(first_fk, rel) is None <==> rel == 0,
        rel >= 1 && first_fk + rel - 1 <= u64::MAX ==> abs_fk(first_fk, rel) == Some(
            Fk((first_fk + rel - 1) as u64),
        ),
{
}

/// A segment takes four fifths of its slots.
pub proof fn law_max_keys(l: HeadLayout)
    requires
        l.valid(),
    ensures
        5 * max_keys(l) <= 4 * pow2(l.bits as nat),
        4 * pow2(l.bits as nat) < 5 * (max_keys(l) + 1),
{
}

/// The sealed segments are counted, and the entries of all segments summed.
pub proof fn law_segments_counted(segs: Seq<Segment>, more: Seq<Segment>, s: Segment)
    ensures
        ({
            let sealed = Set::new(|i: int| 0 <= i < segs.len() && segs[i].sealed);
            sealed.finite() && count_sealed(segs) == sealed.len()
        }),
        sum_counts(segs + more) == sum_counts(segs) + sum_counts(more),
        sum_counts(seq![s]) == s.count,
        sum_counts(Seq::empty()) == 0,
    decreases segs.len() + more.len(),
{
    reveal_with_fuel(sum_counts, 2);
    assert(seq![s].drop_last() =~= Seq::empty());
    assert(seq![s].last() == s);
    let sealed = Set::new(|i: int| 0 <= i < segs.len() && segs[i].sealed);
    if segs.len() == 0 {
        assert(sealed =~= Set::empty());
    } else {
        let d = segs.drop_last();
        law_segments_counted(d, Seq::empty(), s);
        let less = Set::new(|i: int| 0 <= i < d.len() && d[i].sealed);
        assert(forall|i: int| 0 <= i < d.len() ==> d[i] == segs[i]);
        if segs.last().sealed {
            assert(sealed =~= less.insert(segs.len() - 1));
        } else {
            assert(sealed =~= less);
        }
    }
    if more.len() == 0 {
        assert(segs + more =~= segs);
    } else {
        law_segments_counted(segs, more.drop_last(), s);
        assert((segs + more).drop_last() =~= segs + more.drop_last());
    }
}

/// The highest file number bounds all and is one of them.
pub proof fn law_max_id(descs: Seq<SegDesc>)
    ensures
        forall|i: int| 0 <= i < descs.len() ==> (#[trigger] descs[i]).file_id <= max_id(descs),
        descs.len() > 0 ==> exists|i: int|
            0 <= i < descs.len() && (#[trigger] descs[i]).file_id == max_id(descs),
        descs.len() == 0 ==> max_id(descs) == 0,
    decreases descs.len(),
{
    if descs.len() > 0 {
        let d = descs.drop_last();
        law_max_id(d);
        assert forall|i: int| 0 <= i < descs.len() implies (#[trigger] descs[i]).file_id <= max_id(
            descs,
        ) by {
            if i < d.len() {
                assert(d[i] == descs[i]);
            }
        }
        if max_id(descs) == descs.last().file_id {
            assert(descs[descs.len() - 1].file_id == max_id(descs));
        } else if d.len() > 0 {
            let i = choose|i: int| 0 <= i < d.len() && (#[trigger] d[i]).file_id == max_id(d);
            assert(descs[i] == d[i]);
        }
    }
}

/// A segment file's entries are those with a relative number, in order.
pub proof fn law_used_entries(entries: Seq<RelEntry>)
    ensures
        used_entries(entries) == entries.filter(|e: RelEntry| e.rel != 0),
    decreases entries.len(),
{
    reveal(Seq::filter);
    if entries.len() > 0 {
        law_used_entries(entries.drop_last());
    }
}

/// Opening reports the fault of the first segment that has one.
pub proof fn law_first_error(bits: u32, descs: Seq<SegDesc>, files: Seq<SegmentFile>, i: int)
    requires
        0 <= i <= descs.len(),
    ensures
        match first_error(bits, descs, files, i) {
            Some(e) => exists|k: int|
                i <= k < descs.len() && #[trigger] segment_error(bits, descs[k], files[k]) == Some(e)
                    && forall|j: int|
                    i <= j < k ==> #[trigger] segment_error(bits, descs[j], files[j]) is None,
            None => forall|j: int|
                i <= j < descs.len() ==> #[trigger] segment_error(bits, descs[j], files[j]) is None,
        },
    decreases descs.len() - i,
{
    if i < descs.len() {
        law_first_error(bits, descs, files, i + 1);
        match segment_error(bits, descs[i], files[i]) {
            Some(e) => {},
            None => {
                match first_error(bits, descs, files, i + 1) {
                    Some(e) => {
                        let k = choose|k: int|
                            i + 1 <= k < descs.len() && #[trigger] segment_error(
                                bits,
                                descs[k],
                                files[k],
                            ) == Some(e) && forall|j: int|
                                i + 1 <= j < k ==> #[trigger] segment_error(
                                    bits,
                                    descs[j],
                                    files[j],
                                ) is None;
                        assert forall|j: int| i <= j < k implies #[trigger] segment_error(
                            bits,
                            descs[j],
                            files[j],
                        ) is None by {}
                    },
                    None => {},
                }
            },
        }
    }
}

/// A batch is refused at its first entry that no segment can take.
pub proof fn law_first_refused(sh: Shape, entries: Seq<NewEntry>, j: int, max: int)
    requires
        0 <= j <= entries.len(),
    ensures
        ({
            let k = first_refused(sh, entries, j, max);
            &&& j <= k <= entries.len()
            &&& forall|i: int| j <= i < k ==> #[trigger] entry_error(sh, entries, i, max) is None
            &&& k < entries.len() ==> entry_error(sh, entries, k, max) is Some
        }),
    decreases entries.len() - j,
{
    if j < entries.len() && entry_error(sh, entries, j, max) is None {
        law_first_refused(sh, entries, j + 1, max);
    }
}

/// Of a refused batch the entries up to the last segment that they fill are kept.
pub proof fn law_full_segments(sh: Shape, entries: Seq<NewEntry>, n: int, max: int)
    requires
        0 <= n,
    ensures
        ({
            let k = full_segments(sh, entries, n, max);
            &&& 0 <= k <= n
            &&& k > 0 ==> !tail_open(filled(sh, entries.subrange(0, k), max).descs)
            &&& forall|i: int|
                k < i <= n ==> tail_open(
                    (#[trigger] filled(sh, entries.subrange(0, i), max)).descs,
                )
        }),
    decreases n,
{
    if n > 0 && tail_open(filled(sh, entries.subrange(0, n), max).descs) {
        law_full_segments(sh, entries, n - 1, max);
    }
}

/// Entries that the open segment still takes.
pub open spec fn room_of(sh: Shape, max: int) -> int {
    if sh.descs.len() > 0 && sh.descs.last().flags == 0 {
        max - sh.descs.last().count
    } else {
        0
    }
}

/// The shape of a head after `n` entries came: the open segment takes what it has room for,
/// and each further `max` entries make a new segment that begins with the first of them. Full
/// segments are sealed, file numbers go up by one, and all other segments stay.
pub open spec fn filled_by(sh: Shape, entries: Seq<NewEntry>, max: int, r: Shape) -> bool {
    let n = entries.len() as int;
    let room = room_of(sh, max);
    let m = sh.descs.len() as int;
    let added = r.descs.len() - m;
    &&& added >= 0
    &&& if n <= room {
        added == 0
    } else {
        added >= 1 && room + (added - 1) * max < n <= room + added * max
    }
    &&& forall|i: int|
        0 <= i < m && (i < m - 1 || room == 0) ==> #[trigger] r.descs[i] == sh.descs[i]
    &&& room > 0 ==> r.descs[m - 1] == (SegDesc {
        count: (sh.descs[m - 1].count + (if n < room {
            n
        } else {
            room
        })) as u64,
        flags: if n < room {
            0
        } else {
            1
        },
        ..sh.descs[m - 1]
    })
    &&& forall|j: int| 0 <= j < added ==> #[trigger] new_desc(sh, entries, max, r, j)
    &&& r.next == (sh.next + added) % 0x1_0000_0000
}

/// New segment `j`.
pub open spec fn new_desc(sh: Shape, entries: Seq<NewEntry>, max: int, r: Shape, j: int) -> bool {
    let n = entries.len() as int;
    let at = room_of(sh, max) + j * max;
    let d = r.descs[sh.descs.len() + j];
    &&& 0 <= at < n
    &&& d.first_fk == entries[at].1.0
    &&& d.count == (if n - at < max {
        n - at
    } else {
        max
    })
    &&& d.flags == (if n - at < max {
        0u32
    } else {
        1u32
    })
    &&& d.file_id == (sh.next + j) % 0x1_0000_0000
}

/// Batches fill segments one after the other.
pub proof fn law_filled(sh: Shape, entries: Seq<NewEntry>, max: int)
    requires
        1 <= max <= 0x1_0000_0000,
        sh.descs.len() > 0 && sh.descs.last().flags == 0 ==> sh.descs.last().count < max,
    ensures
        filled_by(sh, entries, max, filled(sh, entries, max)),
    decreases entries.len(),
{
    let r = filled(sh, entries, max);
    let m = sh.descs.len() as int;
    let room = room_of(sh, max);
    if entries.len() > 0 {
        let d = entries.drop_last();
        let k = d.len() as int;
        let fk = entries[k].1.0;
        law_filled(sh, d, max);
        let p = filled(sh, d, max);
        let pa = p.descs.len() - m;
        let o = opened(p, fk);
        assert(forall|i: int| 0 <= i < k ==> d[i] == entries[i]);
        assert((pa - 1) * max == pa * max - max) by (nonlinear_arith);
        assert((pa + 1 - 1) * max == pa * max);
        assert((pa + 1) * max == pa * max + max) by (nonlinear_arith);
        assert(0 * max == 0);
        if pa > 0 {
            assert(new_desc(sh, d, max, p, pa - 1));
        }
        if tail_open(p.descs) {
            assert(o == p);
            let last = p.descs.last();
            assert(last.count < max);
            assert(r.descs.len() == p.descs.len());
            assert forall|j: int| 0 <= j < pa implies #[trigger] new_desc(
                sh,
                entries,
                max,
                r,
                j,
            ) by {
                assert(new_desc(sh, d, max, p, j));
                if j < pa - 1 {
                    assert(r.descs[m + j] == p.descs[m + j]);
                    assert(j * max + max <= (pa - 1) * max) by (nonlinear_arith)
                        requires
                            j <= pa - 2,
                            max >= 1,
                    ;
                }
            }
            assert forall|i: int| 0 <= i < m && (i < m - 1 || room == 0) implies
                #[trigger] r.descs[i] == sh.descs[i] by {
                assert(p.descs[i] == sh.descs[i]);
                if i == p.descs.len() - 1 {
                    assert(pa == 0);
                }
            }
        } else {
            assert(r.descs.len() == p.descs.len() + 1);
            assert(o.descs.len() == p.descs.len() + 1);
            assert(k == room + pa * max) by {
                if pa == 0 {
                    if room > 0 {
                        assert(p.descs[m - 1].flags == 1);
                    }
                }
            }
            assert forall|j: int| 0 <= j < pa + 1 implies #[trigger] new_desc(
                sh,
                entries,
                max,
                r,
                j,
            ) by {
                if j < pa {
                    assert(new_desc(sh, d, max, p, j));
                    assert(r.descs[m + j] == p.descs[m + j]);
                    assert(j * max + max <= pa * max) by (nonlinear_arith)
                        requires
                            j <= pa - 1,
                            max >= 1,
                    ;
                }
            }
            assert forall|i: int| 0 <= i < m && (i < m - 1 || room == 0) implies
                #[trigger] r.descs[i] == sh.descs[i] by {
                assert(p.descs[i] == sh.descs[i]);
                assert(r.descs[i] == p.descs[i]);
            }
            if room > 0 {
                assert(r.descs[m - 1] == p.descs[m - 1]);
            }
        }
    }
}

/// A filter that does not know a key spares the look into its segment: the keys that each
/// segment is spared are counted.
pub proof fn law_skips(s: Segment, keys: Seq<[u8; 32]>)
    ensures
        ({
            let spared = Set::new(|i: int| 0 <= i < keys.len() && !asked_segment(s, keys[i]@));
            spared.finite() && segment_skips(s, keys) == spared.len()
        }),
    decreases keys.len(),
{
    let spared = Set::new(|i: int| 0 <= i < keys.len() && !asked_segment(s, keys[i]@));
    if keys.len() == 0 {
        assert(spared =~= Set::empty());
    } else {
        let d = keys.drop_last();
        law_skips(s, d);
        let less = Set::new(|i: int| 0 <= i < d.len() && !asked_segment(s, d[i]@));
        assert(forall|i: int| 0 <= i < d.len() ==> d[i] == keys[i]);
        if asked_segment(s, keys.last()@) {
            assert(spared =~= less);
        } else {
            assert(spared =~= less.insert(keys.len() - 1));
        }
    }
}

/// The looks that a batch is spared are those of all segments.
pub proof fn law_lookup_skips(segs: Seq<Segment>, keys: Seq<[u8; 32]>, si: int)
    requires
        0 <= si <= segs.len(),
    ensures
        lookup_skips(segs, si, keys) == segs.subrange(si, segs.len() as int).fold_right_alt(
            |s: Segment, n: nat| n + segment_skips(s, keys),
            0nat,
        ),
    decreases segs.len() - si,
{
    let f = |s: Segment, n: nat| n + segment_skips(s, keys);
    let t = segs.subrange(si, segs.len() as int);
    if si < segs.len() {
        law_lookup_skips(segs, keys, si + 1);
        assert(t.subrange(1, t.len() as int) =~= segs.subrange(si + 1, segs.len() as int));
        assert(t[0] == segs[si]);
    }
}

} // verus!
