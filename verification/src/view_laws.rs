//! Laws on the plain values that contracts speak of: each has the parts of what it stands for.

use vstd::prelude::*;
use crate::primitives::Fk;
use crate::run_catalog::ManifestEntry;
use crate::run_dir::{committed, merged_in};
use crate::scripthash_files::run_like;
use crate::scripthash_layout::{class_bytes, entry_fks, lemma_class_cap_values, ShEntry, ShHeadValue};
use crate::scripthash_migrate::has_shal;
use crate::scripthash_pages::pack_err;
use crate::scripthash_slabs::{fk_stream, fks_ok, is_class_for_len};
use crate::sorted_run::{SortedRun, SortedRunPath};
use crate::sp_tweaks::{places_view, tweaks_view, Tweak};
use crate::spend_annotate_uring::{op_bytes, writes_view, AnnotateOp, MetaWrite};

verus! {

/// Prepared writes keep their order, their place, their edge and their bytes.
pub proof fn law_writes_view(w: Seq<MetaWrite>, i: int)
    requires
        0 <= i < w.len(),
    ensures
        writes_view(w).len() == w.len(),
        writes_view(w)[i].0.0 == w[i].abs,
        writes_view(w)[i].0.1 == w[i].create_fk,
        writes_view(w)[i].0.2 == w[i].vout,
        writes_view(w)[i].0.3 == w[i].spend_fk,
        writes_view(w)[i].1 == w[i].meta@,
{
}

/// An operation on an annotation writes its bytes, or nothing.
pub proof fn law_op_bytes(b: [u8; 9])
    ensures
        op_bytes(AnnotateOp::Skip) is None,
        op_bytes(AnnotateOp::Write(b)) == Some(b@),
{
}

/// The tweaks of a block keep their order; those with places keep both.
pub proof fn law_tweaks_view(ts: Seq<Tweak>, v: Seq<(u32, [u8; 33])>, i: int)
    ensures
        tweaks_view(ts).len() == ts.len(),
        0 <= i < ts.len() ==> match ts[i] {
            Some(b) => tweaks_view(ts)[i] == Some(b@),
            None => tweaks_view(ts)[i] is None,
        },
        places_view(v).len() == v.len(),
        0 <= i < v.len() ==> places_view(v)[i] == (v[i].0 as int, v[i].1@),
{
}

/// Entries stand for their creates, in order; a value that holds creates itself has the first
/// of its two places, or both.
pub proof fn law_entry_views(s: Seq<ShEntry>, entries: [ShEntry; 2], i: int)
    ensures
        entry_fks(s).len() == s.len(),
        0 <= i < s.len() ==> entry_fks(s)[i] == s[i].create_tx_fk,
        (ShHeadValue::Inline { entries, used: 1 }).inline_seq() == seq![entries@[0]],
        (ShHeadValue::Inline { entries, used: 2 }).inline_seq() == seq![entries@[0], entries@[1]],
        ShHeadValue::Empty.inline_seq().len() == 0,
{
    assert((ShHeadValue::Inline { entries, used: 1 }).inline_seq() =~= seq![entries@[0]]);
    assert((ShHeadValue::Inline { entries, used: 2 }).inline_seq() =~= seq![
        entries@[0],
        entries@[1],
    ]);
}

/// A catalog after a run was committed lists the run under its number and all other entries; a
/// merge that is committed also takes out the runs that went into it.
pub proof fn law_catalog_commits(
    a: Seq<ManifestEntry>,
    b: Seq<ManifestEntry>,
    inputs: Seq<SortedRun>,
    run: SortedRunPath,
    seq: u64,
)
    requires
        run.seq == Some(seq),
    ensures
        ({
            let x = ManifestEntry {
                seq,
                count: run.count,
                key_len: run.key_len,
                rec_len: run.rec_len,
                body_crc32: run.body_crc32,
            };
            &&& committed(a, b, run) ==> forall|e: ManifestEntry| #[trigger]
                b.contains(e) <==> e == x || (a.contains(e) && e.seq != seq)
            &&& merged_in(a, b, inputs, run) ==> forall|e: ManifestEntry| #[trigger]
                b.contains(e) <==> e == x || (a.contains(e) && e.seq != seq && !(exists|i: int|
                    0 <= i < inputs.len() && (#[trigger] inputs[i]).head.seq == Some(e.seq)))
            &&& committed(a, b, run) || merged_in(a, b, inputs, run) ==> forall|i: int, j: int|
                0 <= i < j < b.len() ==> (#[trigger] b[i]).seq <= (#[trigger] b[j]).seq
        }),
{
    lemma_seqs_in_order(b);
}

proof fn lemma_seqs_in_order(b: Seq<ManifestEntry>)
    ensures
        crate::sorting::sorted_by_rank(b) ==> forall|i: int, j: int|
            0 <= i < j < b.len() ==> (#[trigger] b[i]).seq <= (#[trigger] b[j]).seq,
{
    if crate::sorting::sorted_by_rank(b) {
        assert forall|i: int, j: int| 0 <= i < j < b.len() implies (#[trigger] b[i]).seq <= (
        #[trigger] b[j]).seq by {
            assert(crate::sorting::Ranked::rank(&b[i]) <= crate::sorting::Ranked::rank(&b[j]));
        }
    }
}

/// A page takes creates exactly where they rise from above 0 and stay below 2^63, their stream
/// fits, and the next page has no flag.
pub proof fn law_page_packs(fks: Seq<Fk>, next: u64, room: int)
    ensures
        pack_err(fks, next, room) is None && fks_ok(fks) ==> fk_stream(fks).len() <= room && next
            < 0x8000_0000_0000_0000,
        fks_ok(fks) && fk_stream(fks).len() <= room && next < 0x8000_0000_0000_0000 ==> pack_err(
            fks,
            next,
            room,
        ) is None,
        fks_ok(fks) <==> (fks.len() > 0 ==> fks[0].0 > 0) && (forall|i: int|
            0 <= i < fks.len() ==> (#[trigger] fks[i]).0 < 0x8000_0000_0000_0000) && forall|
            i: int,
            j: int,
        |
            0 <= i < j < fks.len() ==> (#[trigger] fks[i]).0 < (#[trigger] fks[j]).0,
{
}

/// A body is of the present form where `SHAL` stands behind its 16 bytes of header.
pub proof fn law_present_form(body: Seq<u8>)
    ensures
        has_shal(body) <==> body.len() >= 20 && body[16] == 0x53 && body[17] == 0x48 && body[18]
            == 0x41 && body[19] == 0x4c,
{
    let m = crate::scripthash_layout::SH_ALLOC_MAGIC@;
    if body.len() >= 20 {
        let s = body.subrange(16, 20);
        assert(s[0] == body[16] && s[1] == body[17] && s[2] == body[18] && s[3] == body[19]);
        if body[16] == 0x53 && body[17] == 0x48 && body[18] == 0x41 && body[19] == 0x4c {
            assert(s =~= m);
        }
    }
}

/// Files of runs end in `.run`, those that are claimed or half written in `.run.mat` or
/// `.run.tmp`.
pub proof fn law_run_endings(front: Seq<u8>)
    ensures
        run_like(front + seq![0x2eu8, 0x72u8, 0x75u8, 0x6eu8]),
        run_like(
            front + seq![0x2eu8, 0x72u8, 0x75u8, 0x6eu8, 0x2eu8, 0x6du8, 0x61u8, 0x74u8],
        ),
        run_like(
            front + seq![0x2eu8, 0x72u8, 0x75u8, 0x6eu8, 0x2eu8, 0x74u8, 0x6du8, 0x70u8],
        ),
        run_like(front) ==> front.len() >= 4 && (front.last() == 0x6e || front.last() == 0x74
            || front.last() == 0x70),
{
    let a = seq![0x2eu8, 0x72u8, 0x75u8, 0x6eu8];
    let b = seq![0x2eu8, 0x72u8, 0x75u8, 0x6eu8, 0x2eu8, 0x6du8, 0x61u8, 0x74u8];
    let c = seq![0x2eu8, 0x72u8, 0x75u8, 0x6eu8, 0x2eu8, 0x74u8, 0x6du8, 0x70u8];
    let x = front + a;
    let y = front + b;
    let z = front + c;
    assert(x.subrange(x.len() - 4, x.len() as int) =~= a);
    assert(y.subrange(y.len() - 8, y.len() as int) =~= b);
    assert(z.subrange(z.len() - 8, z.len() as int) =~= c);
    let n = front.len() as int;
    if n >= 4 && front.subrange(n - 4, n) == a {
        assert(front.subrange(n - 4, n)[3] == front[n - 1]);
    }
    if n >= 8 && front.subrange(n - 8, n) == b {
        assert(front.subrange(n - 8, n)[7] == front[n - 1]);
    }
    if n >= 8 && front.subrange(n - 8, n) == c {
        assert(front.subrange(n - 8, n)[7] == front[n - 1]);
    }
}

/// A slab for packed bytes is of the smallest of seven classes that takes them; more than 2048
/// bytes go to pages.
pub proof fn law_slab_for_bytes(len: int, c: u8)
    requires
        c <= 6,
    ensures
        is_class_for_len(len, Some(c)) <==> len <= class_bytes(c as nat) && (c == 0 || class_bytes(
            (c - 1) as nat,
        ) < len),
        is_class_for_len(len, None) <==> len > 2048,
{
    lemma_class_cap_values();
    assert(c == 0 || c == 1 || c == 2 || c == 3 || c == 4 || c == 5 || c == 6);
    if c > 0 {
        assert forall|d: nat| d < c implies #[trigger] class_bytes(d) <= class_bytes(
            (c - 1) as nat,
        ) by {
            assert(d == 0 || d == 1 || d == 2 || d == 3 || d == 4 || d == 5);
        }
    }
}

} // verus!
