//! Laws on decisions: how many workers, which files, which form.

use vstd::prelude::*;
use crate::bytes::{u16_at, u32_at, u64_at};
use crate::catalog_laws::picks;
use crate::cold_progress::{progress_value, ColdProgress};
use crate::compact::uleb;
use crate::crc::crc_of;
use crate::error::StoreError;
use crate::hashhead::{first_of, HeadRole, HeadScale};
use crate::host::{has_label, is_space, line_end, mem_label, meminfo, skip_space, skip_word, workers_for};
use crate::mlock::MlockTable;
use crate::number_laws::{falls_at, law_byte_order, law_dec_padded};
use crate::primitives::Fk;
use crate::scripthash::{ingest_sealed, ingest_slots, KeyHome, ScriptHashRecord, ScriptHashTable, ShBodyLayout};
use crate::scripthash_body::page_at;
use crate::scripthash_bulk::{capped, hint_or_default};
use crate::scripthash_files::{alloc_error, shard_names};
use crate::run_catalog::{manifest_known, ManifestEntry};
use crate::scripthash_cold::progress_bump;
use crate::scripthash_head::{occ_value, prefix_shard, slots_fault};
use crate::scripthash_layout::{class_bytes, class_cap, lemma_class_cap_values, ShHeadValue};
use crate::scripthash_materialize::{start_totals, workers_for as pack_workers};
use crate::scripthash_migrate::{action_for, ends_with, hybrid_action, recover_plan, HybridAction, MigrateAction, MigrateFiles};
use crate::scripthash_open::{bodies_fault, header_part};
use crate::scripthash_pages::{append_err, append_fits, head_mode, is_chunking, law_page_append, lemma_chunk_is_stream, page_appended, page_fks, page_read, paged_head_err, pages_for, slab_head_err, slab_words, ShHeadValueMode};
use crate::scripthash_remap::shifted;
use crate::scripthash_slabs::{fk_stream, fks_ok, is_class_for, is_slack_class_for, slab_payload};
use crate::scripthash_values::{is_packing, sat_add, sat_sub, span_too_long};
use crate::sealed_head::newest_word;
use crate::segment_meta::{head_name, layout_step, meta_value, HeadFiles, LayoutStep};
use crate::segmented_head::{count_sealed, desc_of, desc_sealed, far_error, id_after, lookup_skips, lookup_stats, near, rolled, segment_error, SegDesc, Segment, SegmentFile, Shape};
use crate::sharded_hashhead::{default_slots, names_shard, shards_for, ShardName};
use crate::sharded_scripthash_head::{named, HeadShardFile};
use crate::sorted_run::{crc_bad, rec_rank, recs_of, run_open, write_err, SortedRunPath};
use crate::slot_table::Slot;
use crate::sorting::Ranked;
use crate::sp_tweaks::SpTweaksTable;
use crate::spend_annotate_uring::{known_done, KnownDone, MetaWrite};
use crate::text::{all_digits, dec_nat, parse_dec, run_name};

verus! {

/// Workers are as many as the processors and the free memory allow, at 1.5 GiB for each, no
/// more than 256 and no fewer than one.
pub proof fn law_workers_by_memory(cpus: int, free_bytes: int)
    requires
        0 <= cpus,
        0 <= free_bytes,
    ensures
        ({
            let r = workers_for(cpus, free_bytes);
            &&& 1 <= r <= 256
            &&& r > 1 ==> r <= cpus && r * 1_610_612_736 <= free_bytes
            &&& r < 256 && r < cpus ==> (r + 1) * 1_610_612_736 > free_bytes
        }),
{
}

/// Workers that pack shards are at most as many as asked for and as there are shards; each
/// opens all runs, and together they stay within the limit on open files. Shards that share a
/// body are packed by one.
pub proof fn law_workers_by_files(
    requested: int,
    n_shards: int,
    n_runs: int,
    layout: ShBodyLayout,
    soft_limit: int,
)
    requires
        1 <= requested,
        1 <= n_shards,
        1 <= n_runs,
        0 <= soft_limit,
    ensures
        ({
            let r = pack_workers(requested, n_shards, n_runs, layout, soft_limit);
            let most = if requested < n_shards {
                requested
            } else {
                n_shards
            };
            &&& layout == ShBodyLayout::Shared ==> r == 1
            &&& 1 <= r <= most
            &&& layout == ShBodyLayout::Sharded && (soft_limit == 0 || soft_limit >= most * n_runs
                + 64) ==> r == most
            &&& layout == ShBodyLayout::Sharded && 0 < soft_limit < most * n_runs + 64 ==> (r > 1
                ==> r * n_runs <= soft_limit) && (r < most ==> (r + 1) * n_runs > soft_limit)
        }),
{
    let q = soft_limit / n_runs;
    vstd::arithmetic::div_mod::lemma_fundamental_div_mod(soft_limit, n_runs);
    let m = soft_limit % n_runs;
    assert(q * n_runs <= soft_limit < (q + 1) * n_runs) by (nonlinear_arith)
        requires
            soft_limit == n_runs * q + m,
            0 <= m < n_runs,
    ;
    let r = pack_workers(requested, n_shards, n_runs, layout, soft_limit);
    if r <= q {
        assert(r * n_runs <= q * n_runs) by (nonlinear_arith)
            requires
                r <= q,
                n_runs >= 1,
        ;
    }
    if r >= q {
        assert((r + 1) * n_runs >= (q + 1) * n_runs) by (nonlinear_arith)
            requires
                r >= q,
                n_runs >= 1,
        ;
    }
}

/// A space is a blank, a tab, or an end of a line or page.
pub proof fn law_space(b: u8)
    ensures
        is_space(b) <==> b == 0x20 || b == 0x09 || b == 0x0a || b == 0x0b || b == 0x0c || b == 0x0d,
{
}

/// A line begins here.
pub open spec fn line_start(s: Seq<u8>, i: int) -> bool {
    0 <= i < s.len() && (i == 0 || s[i - 1] == 10)
}

/// The text has the label `MemAvailable:` here.
pub open spec fn labelled(s: Seq<u8>, i: int) -> bool {
    &&& i + 13 <= s.len()
    &&& s.subrange(i, i + 13) == seq![
        0x4du8,
        0x65u8,
        0x6du8,
        0x41u8,
        0x76u8,
        0x61u8,
        0x69u8,
        0x6cu8,
        0x61u8,
        0x62u8,
        0x6cu8,
        0x65u8,
        0x3au8,
    ]
}

proof fn lemma_line_end(s: Seq<u8>, i: int)
    requires
        0 <= i,
    ensures
        ({
            let e = line_end(s, i);
            &&& i <= s.len() ==> i <= e <= s.len()
            &&& e < s.len() ==> s[e] == 10
            &&& forall|j: int| i <= j < e ==> #[trigger] s[j] != 10
        }),
    decreases s.len() - i,
{
    if i < s.len() && s[i] != 10 {
        lemma_line_end(s, i + 1);
    }
}

proof fn lemma_skip_space(s: Seq<u8>, i: int, p: int, e: int)
    requires
        0 <= i <= p <= e <= s.len(),
        forall|j: int| i <= j < p ==> is_space(#[trigger] s[j]),
        p == e || !is_space(s[p]),
    ensures
        skip_space(s, i, e) == p,
    decreases e - i,
{
    if i < p {
        assert(is_space(s[i]));
        lemma_skip_space(s, i + 1, p, e);
    }
}

proof fn lemma_skip_word(s: Seq<u8>, i: int, q: int, e: int)
    requires
        0 <= i <= q <= e <= s.len(),
        forall|j: int| i <= j < q ==> !is_space(#[trigger] s[j]),
        q == e || is_space(s[q]),
    ensures
        skip_word(s, i, e) == q,
    decreases e - i,
{
    if i < q {
        assert(!is_space(s[i]));
        lemma_skip_word(s, i + 1, q, e);
    }
}

proof fn lemma_label(s: Seq<u8>, i: int)
    requires
        0 <= i < s.len(),
    ensures
        has_label(s, i, line_end(s, i)) <==> labelled(s, i),
{
    lemma_line_end(s, i);
    let e = line_end(s, i);
    assert(mem_label() =~= seq![
        0x4du8,
        0x65u8,
        0x6du8,
        0x41u8,
        0x76u8,
        0x61u8,
        0x69u8,
        0x6cu8,
        0x61u8,
        0x62u8,
        0x6cu8,
        0x65u8,
        0x3au8,
    ]);
    if labelled(s, i) && e < i + 13 {
        assert(s.subrange(i, i + 13)[e - i] == s[e]);
    }
}

proof fn lemma_meminfo_skip(s: Seq<u8>, c: int, b: int)
    requires
        line_start(s, c),
        line_start(s, b),
        c <= b,
        forall|j: int| c <= j < b && line_start(s, j) ==> !#[trigger] labelled(s, j),
    ensures
        meminfo(s, c) == meminfo(s, b),
    decreases b - c,
{
    if c < b {
        lemma_label(s, c);
        lemma_line_end(s, c);
        let e = line_end(s, c);
        assert(!labelled(s, c));
        assert(e < b) by {
            if e >= b {
                assert(s[b - 1] != 10);
            }
        }
        assert(line_start(s, e + 1));
        lemma_meminfo_skip(s, e + 1, b);
    }
}

proof fn lemma_meminfo_none(s: Seq<u8>, c: int)
    requires
        0 <= c,
        c < s.len() ==> line_start(s, c),
        forall|j: int| c <= j && line_start(s, j) ==> !#[trigger] labelled(s, j),
    ensures
        meminfo(s, c) is None,
    decreases s.len() + 1 - c,
{
    if c < s.len() {
        lemma_label(s, c);
        lemma_line_end(s, c);
        assert(!labelled(s, c));
        lemma_meminfo_none(s, line_end(s, c) + 1);
    }
}

/// The memory that is available is the number, in KiB, of the first line that begins with the
/// label: the word behind the spaces. It is held to 64 bits; a word that is no number, or a
/// text without such a line, gives none.
pub proof fn law_meminfo(s: Seq<u8>, b: int, p: int, q: int, e: int)
    ensures
        line_start(s, b) && labelled(s, b) && (forall|j: int|
            0 <= j < b && line_start(s, j) ==> !#[trigger] labelled(s, j)) && b + 13 <= p <= q <= e
            <= s.len() && (e == s.len() || s[e] == 10) && (forall|j: int|
            b <= j < e ==> #[trigger] s[j] != 10) && (forall|j: int|
            b + 13 <= j < p ==> is_space(#[trigger] s[j])) && (forall|j: int|
            p <= j < q ==> !is_space(#[trigger] s[j])) && (p == e || !is_space(s[p])) && (q == e
            || is_space(s[q])) ==> meminfo(s, 0) == (match parse_dec(s.subrange(p, q)) {
            Some(kb) => Some(
                if kb * 1024 > u64::MAX {
                    u64::MAX
                } else {
                    (kb * 1024) as u64
                },
            ),
            None => None,
        }),
        (forall|j: int| line_start(s, j) ==> !#[trigger] labelled(s, j)) ==> meminfo(s, 0) is None,
{
    if line_start(s, b) && labelled(s, b) && (forall|j: int|
        0 <= j < b && line_start(s, j) ==> !#[trigger] labelled(s, j)) && b + 13 <= p <= q <= e
        <= s.len() && (e == s.len() || s[e] == 10) && (forall|j: int|
        b <= j < e ==> #[trigger] s[j] != 10) && (forall|j: int|
        b + 13 <= j < p ==> is_space(#[trigger] s[j])) && (forall|j: int|
        p <= j < q ==> !is_space(#[trigger] s[j])) && (p == e || !is_space(s[p])) && (q == e
        || is_space(s[q])) {
        assert(line_start(s, 0));
        lemma_meminfo_skip(s, 0, b);
        lemma_label(s, b);
        lemma_line_end(s, b);
        let f = line_end(s, b);
        assert(f == e) by {
            if f < e {
                assert(s[f] != 10);
            } else if e < f {
                assert(s[e] != 10);
            }
        }
        lemma_skip_space(s, b + 13, p, e);
        lemma_skip_word(s, p, q, e);
    }
    if forall|j: int| line_start(s, j) ==> !#[trigger] labelled(s, j) {
        lemma_meminfo_none(s, 0);
    }
}

/// The bytes are a run file: a header of 32 bytes with a magic and its version, lengths that
/// fit, and as many records behind it as it says.
pub open spec fn is_run_file(f: Seq<u8>, second: bool) -> bool {
    &&& f.len() >= 32
    &&& f.subrange(0, 8) == seq![
        0x52u8,
        0x42u8,
        0x53u8,
        0x4fu8,
        0x52u8,
        0x54u8,
        0x30u8,
        if second {
            0x32u8
        } else {
            0x31u8
        },
    ]
    &&& u32_at(f, 8) == (if second {
        2u32
    } else {
        1u32
    })
    &&& 1 <= u32_at(f, 12) <= u32_at(f, 16)
    &&& f.len() >= 32 + u64_at(f, 20) * u32_at(f, 16)
    &&& second ==> f.len() == 32 + u64_at(f, 20) * u32_at(f, 16)
}

/// A file opens as a run exactly if it is a run file of the second or the first version, and
/// the run has the fields of the header; the first version has no checksum.
pub proof fn law_run_open(seq: Option<u64>, f: Seq<u8>)
    ensures
        run_open(seq, f) is Ok <==> is_run_file(f, true) || is_run_file(f, false),
        is_run_file(f, true) ==> run_open(seq, f)->Ok_0 == (SortedRunPath {
            seq,
            count: u64_at(f, 20),
            rec_len: u32_at(f, 16),
            key_len: u32_at(f, 12),
            body_crc32: u32_at(f, 28),
        }),
        is_run_file(f, false) ==> run_open(seq, f)->Ok_0 == (SortedRunPath {
            seq,
            count: u64_at(f, 20),
            rec_len: u32_at(f, 16),
            key_len: u32_at(f, 12),
            body_crc32: 0,
        }),
{
    let m = f.subrange(0, 8);
    let a = seq![0x52u8, 0x42u8, 0x53u8, 0x4fu8, 0x52u8, 0x54u8, 0x30u8, 0x32u8];
    let b = seq![0x52u8, 0x42u8, 0x53u8, 0x4fu8, 0x52u8, 0x54u8, 0x30u8, 0x31u8];
    assert(a[7] != b[7]);
    assert(crate::sorted_run::magic() =~= a);
    assert(crate::sorted_run::magic_v1() =~= b);
    assert(seq![
        0x52u8,
        0x42u8,
        0x53u8,
        0x4fu8,
        0x52u8,
        0x54u8,
        0x30u8,
        if true {
            0x32u8
        } else {
            0x31u8
        },
    ] =~= a);
    assert(seq![
        0x52u8,
        0x42u8,
        0x53u8,
        0x4fu8,
        0x52u8,
        0x54u8,
        0x30u8,
        if false {
            0x32u8
        } else {
            0x31u8
        },
    ] =~= b);
}

/// Records are written as a run exactly if the lengths fit, they are whole records, and where
/// the key is the whole record each is above the one before.
pub proof fn law_run_write(key_len: u32, rec_len: u32, records: Seq<u8>)
    ensures
        write_err(key_len, rec_len, records) is None <==> {
            &&& 1 <= key_len <= rec_len
            &&& records.len() as int % rec_len as int == 0
            &&& key_len == rec_len ==> forall|i: int, j: int|
                0 <= i < j < recs_of(records, rec_len as int).len() ==> rec_rank(
                    #[trigger] recs_of(records, rec_len as int)[i],
                    key_len as int,
                    rec_len as int,
                ) < rec_rank(
                    #[trigger] recs_of(records, rec_len as int)[j],
                    key_len as int,
                    rec_len as int,
                )
        },
{
}

/// A list of segments opens exactly if it has the store's magic, version 1 and room for as
/// many segments as it says.
pub proof fn law_segments_open(b: Seq<u8>)
    ensures
        meta_value(b) is Ok <==> {
            &&& b.len() >= 24
            &&& b.subrange(0, 4) == seq![0x52u8, 0x42u8, 0x54u8, 0x31u8]
            &&& u32_at(b, 8) == 1
            &&& b.len() >= 24 + 32 * u32_at(b, 12)
        },
{
    assert(crate::primitives::STORE_MAGIC@ =~= seq![0x52u8, 0x42u8, 0x54u8, 0x31u8]);
}

/// A body opens exactly if it has an allocator header with a magic and a version that is known.
pub proof fn law_alloc_open(h: Seq<u8>)
    ensures
        alloc_error(h) is None <==> {
            &&& h.len() >= 24
            &&& h.subrange(0, 4) == seq![0x53u8, 0x48u8, 0x41u8, 0x4cu8]
            &&& 1 <= u16_at(h, 4) <= 3
        },
{
    assert(crate::scripthash_layout::SH_ALLOC_MAGIC@ =~= seq![0x53u8, 0x48u8, 0x41u8, 0x4cu8]);
}

/// The bodies are refused for the first that has no header.
pub proof fn law_bodies_fault(bodies: Seq<Vec<u8>>, i: int)
    requires
        0 <= i <= bodies.len(),
    ensures
        match bodies_fault(bodies, i) {
            Some(e) => exists|k: int|
                i <= k < bodies.len() && alloc_error(header_part((#[trigger] bodies[k])@)) == Some(e)
                    && forall|j: int|
                    i <= j < k ==> alloc_error(header_part((#[trigger] bodies[j])@)) is None,
            None => forall|j: int|
                i <= j < bodies.len() ==> alloc_error(header_part((#[trigger] bodies[j])@)) is None,
        },
    decreases bodies.len() - i,
{
    if i < bodies.len() && alloc_error(header_part(bodies[i]@)) is None {
        law_bodies_fault(bodies, i + 1);
        match bodies_fault(bodies, i + 1) {
            Some(e) => {
                let k = choose|k: int|
                    i + 1 <= k < bodies.len() && alloc_error(header_part((#[trigger] bodies[k])@))
                        == Some(e) && forall|j: int|
                        i + 1 <= j < k ==> alloc_error(header_part((#[trigger] bodies[j])@)) is None;
                assert forall|j: int| i <= j < k implies alloc_error(
                    header_part((#[trigger] bodies[j])@),
                ) is None by {}
                assert(alloc_error(header_part(bodies[k]@)) == Some(e));
            },
            None => {},
        }
    }
}

/// The value of a hexadecimal digit, lower case.
pub open spec fn hex_value(b: u8) -> int {
    if 48 <= b <= 57 {
        b - 48
    } else if 97 <= b <= 102 {
        b - 87
    } else {
        -1
    }
}

/// A shard's name is its number in hexadecimal digits: two, or one for the first sixteen.
pub proof fn law_shard_name(s: ShardName, i: int)
    requires
        0 <= i,
    ensures
        names_shard(s, i) <==> match s.second {
            Some(b) => hex_value(s.first) >= 0 && hex_value(b) >= 0 && i == 16 * hex_value(s.first)
                + hex_value(b),
            None => hex_value(s.first) >= 0 && i == hex_value(s.first),
        },
{
    match s.second {
        Some(b) => {
            if hex_value(s.first) >= 0 && hex_value(b) >= 0 && i == 16 * hex_value(s.first)
                + hex_value(b) {
                assert(i / 16 == hex_value(s.first) && i % 16 == hex_value(b));
            }
        },
        None => {},
    }
}

/// The byte is a hexadecimal digit of either case.
pub open spec fn hex_byte(b: u8) -> bool {
    48 <= b <= 57 || 65 <= b <= 70 || 97 <= b <= 102
}

/// The shards of a directory are the files whose names are two hexadecimal digits.
pub proof fn law_shard_files(files: Seq<Vec<u8>>, n: int) -> (src: Seq<int>)
    requires
        0 <= n <= files.len(),
    ensures
        picks(
            src,
            n,
            |i: int| files[i]@.len() == 2 && hex_byte(files[i]@[0]) && hex_byte(files[i]@[1]),
        ),
        src.len() == shard_names(files, n).len(),
        forall|j: int|
            0 <= j < src.len() ==> (#[trigger] shard_names(files, n)[j]) == (ShardName {
                first: files[src[j]]@[0],
                second: Some(files[src[j]]@[1]),
            }),
    decreases n,
{
    let sel = |i: int| files[i]@.len() == 2 && hex_byte(files[i]@[0]) && hex_byte(files[i]@[1]);
    if n == 0 {
        Seq::empty()
    } else {
        let s = law_shard_files(files, n - 1);
        crate::catalog_laws::lemma_picks_push(s, n - 1, sel);
        let l = shard_names(files, n);
        let p = shard_names(files, n - 1);
        if sel(n - 1) {
            let t = s.push(n - 1);
            assert forall|j: int| 0 <= j < t.len() implies (#[trigger] l[j]) == (ShardName {
                first: files[t[j]]@[0],
                second: Some(files[t[j]]@[1]),
            }) by {
                if j < s.len() {
                    assert(l[j] == p[j]);
                    assert(t[j] == s[j]);
                }
            }
            t
        } else {
            s
        }
    }
}

/// So are those of a head, each with its place among the files.
pub proof fn law_head_shard_files(files: Seq<HeadShardFile>, n: int) -> (src: Seq<int>)
    requires
        0 <= n <= files.len(),
        files.len() <= usize::MAX,
    ensures
        picks(
            src,
            n,
            |i: int|
                files[i].name@.len() == 2 && hex_byte(files[i].name@[0]) && hex_byte(
                    files[i].name@[1],
                ),
        ),
        src.len() == named(files, n).len(),
        forall|j: int|
            0 <= j < src.len() ==> (#[trigger] named(files, n)[j]).at == src[j] && named(
                files,
                n,
            )[j].name == (ShardName {
                first: files[src[j]].name@[0],
                second: Some(files[src[j]].name@[1]),
            }),
    decreases n,
{
    let sel = |i: int|
        files[i].name@.len() == 2 && hex_byte(files[i].name@[0]) && hex_byte(files[i].name@[1]);
    if n == 0 {
        Seq::empty()
    } else {
        let s = law_head_shard_files(files, n - 1);
        crate::catalog_laws::lemma_picks_push(s, n - 1, sel);
        let l = named(files, n);
        let p = named(files, n - 1);
        if sel(n - 1) {
            let t = s.push(n - 1);
            assert forall|j: int| 0 <= j < t.len() implies (#[trigger] l[j]).at == t[j] && l[j].name
                == (ShardName {
                first: files[t[j]].name@[0],
                second: Some(files[t[j]].name@[1]),
            }) by {
                if j < s.len() {
                    assert(l[j] == p[j]);
                    assert(t[j] == s[j]);
                }
            }
            t
        } else {
            s
        }
    }
}

/// A slab takes 4 creates of 8 bytes in its smallest class, and twice as many in each further
/// one; a page is as large as class 7.
pub proof fn law_class_table()
    ensures
        class_cap(0) == 4 && class_cap(1) == 8 && class_cap(2) == 16 && class_cap(3) == 32,
        class_cap(4) == 64 && class_cap(5) == 128 && class_cap(6) == 256 && class_cap(7) == 512,
        class_bytes(0) == 32 && class_bytes(6) == 2048 && class_bytes(7) == 4096,
        forall|c: nat| #[trigger] class_cap(c + 1) == 2 * class_cap(c) && class_bytes(c) == 8
            * class_cap(c),
{
    lemma_class_cap_values();
    assert forall|c: nat| #[trigger] class_cap(c + 1) == 2 * class_cap(c) && class_bytes(c) == 8
        * class_cap(c) by {
        vstd::arithmetic::power2::lemma_pow2_unfold(c + 1);
    }
}

/// The two words of a slab: the flagged offset, and the flagged class and number of creates.
pub proof fn law_slab_words(class: u8, used: u16, off: u64)
    requires
        class <= 6,
        0 < off < 0x8000_0000_0000_0000,
    ensures
        slab_words(class, used, off).0 == 0x8000_0000_0000_0000 + off,
        slab_words(class, used, off).1 % 0x1_0000 == used,
        (slab_words(class, used, off).1 / 0x1_0000) % 0x100 == class,
        slab_words(class, used, off).1 / 0x8000_0000_0000_0000 == 1,
        head_mode(slab_words(class, used, off).0, slab_words(class, used, off).1) == Ok::<
            ShHeadValueMode,
            StoreError,
        >(ShHeadValueMode::Slab),
{
}

/// Two words of a head are empty, one or two creates, a slab or a chain of pages, by which of
/// them are 0 and which have the flag; other pairs are refused.
pub proof fn law_head_modes(w0: u64, w1: u64)
    ensures
        ({
            let flag: int = 0x8000_0000_0000_0000;
            match head_mode(w0, w1) {
                Ok(ShHeadValueMode::Empty) => w0 == 0 && w1 == 0,
                Ok(ShHeadValueMode::Inline) => 0 < w0 < flag && w1 < flag,
                Ok(ShHeadValueMode::Slab) => w0 > flag && w1 >= flag,
                Ok(ShHeadValueMode::Paged) => w0 > flag && 0 < w1 < flag,
                Err(_) => (w0 == 0 && w1 != 0) || (w0 == flag) || (w0 > flag && w1 == 0) || (w0
                    < flag && w1 >= flag),
            }
        }),
{
}

/// A head for a slab or a chain is made exactly where its offsets are there and without the
/// flag, its class is one of seven, and it has three creates or more.
pub proof fn law_head_made(class: u8, used: u16, off: u64, last: u64)
    ensures
        slab_head_err(class, used, off) is None <==> 0 < off < 0x8000_0000_0000_0000 && class <= 6
            && used >= 3,
        paged_head_err(off, last) is None <==> 0 < off < 0x8000_0000_0000_0000 && 0 < last
            < 0x8000_0000_0000_0000,
{
}

/// A finished write is done with all nine bytes; short it leaves the edge, a refused flag is
/// dropped once, and any other error ends the batch.
pub proof fn law_write_done(w: MetaWrite, res: i32, retried: bool)
    ensures
        known_done(w, res, retried) == KnownDone::Written <==> res == 9,
        res >= 0 && res != 9 ==> known_done(w, res, retried) == KnownDone::Cold(
            (w.create_fk, w.vout, w.spend_fk),
        ),
        res == -95 && !retried ==> known_done(w, res, retried) == KnownDone::Retry,
        res < 0 && (res != -95 || retried) ==> known_done(w, res, retried) == KnownDone::Fail(res),
{
}

/// A batch seals the open segment first where it is full, or where it holds anything and a new
/// one is asked for; nothing else changes.
pub proof fn law_rolled(sh: Shape, force: bool, max: int)
    ensures
        ({
            let n = sh.descs.len() as int;
            let r = rolled(sh, force, max);
            let seals = n > 0 && sh.descs[n - 1].flags == 0 && sh.descs[n - 1].count > 0 && (force
                || sh.descs[n - 1].count >= max);
            &&& r.next == sh.next
            &&& r.descs.len() == n
            &&& forall|i: int| 0 <= i < n - 1 ==> #[trigger] r.descs[i] == sh.descs[i]
            &&& n > 0 ==> r.descs[n - 1] == (if seals {
                SegDesc { flags: 1, ..sh.descs[n - 1] }
            } else {
                sh.descs[n - 1]
            })
        }),
{
}

/// Before tables are opened: a store of the present schema migrates a body of the old form and
/// else clears up; one of schema 3 migrates; any other is taken as present if its body is.
pub proof fn law_schema_action(ver: u16, body_exists: bool, body_shal: bool)
    ensures
        hybrid_action(ver, body_exists, body_shal) == HybridAction::Migrate <==> ver == 3 || (ver
            == 17 && body_exists && !body_shal),
        hybrid_action(ver, body_exists, body_shal) == HybridAction::Recover <==> ver == 17 && (
        !body_exists || body_shal),
        hybrid_action(ver, body_exists, body_shal) == HybridAction::StampAndClean <==> ver != 3
            && ver != 17 && body_exists && body_shal,
        hybrid_action(ver, body_exists, body_shal) == HybridAction::RecoverAndRecheck <==> ver != 3
            && ver != 17 && !(body_exists && body_shal),
{
}

/// What recovery does: an incomplete build goes; a body of the present form is stamped; the
/// old form comes back from the backup where body or head is missing or the body is of neither
/// form; the backup goes once a whole form is in place.
pub proof fn law_recover_steps(f: MigrateFiles)
    ensures
        ({
            let p = recover_plan(f);
            let done = f.body_exists && f.body_shal;
            let lost = !f.body_exists || !f.head_exists || (!f.body_v3 && !f.body_shal);
            let back = !done && lost && f.backup_exists && f.bak_body_exists;
            &&& p.drop_work == f.work_exists
            &&& p.stamp == done
            &&& p.restore_body == back
            &&& p.restore_head == (back && f.bak_head_exists)
            &&& p.drop_backup <==> f.backup_exists && (done || (back && f.bak_body_v3) || (!done
                && !back && f.body_exists && f.body_v3))
        }),
{
}

/// A migration converts a body of the old form, cleans up behind one of the present form, and
/// only stamps where there is none.
pub proof fn law_migrate_steps(body_exists: bool, body_shal: bool)
    ensures
        action_for(body_exists, body_shal) == MigrateAction::Stamp <==> !body_exists,
        action_for(body_exists, body_shal) == MigrateAction::StampAndClean <==> body_exists
            && body_shal,
        action_for(body_exists, body_shal) == MigrateAction::Convert <==> body_exists && !body_shal,
{
}

/// A name ends in another exactly if it is something with the other behind it.
pub proof fn law_ends_with(front: Seq<u8>, end: Seq<u8>, name: Seq<u8>)
    ensures
        ends_with(front + end, end),
        ends_with(name, end) ==> name == name.subrange(0, name.len() - end.len()) + end,
{
    let n = front + end;
    assert(n.subrange(n.len() - end.len(), n.len() as int) =~= end);
    if ends_with(name, end) {
        let k = name.len() - end.len();
        assert(name =~= name.subrange(0, k) + name.subrange(k, name.len() as int));
    }
}

/// Moving a body by a distance moves every offset in a head value by it; creates in the value
/// stay.
pub proof fn law_shifted(v: ShHeadValue, delta: u64)
    ensures
        match (v, shifted(v, delta)) {
            (
                ShHeadValue::Slab { class: a, used: b, off: c },
                ShHeadValue::Slab { class: d, used: e, off: f },
            ) => a == d && b == e && (c + delta <= u64::MAX ==> f == c + delta),
            (
                ShHeadValue::Paged { first_page: a, last_page: b },
                ShHeadValue::Paged { first_page: c, last_page: d },
            ) => (a + delta <= u64::MAX ==> c == a + delta) && (b + delta <= u64::MAX ==> d == b
                + delta),
            (ShHeadValue::Extent { last_page: a }, ShHeadValue::Extent { last_page: b }) => a
                + delta <= u64::MAX ==> b == a + delta,
            (ShHeadValue::Empty, w) => w == v,
            (ShHeadValue::Inline { .. }, w) => w == v,
            _ => false,
        },
{
}

/// The next height of a table of tweaks is its origin and one for each block that it has.
pub proof fn law_next_height(t: SpTweaksTable)
    requires
        t.origin + t.slots@.len() <= u32::MAX,
    ensures
        t.next() == t.origin + t.slots@.len(),
{
}

/// A run's file is named by its number in at least six digits and `.run`; a segment's by its
/// number in at least six digits.
pub proof fn law_file_names(seq: u64, file_id: u32)
    ensures
        ({
            let n = run_name(seq);
            let d = n.subrange(0, n.len() - 4);
            &&& n.len() >= 10
            &&& n.subrange(n.len() - 4, n.len() as int) == seq![0x2eu8, 0x72u8, 0x75u8, 0x6eu8]
            &&& all_digits(d)
            &&& dec_nat(d) == seq
            &&& d.len() > 6 ==> d[0] != 48
        }),
        ({
            let d = head_name(file_id);
            &&& d.len() >= 6
            &&& all_digits(d)
            &&& dec_nat(d) == file_id
            &&& d.len() > 6 ==> d[0] != 48
        }),
{
    law_dec_padded(seq as nat, 6);
    law_dec_padded(file_id as nat, 6);
    let n = run_name(seq);
    assert(n.subrange(0, n.len() - 4) =~= crate::text::dec_padded(seq as nat, 6));
    assert(n.subrange(n.len() - 4, n.len() as int) =~= seq![0x2eu8, 0x72u8, 0x75u8, 0x6eu8]);
}

/// A create is appended to a page exactly if its bytes fit behind the stream that is there, and
/// then it is the last create of the page.
pub proof fn law_page_room(p: Seq<u8>, fk: Fk, fks: Seq<Fk>, used: nat)
    requires
        p.len() == 4096,
        page_read(p) == Ok::<(Seq<Fk>, nat), StoreError>((fks, used)),
        append_err(p, fk) is None,
    ensures
        ({
            let step = uleb(
                (if fks.len() == 0 {
                    fk.0 as int
                } else {
                    fk.0 - fks[fks.len() - 1].0
                }) as nat,
            );
            append_fits(p, fk) <==> used + step.len() <= (if p[10] == 2 {
                4064int
            } else {
                4080int
            })
        }),
        append_fits(p, fk) ==> page_fks(page_appended(p, fk)) == Ok::<Seq<Fk>, StoreError>(
            fks.push(fk),
        ),
{
    if append_fits(p, fk) {
        law_page_append(p, fk);
    }
}

/// Creates are cut into pages so that each page's stream fits in 4080 bytes and no page but the
/// last could take one create more.
pub proof fn law_page_cuts(fks: Seq<Fk>, cuts: Seq<(usize, usize)>, i: int)
    requires
        fks_ok(fks),
        is_chunking(fks, cuts, fks.len() as int),
        0 <= i < cuts.len(),
        cuts[i].1 <= fks.len(),
    ensures
        fk_stream(fks.subrange(cuts[i].0 as int, cuts[i].1 as int)).len() <= 4080,
        i + 1 < cuts.len() ==> cuts[i + 1].0 == cuts[i].1,
        i + 1 < cuts.len() && cuts[i].1 + 1 <= fks.len() ==> fk_stream(
            fks.subrange(cuts[i].0 as int, cuts[i].1 + 1),
        ).len() > 4080,
        cuts[0].0 == 0,
        cuts[cuts.len() - 1].1 == fks.len(),
{
    assert(cuts[i].0 < cuts[i].1);
    lemma_chunk_is_stream(fks, cuts[i].0 as int, cuts[i].1 as int);
    if i + 1 < cuts.len() {
        let j = i + 1;
        assert(cuts[i].1 == cuts[j].0);
        if cuts[i].1 + 1 <= fks.len() {
            lemma_chunk_is_stream(fks, cuts[i].0 as int, cuts[i].1 + 1);
        }
    }
}

/// Pages for a number of creates at 510 in each, rounded up.
pub proof fn law_pages_for(n: int)
    requires
        0 <= n,
    ensures
        510 * (pages_for(n) - 1) < n <= 510 * pages_for(n),
{
}

/// A key without creates has an empty value, one create stands in the head, and 257 or more
/// lie in pages; a slab that holds others has room for them.
pub proof fn law_value_form(v: ShHeadValue, live: Seq<Fk>, slack: bool)
    requires
        is_packing(v, live, slack, 257),
    ensures
        live.len() == 0 <==> v is Empty,
        live.len() == 1 <==> v is Inline,
        live.len() >= 257 ==> v is Extent,
        v matches ShHeadValue::Slab { class, .. } ==> 2 <= live.len() <= 256 && class <= 6
            && slab_payload(live).len() <= class_bytes(class as nat),
        !(v is Paged),
{
}

/// What a lookup reports: every sealed segment's filter is asked for every key, some spare the
/// look, and an open tail is looked into for every key.
pub proof fn law_lookup_stats(segs: Seq<Segment>, keys: Seq<[u8; 32]>)
    requires
        count_sealed(segs) * keys.len() <= u64::MAX,
        keys.len() <= u64::MAX,
        lookup_skips(segs, 0, keys) <= count_sealed(segs) * keys.len(),
    ensures
        ({
            let s = lookup_stats(segs, keys);
            &&& s.sealed_fuse_checks == count_sealed(segs) * keys.len()
            &&& s.sealed_fuse_skips == lookup_skips(segs, 0, keys)
            &&& s.sealed_head_probes + s.sealed_fuse_skips == s.sealed_fuse_checks
            &&& s.open_probes == (if segs.len() > 0 && !segs[segs.len() - 1].sealed {
                keys.len() as int
            } else {
                0
            })
            &&& s.rolls == 0
            &&& s.seals == 0
        }),
{
}

/// A load that goes on begins behind the header page at least.
pub proof fn law_progress_bump(p: ColdProgress)
    ensures
        progress_bump(p) >= 4096,
        progress_bump(p) >= p.body_bump,
        progress_bump(p) == 4096 || progress_bump(p) == p.body_bump,
{
}

/// A slab for 3 to 256 creates is of the smallest class that takes them; with room to spare it
/// takes one more, unless there are 256.
pub proof fn law_slab_class(n: u32, c: u8)
    requires
        c <= 6,
    ensures
        is_class_for(n, Some(c)) <==> 3 <= n <= 256 && n <= class_cap(c as nat) && (c == 0
            || class_cap((c - 1) as nat) < n),
        is_class_for(n, None) <==> n < 3 || n > 256,
        2 <= n < 256 ==> (is_slack_class_for(n, Some(c)) <==> n + 1 <= class_cap(c as nat) && (c
            == 0 || class_cap((c - 1) as nat) < n + 1)),
        is_slack_class_for(256, Some(c)) <==> c == 6,
{
    lemma_class_cap_values();
    assert(c == 0 || c == 1 || c == 2 || c == 3 || c == 4 || c == 5 || c == 6);
    assert forall|d: nat, e: nat| d < e <= 6 implies #[trigger] class_cap(d) < #[trigger] class_cap(
        e,
    ) by {
        assert(d == 0 || d == 1 || d == 2 || d == 3 || d == 4 || d == 5);
        assert(e == 1 || e == 2 || e == 3 || e == 4 || e == 5 || e == 6);
    }
    if c > 0 {
        assert forall|d: nat| d < c implies #[trigger] class_cap(d) <= class_cap((c - 1) as nat) by {
            if d < c - 1 {
                assert(class_cap(d) < class_cap((c - 1) as nat));
            }
        }
    }
}

/// The sizes of a small store and of a full one.
pub proof fn law_scales()
    ensures
        ingest_slots(HeadScale::Tiny) == 0x100 && ingest_slots(HeadScale::Mainnet) == 0x200_0000,
        shards_for(HeadRole::ScriptHash, HeadScale::Mainnet) == 64,
        shards_for(HeadRole::ScriptHash, HeadScale::Tiny) == 1,
        shards_for(HeadRole::Header, HeadScale::Mainnet) == 1,
        shards_for(HeadRole::Header, HeadScale::Tiny) == 1,
        default_slots(HeadRole::Header, HeadScale::Mainnet) == 0x10_0000,
        default_slots(HeadRole::ScriptHash, HeadScale::Mainnet) == 0x1_0000,
        default_slots(HeadRole::Header, HeadScale::Tiny) == 64,
        default_slots(HeadRole::ScriptHash, HeadScale::Tiny) == 64,
{
}

/// The head directory is ready with a list of segments in it, takes in flat files where their
/// list lies beside it, and is made where there is neither. A file in its place, or a directory
/// that holds other things, is refused.
pub proof fn law_head_layout(f: HeadFiles)
    ensures
        layout_step(f) is Err <==> f.is_file || (f.is_dir && f.non_empty && !f.has_meta
            && !f.has_flat_meta),
        layout_step(f) is Ok ==> match layout_step(f)->Ok_0 {
            LayoutStep::Ready => f.has_meta,
            LayoutStep::MoveFlat => !f.has_meta && f.has_flat_meta,
            LayoutStep::MakeDir => !f.has_meta && !f.has_flat_meta,
        },
{
}

/// A run's checksum is wrong where it has one that is not that of its records.
pub proof fn law_checksum(run: SortedRunPath, body: Seq<u8>)
    ensures
        crc_bad(run, body) <==> run.body_crc32 != 0 && run.body_crc32 != crc_of(body),
{
}

/// A key answers with the first of its numbers.
pub proof fn law_first_of(list: Seq<Fk>)
    ensures
        first_of(list) is None <==> list.len() == 0,
        list.len() > 0 ==> first_of(list) == Some(list[0]),
{
}

/// A segment opens exactly if its file has the layout of the head with entries of four bytes,
/// and a filter where the lowest flag says that it is sealed.
pub proof fn law_segment_open(bits: u32, d: SegDesc, f: SegmentFile)
    ensures
        desc_sealed(d) <==> d.flags % 2 == 1,
        segment_error(bits, d, f) is None <==> f.bits == bits && f.entry_bytes == 4 && (d.flags % 2
            == 1 ==> f.fuse is Some),
{
    let x = d.flags;
    assert((x & 1 != 0) <==> x % 2 == 1) by (bit_vector);
}

/// A file is read as a progress, a count or a catalog exactly if it is long enough and has the
/// magic of one; a catalog is also of version 1.
pub proof fn law_magics(b: Seq<u8>)
    ensures
        progress_value(b) is Some <==> b.len() >= 36 && b.subrange(0, 8) == seq![
            0x53u8,
            0x48u8,
            0x43u8,
            0x4fu8,
            0x4cu8,
            0x44u8,
            0x50u8,
            0x31u8,
        ],
        progress_value(b) is Some ==> progress_value(b)->0 == (ColdProgress {
            next_shard: u32_at(b, 8),
            body_bump: u64_at(b, 12),
            live_count: u64_at(b, 20),
            keys_written: u64_at(b, 28),
        }),
        occ_value(b) is Some <==> b.len() >= 16 && b.subrange(0, 8) == seq![
            0x53u8,
            0x48u8,
            0x4fu8,
            0x43u8,
            0x43u8,
            0x30u8,
            0x30u8,
            0x31u8,
        ],
        occ_value(b) is Some ==> occ_value(b)->0 == u64_at(b, 8),
        manifest_known(b) <==> b.len() >= 16 && b.subrange(0, 8) == seq![
            0x52u8,
            0x42u8,
            0x52u8,
            0x55u8,
            0x4eu8,
            0x4du8,
            0x46u8,
            0x31u8,
        ] && u32_at(b, 8) == 1,
{
    assert(crate::cold_progress::COLD_PROGRESS_MAGIC@ =~= seq![
        0x53u8,
        0x48u8,
        0x43u8,
        0x4fu8,
        0x4cu8,
        0x44u8,
        0x50u8,
        0x31u8,
    ]);
}

/// Bytes are the slots of a head where they are whole slots of 24 bytes, and a power of two of
/// them.
pub proof fn law_slots_open(b: Seq<u8>)
    ensures
        slots_fault(b) is None <==> b.len() > 0 && b.len() % 24 == 0
            && vstd::arithmetic::power2::is_pow2((b.len() / 24) as int),
{
}

/// What is kept in order: the entries of a catalog by their numbers, slots by their keys and
/// records by their hashes as byte strings, and shard names as text, a name before those that
/// it begins.
pub proof fn law_ranks(
    a: ManifestEntry,
    b: ManifestEntry,
    s: Slot,
    t: Slot,
    x: ScriptHashRecord,
    y: ScriptHashRecord,
    m: ShardName,
    n: ShardName,
)
    ensures
        a.rank() < b.rank() <==> a.seq < b.seq,
        s.rank() < t.rank() <==> exists|i: int| falls_at(s.key@, t.key@, i),
        x.rank() < y.rank() <==> exists|i: int| falls_at(x.scripthash@, y.scripthash@, i),
        m.rank() < n.rank() <==> m.first < n.first || (m.first == n.first && match (
            m.second,
            n.second,
        ) {
            (None, None) => false,
            (None, Some(_)) => true,
            (Some(_), None) => false,
            (Some(p), Some(q)) => p < q,
        }),
{
    law_byte_order(s.key@, t.key@);
    law_byte_order(x.scripthash@, y.scripthash@);
}

/// A record of a segment can be told by its relative number in 32 bits: from the segment's
/// first record on, and no further than that allows.
pub proof fn law_near(first: int, fk: int)
    ensures
        near(first, fk) <==> 1 <= fk - first + 1 <= 0xffff_ffff,
        !near(first, fk) ==> far_error(first, fk) == (if fk < first {
            StoreError::Corrupt("tx.head insert fk before segment")
        } else {
            StoreError::Corrupt("tx.head relative fk overflow")
        }),
{
}

/// Counters stop at the ends of their range.
pub proof fn law_saturating(a: u64, b: int)
    requires
        0 <= b,
    ensures
        a + b <= u64::MAX ==> sat_add(a, b) == a + b,
        a + b >= u64::MAX ==> sat_add(a, b) == u64::MAX,
        b <= a ==> sat_sub(a, b) == a - b,
        b >= a ==> sat_sub(a, b) == 0,
        b <= u64::MAX ==> capped(b) == b,
        b >= u64::MAX ==> capped(b) == u64::MAX,
{
}

/// A load that is given no number of keys counts on that of its scale.
pub proof fn law_key_hint(hint: u64)
    ensures
        hint != 0 ==> hint_or_default(hint, HeadScale::Tiny) == hint && hint_or_default(
            hint,
            HeadScale::Mainnet,
        ) == hint,
        hint_or_default(0, HeadScale::Tiny) == 4096,
        hint_or_default(0, HeadScale::Mainnet) == 2_000_000_000,
{
}

/// A segment is listed with its first record, its count, its file and whether it is sealed;
/// file numbers go round.
pub proof fn law_listed_segment(s: Segment, id: u32)
    ensures
        desc_of(s) == (SegDesc {
            first_fk: s.first_fk,
            count: s.count,
            file_id: s.file_id,
            flags: if s.sealed {
                1
            } else {
                0
            },
        }),
        id_after(id) == (id + 1) % 0x1_0000_0000,
{
}

/// A load that was broken off goes on from the totals of its progress; one that begins counts
/// on what the table holds.
pub proof fn law_start_totals(t: &ScriptHashTable, p: ColdProgress)
    ensures
        start_totals(t, Some(p)).live_creates == p.live_count,
        start_totals(t, Some(p)).live_keys == p.keys_written,
        start_totals(t, Some(p)).max_fk == 0,
        t.live() <= u64::MAX ==> start_totals(t, None).live_creates == t.live(),
        start_totals(t, None).live_keys == 0,
        start_totals(t, None).max_fk == 0,
{
}

/// A key is looked for in the open table, then in the sealed overflow from the newest head on,
/// then in the compacted one, and last in the sealed head of its shard.
pub proof fn law_located(t: &ScriptHashTable, k: Seq<u8>)
    ensures
        t.ingest@.dom().contains(k) ==> t.located(k) == Some((t.ingest@[k], KeyHome::Ingest)),
        !t.ingest@.dom().contains(k) ==> (newest_word(t.sealed_ovf@, k) matches Some(w)
            ==> t.located(k) == Some((w, KeyHome::SealedOvf))),
        !t.ingest@.dom().contains(k) && newest_word(t.sealed_ovf@, k) is None ==> (
        t.ovf_l1 matches Some(h) ==> (h.word(k) matches Some(w) ==> t.located(k) == Some(
            (w, KeyHome::SealedOvf),
        ))),
        !t.ingest@.dom().contains(k) && newest_word(t.sealed_ovf@, k) is None && (
        t.ovf_l1 matches Some(h) ==> h.word(k) is None) ==> ({
            let s = prefix_shard(k, t.n_shards as int);
            if 0 <= s < t.main@.len() && t.main@[s] is Some && (t.main@[s]->0).word(k) is Some {
                t.located(k) == Some(((t.main@[s]->0).word(k)->0, KeyHome::Main))
            } else {
                t.located(k) is None
            }
        }),
{
}

/// An extent is read in one piece where its contiguous part has no more than 64 MiB.
pub proof fn law_span_limit(bytes: Seq<u8>, last_page: u64)
    ensures
        ({
            let p = page_at(bytes, last_page as int);
            span_too_long(bytes, ShHeadValue::Extent { last_page }) <==> p[10] == 2 && u32_at(p, 24)
                * 4096 > 64 * 1024 * 1024
        }),
{
}

/// Sealing empties the open table into a head of its own, behind the others; where that makes
/// eight of them and there is no compacted head yet, all become the compacted head. Every key
/// keeps its word.
pub proof fn law_sealing(a: &ScriptHashTable, b: &ScriptHashTable, k: Seq<u8>)
    requires
        ingest_sealed(a, b),
    ensures
        !b.ingest@.dom().contains(k),
        b.ingest.used_slots() == Some(0u64),
        b.main@ == a.main@ && b.bodies@ == a.bodies@ && b.include_hwm == a.include_hwm,
        a.ovf_l1 is None && a.sealed_ovf@.len() + 1 >= 8 ==> b.sealed_ovf@.len() == 0
            && b.ovf_l1 is Some && (b.ovf_l1->0).word(k) == (if a.ingest@.dom().contains(k) {
            Some(a.ingest@[k])
        } else {
            newest_word(a.sealed_ovf@, k)
        }),
        a.ovf_l1 is Some || a.sealed_ovf@.len() + 1 < 8 ==> b.ovf_l1 == a.ovf_l1
            && b.sealed_ovf@.len() == a.sealed_ovf@.len() + 1 && b.sealed_ovf@.subrange(
            0,
            a.sealed_ovf@.len() as int,
        ) == a.sealed_ovf@ && b.sealed_ovf@[a.sealed_ovf@.len() as int].word(k) == (
        if a.ingest@.dom().contains(k) {
            Some(a.ingest@[k])
        } else {
            None
        }),
{
    if a.ovf_l1 is Some || a.sealed_ovf@.len() + 1 < 8 {
        assert(b.sealed_ovf@.subrange(0, a.sealed_ovf@.len() as int) =~= a.sealed_ovf@);
        assert(b.sealed_ovf@.last().word(k) == (if a.ingest@.dom().contains(k) {
            Some(a.ingest@[k])
        } else {
            None
        }));
    } else {
        assert(crate::scripthash::l1_word(b.ovf_l1, k) == (if a.ingest@.dom().contains(k) {
            Some(a.ingest@[k])
        } else {
            newest_word(a.sealed_ovf@, k)
        }));
    }
}

/// The tables are numbered from 0 in the order of their declaration.
pub proof fn law_table_codes()
    ensures
        MlockTable::TxBody.code() == 0 && MlockTable::TxIdx.code() == 1,
        MlockTable::TxHead.code() == 2 && MlockTable::HeaderBody.code() == 3,
        MlockTable::HeaderHead.code() == 4 && MlockTable::HeaderTxsFirst.code() == 5,
        MlockTable::HeaderTxsCount.code() == 6 && MlockTable::Spenders.code() == 7,
        MlockTable::StrongTx.code() == 8 && MlockTable::TxHeight.code() == 9,
        MlockTable::Confirmed.code() == 10,
{
}

} // verus!
