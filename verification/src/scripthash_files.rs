//! Files of the scripthash index: the allocator header at the start of a body, the
//! body layouts, and what may be opened.

use vstd::prelude::*;
use crate::bytes::{bytes_at, get_u16, get_u64, le16, le64, lemma_le_nat_of_seq, lemma_p256_values, push_slice, push_u16, push_u64, push_zeros, u16_at, u64_at};
use crate::error::StoreError;
use crate::scripthash::ShBodyLayout;
use crate::scripthash_layout::{SH_ALLOC_HEADER_LEN, SH_ALLOC_MAGIC, SH_ALLOC_VERSION};
use crate::scripthash_pages::zeros;
use crate::sharded_hashhead::{names_shard, order_shards, shard_name, two_hex, ShardName};

verus! {

/// Length of the key by which runs of the index are sorted: the whole record.
pub const SH_RUN_SORT_KEY_LEN: u32 = 40;

/// State of a body's allocator.
#[derive(Clone, Copy, Debug, PartialEq, Eq)]
pub struct AllocState {
    pub live_count: u64,
    pub bump: u64,
    pub free_head: [u64; 25],
}

/// Bytes of the first `n` free lists.
pub open spec fn heads_bytes(heads: Seq<u64>, n: int) -> Seq<u8>
    decreases n,
{
    if n <= 0 {
        Seq::empty()
    } else {
        heads_bytes(heads, n - 1) + le64(heads[n - 1])
    }
}

/// Allocator header, padded to its page.
pub open spec fn alloc_bytes(s: AllocState) -> Seq<u8> {
    SH_ALLOC_MAGIC@ + le16(SH_ALLOC_VERSION) + le16(0) + le64(s.live_count) + le64(s.bump)
        + heads_bytes(s.free_head@, 25) + zeros(3856)
}

/// The part of the file that the header can be in.
pub open spec fn alloc_part(b: Seq<u8>) -> Seq<u8> {
    if b.len() > 4080 {
        b.subrange(0, 4080)
    } else {
        b
    }
}

/// Free list `i` in a header that may be cut short.
pub open spec fn head_at(h: Seq<u8>, i: int) -> u64 {
    if 24 + 8 * i + 8 <= h.len() {
        u64_at(h, 24 + 8 * i)
    } else {
        0
    }
}

/// What is wrong with a header.
pub open spec fn alloc_error(h: Seq<u8>) -> Option<StoreError> {
    if h.len() < 24 {
        Some(
            StoreError::Corrupt(
                "scripthash body missing alloc header (expected hybrid SHAL; migrate v3 stores)",
            ),
        )
    } else if h.subrange(0, 4) != SH_ALLOC_MAGIC@ {
        Some(StoreError::Corrupt("scripthash body not hybrid (no SHAL magic; run migrate)"))
    } else if u16_at(h, 4) != 1 && u16_at(h, 4) != 2 && u16_at(h, 4) != 3 {
        Some(StoreError::Corrupt("unsupported scripthash alloc version"))
    } else {
        None
    }
}

/// The state is the one in the header.
pub open spec fn alloc_value(h: Seq<u8>, s: AllocState) -> bool {
    &&& s.live_count == u64_at(h, 8)
    &&& s.bump == u64_at(h, 16)
    &&& forall|i: int| 0 <= i < 25 ==> (#[trigger] s.free_head@[i]) == head_at(h, i)
}

/// Writes the allocator header.
pub fn write_alloc_header(state: &AllocState) -> (r: Vec<u8>)
    ensures
        r@ == alloc_bytes(*state),
{
    let mut buf: Vec<u8> = Vec::new();
    push_slice(&mut buf, SH_ALLOC_MAGIC.as_slice());
    push_u16(&mut buf, SH_ALLOC_VERSION);
    push_u16(&mut buf, 0);
    push_u64(&mut buf, state.live_count);
    push_u64(&mut buf, state.bump);
    let ghost head = buf@;
    let mut i: usize = 0;
    proof {
        assert(buf@ =~= head + heads_bytes(state.free_head@, 0));
    }
    while i < 25
        invariant
            i <= 25,
            buf@ == head + heads_bytes(state.free_head@, i as int),
        decreases 25 - i,
    {
        push_u64(&mut buf, state.free_head[i]);
        proof {
            assert(buf@ =~= head + heads_bytes(state.free_head@, i + 1));
        }
        i += 1;
    }
    push_zeros(&mut buf, 3856);
    proof {
        assert(buf@ =~= alloc_bytes(*state));
    }
    buf
}

/// Reads the allocator header behind the file header, and its version.
///
/// All three versions have the same fields.
pub fn read_alloc_header(body: &[u8]) -> (r: Result<(AllocState, u16), StoreError>)
    ensures
        match r {
            Ok(v) => {
                &&& alloc_error(alloc_part(body@)) is None
                &&& alloc_value(alloc_part(body@), v.0)
                &&& v.1 == u16_at(alloc_part(body@), 4)
            },
            Err(e) => alloc_error(alloc_part(body@)) == Some(e),
        },
{
    let avail: usize = if body.len() > SH_ALLOC_HEADER_LEN {
        SH_ALLOC_HEADER_LEN
    } else {
        body.len()
    };
    let ghost h = alloc_part(body@);
    proof {
        assert(h =~= body@.subrange(0, avail as int));
        assert forall|lo: int, hi: int| 0 <= lo <= hi <= avail implies #[trigger] h.subrange(lo, hi)
            == body@.subrange(lo, hi) by {
            assert(h.subrange(lo, hi) =~= body@.subrange(lo, hi));
        }
    }
    if avail < 24 {
        return Err(
            StoreError::Corrupt(
                "scripthash body missing alloc header (expected hybrid SHAL; migrate v3 stores)",
            ),
        );
    }
    proof {
        assert(h.subrange(0, 4) == body@.subrange(0, 4));
        assert(h.subrange(4, 6) == body@.subrange(4, 6));
        assert(h.subrange(8, 16) == body@.subrange(8, 16));
        assert(h.subrange(16, 24) == body@.subrange(16, 24));
    }
    if !bytes_at(body, 0, SH_ALLOC_MAGIC.as_slice()) {
        return Err(
            StoreError::Corrupt("scripthash body not hybrid (no SHAL magic; run migrate)"),
        );
    }
    let ver: u16 = get_u16(body, 4);
    if ver != 1 && ver != 2 && ver != SH_ALLOC_VERSION {
        return Err(StoreError::Corrupt("unsupported scripthash alloc version"));
    }
    let mut free_head: [u64; 25] = [0;25];
    let mut i: usize = 0;
    while i < 25
        invariant
            i <= 25,
            avail <= body@.len(),
            h.len() == avail,
            forall|lo: int, hi: int|
                0 <= lo <= hi <= avail ==> #[trigger] h.subrange(lo, hi) == body@.subrange(lo, hi),
            forall|j: int| 0 <= j < i ==> (#[trigger] free_head@[j]) == head_at(h, j),
            forall|j: int| i <= j < 25 ==> (#[trigger] free_head@[j]) == 0,
        decreases 25 - i,
    {
        let off: usize = 24 + 8 * i;
        if off + 8 <= avail {
            proof {
                assert(h.subrange(off as int, off + 8) == body@.subrange(off as int, off + 8));
            }
            free_head[i] = get_u64(body, off);
        }
        i += 1;
    }
    Ok(
        (
            AllocState { live_count: get_u64(body, 8), bump: get_u64(body, 16), free_head },
            ver,
        ),
    )
}

proof fn lemma_heads_bytes(front: Seq<u8>, heads: Seq<u64>, n: int, tail: Seq<u8>)
    requires
        front.len() == 24,
        0 <= n <= heads.len(),
    ensures
        heads_bytes(heads, n).len() == 8 * n,
        forall|i: int|
            0 <= i < n ==> #[trigger] head_at(front + heads_bytes(heads, n) + tail, i) == heads[i],
    decreases n,
{
    if n > 0 {
        let x = le64(heads[n - 1]);
        lemma_p256_values();
        lemma_le_nat_of_seq(heads[n - 1] as nat, 8);
        lemma_heads_bytes(front, heads, n - 1, x + tail);
        let b = front + heads_bytes(heads, n) + tail;
        assert(b =~= front + heads_bytes(heads, n - 1) + (x + tail));
        let o = 24 + 8 * (n - 1);
        assert(b.subrange(o, o + 8) =~= x);
    }
}

/// A header reads back as it was written.
pub proof fn law_alloc_roundtrip(s: AllocState, rest: Seq<u8>)
    ensures
        alloc_bytes(s).len() == 4080,
        alloc_error(alloc_part(alloc_bytes(s) + rest)) is None,
        alloc_value(alloc_part(alloc_bytes(s) + rest), s),
        u16_at(alloc_part(alloc_bytes(s) + rest), 4) == SH_ALLOC_VERSION,
{
    lemma_p256_values();
    lemma_le_nat_of_seq(SH_ALLOC_VERSION as nat, 2);
    lemma_le_nat_of_seq(0, 2);
    lemma_le_nat_of_seq(s.live_count as nat, 8);
    lemma_le_nat_of_seq(s.bump as nat, 8);
    let front = SH_ALLOC_MAGIC@ + le16(SH_ALLOC_VERSION) + le16(0) + le64(s.live_count) + le64(
        s.bump,
    );
    lemma_heads_bytes(front, s.free_head@, 25, zeros(3856));
    let b = alloc_bytes(s);
    assert(b.len() == 4080);
    assert(alloc_part(b + rest) =~= b);
    assert(b.subrange(0, 4) =~= SH_ALLOC_MAGIC@);
    assert(b.subrange(4, 6) =~= le16(SH_ALLOC_VERSION));
    assert(b.subrange(8, 16) =~= le64(s.live_count));
    assert(b.subrange(16, 24) =~= le64(s.bump));
    assert(b =~= front + heads_bytes(s.free_head@, 25) + zeros(3856));
}

/// What is there under the names of the body files.
#[derive(Clone, Copy, Debug, PartialEq, Eq, Structural)]
pub struct BodyFiles {
    /// `scripthash.body` is a file.
    pub body_file: bool,
    /// `scripthash.body` is a directory.
    pub body_dir: bool,
    /// There is an overflow body.
    pub ovf_exists: bool,
    /// The overflow body is a file.
    pub ovf_file: bool,
}

/// The message for files that do not go together.
pub open spec fn body_layout_error() -> StoreError {
    StoreError::Layout(
        "scripthash body layout mixed or incomplete; wipe store/scripthash* (head, body, ovf, runs, include_hwm, cold_progress) and rematerialize",
    )
}

fn body_layout_wipe() -> (r: StoreError)
    ensures
        r == body_layout_error(),
{
    StoreError::Layout(
        "scripthash body layout mixed or incomplete; wipe store/scripthash* (head, body, ovf, runs, include_hwm, cold_progress) and rematerialize",
    )
}

/// Layout of the body: one file without an overflow body, or a directory with one.
pub fn detect_sh_body_layout(f: BodyFiles) -> (r: Result<ShBodyLayout, StoreError>)
    ensures
        r == (if f.body_file && !f.body_dir && !f.ovf_exists {
            Ok(ShBodyLayout::Shared)
        } else if !f.body_file && f.body_dir && f.ovf_file {
            Ok(ShBodyLayout::Sharded)
        } else {
            Err(body_layout_error())
        }),
{
    if f.body_file && !f.body_dir && !f.ovf_exists {
        return Ok(ShBodyLayout::Shared);
    }
    if !f.body_file && f.body_dir && f.ovf_file {
        return Ok(ShBodyLayout::Sharded);
    }
    Err(body_layout_wipe())
}

/// The shard names among the first `n` file names: those of two hexadecimal digits.
pub open spec fn shard_names(files: Seq<Vec<u8>>, n: int) -> Seq<ShardName>
    decreases n,
{
    if n <= 0 {
        Seq::empty()
    } else if two_hex(files[n - 1]@) {
        shard_names(files, n - 1).push(
            ShardName { first: files[n - 1]@[0], second: Some(files[n - 1]@[1]) },
        )
    } else {
        shard_names(files, n - 1)
    }
}

/// The names in order are not `00`, `01`, and so on.
pub open spec fn names_broken(names: Seq<ShardName>) -> bool {
    exists|v: Seq<ShardName>, i: int|
        v.to_multiset() == names.to_multiset() && crate::sorting::sorted_by_rank(v) && 0 <= i
            < v.len() && !names_shard(#[trigger] v[i], i)
}

/// Number of shard bodies among the files of the body's directory: their names must be
/// `00`, `01`, and so on.
pub fn sharded_body_n_shards(files: &Vec<Vec<u8>>) -> (r: Result<usize, StoreError>)
    ensures
        ({
            let names = shard_names(files@, files@.len() as int);
            match r {
                Ok(n) => n == names.len() && n > 0 && exists|v: Seq<ShardName>|
                    #[trigger] v.to_multiset() == names.to_multiset() && v.len() == n && forall|
                        i: int,
                    |
                        0 <= i < n ==> names_shard(#[trigger] v[i], i),
                Err(e) => e == body_layout_error() && (names.len() == 0 || names_broken(names)),
            }
        }),
{
    let mut names: Vec<ShardName> = Vec::new();
    let mut i: usize = 0;
    proof {
        assert(names@ =~= shard_names(files@, 0));
    }
    while i < files.len()
        invariant
            i <= files@.len(),
            names@ == shard_names(files@, i as int),
        decreases files@.len() - i,
    {
        if files[i].len() == 2 {
            match shard_name(files[i].as_slice()) {
                Some(name) => {
                    proof {
                        let f = files@[i as int]@;
                        match name.second {
                            None => {
                                assert(f == seq![name.first]);
                            },
                            Some(b) => {
                                assert(f == seq![name.first, b]);
                                assert(f[0] == name.first && f[1] == b);
                            },
                        }
                    }
                    names.push(name);
                },
                None => {},
            }
        }
        i += 1;
    }
    match order_shards(&names) {
        Ok(v) => {
            proof {
                v@.to_multiset_ensures();
                names@.to_multiset_ensures();
            }
            Ok(v.len())
        },
        Err(_) => Err(body_layout_wipe()),
    }
}

/// The message for an index of an older kind.
pub open spec fn leftover_error() -> StoreError {
    StoreError::Layout(
        "scripthash leftover live OA index; wipe store/scripthash* (head, body, ovf, runs, include_hwm, cold_progress, main_sealed, oa_stub) and rematerialize (--shindex rebuilds on start)",
    )
}

/// Refuses an index of an older kind: an overflow segment that is not a sorted one,
/// or a head without a sealed shard.
pub fn refuse_leftover(oa_overflow: bool, head_exists: bool, main_present: bool) -> (r: Result<
    (),
    StoreError,
>)
    ensures
        match r {
            Ok(_) => !oa_overflow && (head_exists ==> main_present),
            Err(e) => (oa_overflow || (head_exists && !main_present)) && e == leftover_error(),
        },
{
    if oa_overflow || (head_exists && !main_present) {
        return Err(
            StoreError::Layout(
                "scripthash leftover live OA index; wipe store/scripthash* (head, body, ovf, runs, include_hwm, cold_progress, main_sealed, oa_stub) and rematerialize (--shindex rebuilds on start)",
            ),
        );
    }
    Ok(())
}

/// Refuses runs that are sorted by another key length. `key_lens` are those of the
/// catalog and of the claims.
pub fn sh_run_catalog_key_len_ok(key_lens: &[u32]) -> (r: Result<(), StoreError>)
    ensures
        match r {
            Ok(_) => forall|i: int| 0 <= i < key_lens@.len() ==> (#[trigger] key_lens@[i]) == 40,
            Err(e) => {
                &&& exists|i: int| 0 <= i < key_lens@.len() && (#[trigger] key_lens@[i]) != 40
                &&& e == StoreError::Corrupt(
                    "schema 17 refuses key_len=32 scripthash.runs; wipe store/scripthash.runs and rematerialize",
                )
            },
        },
{
    let mut i: usize = 0;
    while i < key_lens.len()
        invariant
            i <= key_lens@.len(),
            forall|j: int| 0 <= j < i ==> (#[trigger] key_lens@[j]) == 40,
        decreases key_lens@.len() - i,
    {
        if key_lens[i] != SH_RUN_SORT_KEY_LEN {
            assert(key_lens@[i as int] != 40);
            return Err(
                StoreError::Corrupt(
                    "schema 17 refuses key_len=32 scripthash.runs; wipe store/scripthash.runs and rematerialize",
                ),
            );
        }
        i += 1;
    }
    Ok(())
}

/// What the directories of runs hold.
#[derive(Clone, Copy, Debug, PartialEq, Eq, Structural)]
pub struct RunFiles {
    pub runs: usize,
    pub claims: usize,
    pub merge_outputs: usize,
    pub checkpoint: bool,
    /// A run file, whole or not, lies in the directory of runs.
    pub loose_runs: bool,
    /// A run file, whole or not, lies in the directory of merges.
    pub loose_merge: bool,
}

/// True if the runs can rebuild the head.
pub fn has_sh_run_rebuild_source(f: RunFiles) -> (r: bool)
    ensures
        r == (f.runs > 0 || f.claims > 0 || f.merge_outputs > 0 || f.checkpoint || f.loose_runs
            || f.loose_merge),
{
    f.runs > 0 || f.claims > 0 || f.merge_outputs > 0 || f.checkpoint || f.loose_runs
        || f.loose_merge
}

/// The name ends in `.run`, `.run.mat` or `.run.tmp`.
pub open spec fn run_like(name: Seq<u8>) -> bool {
    let n = name.len() as int;
    ||| n >= 4 && name.subrange(n - 4, n) == seq![0x2eu8, 0x72u8, 0x75u8, 0x6eu8]
    ||| n >= 8 && name.subrange(n - 8, n) == seq![
        0x2eu8,
        0x72u8,
        0x75u8,
        0x6eu8,
        0x2eu8,
        0x6du8,
        0x61u8,
        0x74u8,
    ]
    ||| n >= 8 && name.subrange(n - 8, n) == seq![
        0x2eu8,
        0x72u8,
        0x75u8,
        0x6eu8,
        0x2eu8,
        0x74u8,
        0x6du8,
        0x70u8,
    ]
}

/// The file is a run, whole or not.
pub fn is_run_file(name: &[u8]) -> (r: bool)
    ensures
        r == run_like(name@),
{
    let run: [u8; 4] = [0x2e, 0x72, 0x75, 0x6e];
    let mat: [u8; 8] = [0x2e, 0x72, 0x75, 0x6e, 0x2e, 0x6d, 0x61, 0x74];
    let tmp: [u8; 8] = [0x2e, 0x72, 0x75, 0x6e, 0x2e, 0x74, 0x6d, 0x70];
    proof {
        assert(run@ =~= seq![0x2eu8, 0x72u8, 0x75u8, 0x6eu8]);
        assert(mat@ =~= seq![
            0x2eu8,
            0x72u8,
            0x75u8,
            0x6eu8,
            0x2eu8,
            0x6du8,
            0x61u8,
            0x74u8,
        ]);
        assert(tmp@ =~= seq![
            0x2eu8,
            0x72u8,
            0x75u8,
            0x6eu8,
            0x2eu8,
            0x74u8,
            0x6du8,
            0x70u8,
        ]);
    }
    let n: usize = name.len();
    if n >= 4 && bytes_at(name, n - 4, run.as_slice()) {
        return true;
    }
    n >= 8 && (bytes_at(name, n - 8, mat.as_slice()) || bytes_at(name, n - 8, tmp.as_slice()))
}

} // verus!
