//! Sorted runs: immutable files of fixed-width records in key order.
//!
//! A run file is a 32-byte header and the records. The header holds the key and
//! record lengths, the record count and a CRC-32 of the records. A catalog of a
//! directory lists the runs that count. Runs are merged with a loser tree.

use vstd::prelude::*;
use crate::bytes::{bytes_at, copy_range, get_u32, get_u64, le32, le64, le_nat, lemma_le_nat_bound, lemma_le_nat_of_seq, lemma_le_seq_len, lemma_p256_values, push_slice, push_u32, push_u64, u32_at, u64_at};
use crate::crc::crc_of;
use crate::error::StoreError;
use crate::scripthash_head::{prefix_shard, prefix_shard_of, shard_count_ok};
use crate::sorting::{be_nat, bytes_order, lemma_be_injective, nat_order, Cmp3};

pub use crate::crc::crc32;

verus! {

/// Length of the file header.
pub const HEADER_LEN: usize = 32;

/// Header version with a checksum.
pub const VERSION: u32 = 2;

/// Header version without a checksum.
pub const VERSION_V1: u32 = 1;

/// How a run is written.
#[derive(Clone, Copy, Debug, PartialEq, Eq, Structural)]
pub struct RunWritePolicy {
    /// Sync the file and its directory.
    pub durable: bool,
    /// Drop the file from the page cache afterwards.
    pub drop_cache: bool,
}

impl RunWritePolicy {
    /// Policy of runs that the catalog lists.
    pub fn catalog() -> (r: Self)
        ensures
            r == (RunWritePolicy { durable: true, drop_cache: true }),
    {
        RunWritePolicy { durable: true, drop_cache: true }
    }
}

/// What the header of a run says.
#[derive(Clone, Copy, Debug, PartialEq, Eq, Structural)]
pub struct SortedRunPath {
    /// Number in the file name, if it has one.
    pub seq: Option<u64>,
    pub count: u64,
    pub rec_len: u32,
    pub key_len: u32,
    /// CRC-32 of the records (0 if unknown).
    pub body_crc32: u32,
}

impl SortedRunPath {
    /// Number in the file name, if it has one.
    pub fn seq(&self) -> (r: Option<u64>)
        ensures
            r == self.seq,
    {
        self.seq
    }
}

/// Magic of a header with a checksum.
pub open spec fn magic() -> Seq<u8> {
    seq![0x52u8, 0x42u8, 0x53u8, 0x4fu8, 0x52u8, 0x54u8, 0x30u8, 0x32u8]
}

/// Magic of a header without a checksum.
pub open spec fn magic_v1() -> Seq<u8> {
    seq![0x52u8, 0x42u8, 0x53u8, 0x4fu8, 0x52u8, 0x54u8, 0x30u8, 0x31u8]
}

fn magic_bytes(last: u8) -> (r: Vec<u8>)
    ensures
        r@ == seq![0x52u8, 0x42u8, 0x53u8, 0x4fu8, 0x52u8, 0x54u8, 0x30u8, last],
{
    let v: Vec<u8> = vec![0x52, 0x42, 0x53, 0x4f, 0x52, 0x54, 0x30, last];
    proof {
        assert(v@ =~= seq![0x52u8, 0x42u8, 0x53u8, 0x4fu8, 0x52u8, 0x54u8, 0x30u8, last]);
    }
    v
}

/// Record `i` of a body of records of length `rl`.
pub open spec fn rec_at(body: Seq<u8>, rl: int, i: int) -> Seq<u8> {
    body.subrange(i * rl, i * rl + rl)
}

/// The records of a body.
pub open spec fn recs_of(body: Seq<u8>, rl: int) -> Seq<Seq<u8>> {
    Seq::new((body.len() as int / rl) as nat, |i: int| rec_at(body, rl, i))
}

/// Number that a record is ordered by: its key bytes, or, for full records of
/// 40 bytes, its first 32 bytes and then the number in the last eight.
pub open spec fn rec_rank(rec: Seq<u8>, key_len: int, rec_len: int) -> nat {
    if key_len == 40 && rec_len == 40 {
        be_nat(rec.subrange(0, 32)) * 0x1_0000_0000_0000_0000 + le_nat(rec.subrange(32, 40))
    } else {
        be_nat(rec.subrange(0, key_len))
    }
}

pub proof fn lemma_rec_bounds(len: int, rl: int, i: int, n: int)
    requires
        rl >= 1,
        n * rl <= len,
        0 <= i < n,
    ensures
        0 <= i * rl,
        i * rl + rl <= len,
        (i + 1) * rl == i * rl + rl,
{
    assert(0 <= i * rl && i * rl + rl <= n * rl && (i + 1) * rl == i * rl + rl) by (nonlinear_arith)
        requires
            rl >= 1,
            0 <= i < n,
    ;
}

/// A body of whole records has that many of them.
pub proof fn lemma_rec_count(len: int, rl: int, n: int)
    requires
        rl >= 1,
        len == n * rl,
    ensures
        len / rl == n,
        len % rl == 0,
{
    vstd::arithmetic::div_mod::lemma_fundamental_div_mod_converse(len, rl, n, 0);
}

/// Compares two records that lie at `ao` in `a` and at `bo` in `b`.
pub fn rec_key_order(
    a: &[u8],
    ao: usize,
    b: &[u8],
    bo: usize,
    key_len: usize,
    rec_len: usize,
) -> (r: Cmp3)
    requires
        key_len <= rec_len,
        ao + rec_len <= a@.len(),
        bo + rec_len <= b@.len(),
    ensures
        r == nat_order(
            rec_rank(a@.subrange(ao as int, ao + rec_len), key_len as int, rec_len as int),
            rec_rank(b@.subrange(bo as int, bo + rec_len), key_len as int, rec_len as int),
        ),
{
    let alen: usize = a.len();
    let blen: usize = b.len();
    let ghost x = a@.subrange(ao as int, ao + rec_len);
    let ghost y = b@.subrange(bo as int, bo + rec_len);
    if key_len == 40 && rec_len == 40 {
        proof {
            assert(x.subrange(0, 32) =~= a@.subrange(ao as int, ao + 32));
            assert(y.subrange(0, 32) =~= b@.subrange(bo as int, bo + 32));
            assert(x.subrange(32, 40) =~= a@.subrange(ao + 32, ao + 40));
            assert(y.subrange(32, 40) =~= b@.subrange(bo + 32, bo + 40));
            lemma_le_nat_bound(x.subrange(32, 40));
            lemma_le_nat_bound(y.subrange(32, 40));
            lemma_p256_values();
            lemma_two_part(
                be_nat(x.subrange(0, 32)),
                le_nat(x.subrange(32, 40)),
                be_nat(y.subrange(0, 32)),
                le_nat(y.subrange(32, 40)),
            );
        }
        match bytes_order(a, ao, b, bo, 32) {
            Cmp3::Less => Cmp3::Less,
            Cmp3::More => Cmp3::More,
            Cmp3::Same => {
                let fa: u64 = get_u64(a, ao + 32);
                let fb: u64 = get_u64(b, bo + 32);
                if fa < fb {
                    Cmp3::Less
                } else if fa == fb {
                    Cmp3::Same
                } else {
                    Cmp3::More
                }
            },
        }
    } else {
        proof {
            assert(x.subrange(0, key_len as int) =~= a@.subrange(ao as int, ao + key_len));
            assert(y.subrange(0, key_len as int) =~= b@.subrange(bo as int, bo + key_len));
        }
        bytes_order(a, ao, b, bo, key_len)
    }
}

/// Order by a high and a low part.
pub(crate) proof fn lemma_two_part(h1: nat, l1: nat, h2: nat, l2: nat)
    requires
        l1 < 0x1_0000_0000_0000_0000,
        l2 < 0x1_0000_0000_0000_0000,
    ensures
        ({
            let a = h1 * 0x1_0000_0000_0000_0000 + l1;
            let b = h2 * 0x1_0000_0000_0000_0000 + l2;
            &&& a < b <==> h1 < h2 || (h1 == h2 && l1 < l2)
            &&& a == b <==> h1 == h2 && l1 == l2
        }),
{
    if h1 < h2 {
        assert((h1 + 1) * 0x1_0000_0000_0000_0000 <= h2 * 0x1_0000_0000_0000_0000)
            by (nonlinear_arith)
            requires
                h1 + 1 <= h2,
        ;
    } else if h2 < h1 {
        assert((h2 + 1) * 0x1_0000_0000_0000_0000 <= h1 * 0x1_0000_0000_0000_0000)
            by (nonlinear_arith)
            requires
                h2 + 1 <= h1,
        ;
    }
}

/// Full records with one rank are equal.
pub proof fn lemma_full_rank_injective(a: Seq<u8>, b: Seq<u8>, n: int)
    requires
        a.len() == n,
        b.len() == n,
        n >= 1,
        rec_rank(a, n, n) == rec_rank(b, n, n),
    ensures
        a == b,
{
    if n == 40 {
        lemma_le_nat_bound(a.subrange(32, 40));
        lemma_le_nat_bound(b.subrange(32, 40));
        lemma_p256_values();
        lemma_two_part(
            be_nat(a.subrange(0, 32)),
            le_nat(a.subrange(32, 40)),
            be_nat(b.subrange(0, 32)),
            le_nat(b.subrange(32, 40)),
        );
        lemma_be_injective(a.subrange(0, 32), b.subrange(0, 32));
        crate::bytes::lemma_le_seq_of_nat(a.subrange(32, 40));
        crate::bytes::lemma_le_seq_of_nat(b.subrange(32, 40));
        assert(a =~= a.subrange(0, 32) + a.subrange(32, 40));
        assert(b =~= b.subrange(0, 32) + b.subrange(32, 40));
    } else {
        assert(a.subrange(0, n) =~= a);
        assert(b.subrange(0, n) =~= b);
        lemma_be_injective(a, b);
    }
}

/// Ranks of the records never fall.
pub open spec fn run_sorted(body: Seq<u8>, key_len: int, rl: int) -> bool {
    forall|i: int, j: int|
        0 <= i < j < recs_of(body, rl).len() ==> rec_rank(
            #[trigger] recs_of(body, rl)[i],
            key_len,
            rl,
        ) <= rec_rank(#[trigger] recs_of(body, rl)[j], key_len, rl)
}

/// Ranks of the records rise strictly.
pub open spec fn run_strict(body: Seq<u8>, key_len: int, rl: int) -> bool {
    forall|i: int, j: int|
        0 <= i < j < recs_of(body, rl).len() ==> rec_rank(
            #[trigger] recs_of(body, rl)[i],
            key_len,
            rl,
        ) < rec_rank(#[trigger] recs_of(body, rl)[j], key_len, rl)
}

/// Bytes of a run file with a checksum.
pub open spec fn run_file(key_len: u32, rec_len: u32, body: Seq<u8>) -> Seq<u8> {
    run_header(key_len, rec_len, (body.len() as int / rec_len as int) as u64, crc_of(body)) + body
}

/// Bytes of a header.
pub open spec fn run_header(key_len: u32, rec_len: u32, count: u64, crc: u32) -> Seq<u8> {
    magic() + le32(2) + le32(key_len) + le32(rec_len) + le64(count) + le32(crc)
}

/// Why records cannot be written as a run.
pub open spec fn write_err(key_len: u32, rec_len: u32, records: Seq<u8>) -> Option<StoreError> {
    if key_len == 0 || rec_len < key_len {
        Some(StoreError::Corrupt("sorted run: bad key/rec len"))
    } else if records.len() as int % rec_len as int != 0 {
        Some(StoreError::Corrupt("sorted run: body not multiple of rec_len"))
    } else if key_len == rec_len && !run_strict(records, key_len as int, rec_len as int) {
        Some(StoreError::Corrupt("sorted run: records not strictly increasing"))
    } else {
        None
    }
}

fn header_bytes(key_len: u32, rec_len: u32, count: u64, crc: u32) -> (r: Vec<u8>)
    ensures
        r@ == run_header(key_len, rec_len, count, crc),
        r@.len() == 32,
{
    let mut v = magic_bytes(0x32);
    push_u32(&mut v, VERSION);
    push_u32(&mut v, key_len);
    push_u32(&mut v, rec_len);
    push_u64(&mut v, count);
    push_u32(&mut v, crc);
    proof {
        lemma_le_seq_len(2, 4);
        lemma_le_seq_len(key_len as nat, 4);
        lemma_le_seq_len(rec_len as nat, 4);
        lemma_le_seq_len(count as nat, 8);
        lemma_le_seq_len(crc as nat, 4);
    }
    v
}

/// Adjacent records rise, so all do.
proof fn lemma_strict_from_adjacent(body: Seq<u8>, kl: int, rl: int, i: int, j: int)
    requires
        forall|a: int, b: int|
            0 <= a && b == a + 1 && b < recs_of(body, rl).len() ==> rec_rank(
                #[trigger] recs_of(body, rl)[a],
                kl,
                rl,
            ) < rec_rank(#[trigger] recs_of(body, rl)[b], kl, rl),
        0 <= i < j < recs_of(body, rl).len(),
    ensures
        rec_rank(recs_of(body, rl)[i], kl, rl) < rec_rank(recs_of(body, rl)[j], kl, rl),
    decreases j - i,
{
    let r = recs_of(body, rl);
    assert(rec_rank(r[j - 1], kl, rl) < rec_rank(r[j], kl, rl));
    if i < j - 1 {
        lemma_strict_from_adjacent(body, kl, rl, i, j - 1);
    }
}

/// Whether full records rise strictly.
fn is_strict(records: &[u8], key_len: usize, rec_len: usize) -> (r: bool)
    requires
        1 <= key_len <= rec_len,
        records@.len() as int % rec_len as int == 0,
    ensures
        r == run_strict(records@, key_len as int, rec_len as int),
{
    let len: usize = records.len();
    let n: usize = len / rec_len;
    let ghost rl = rec_len as int;
    let ghost recs = recs_of(records@, rl);
    proof {
        vstd::arithmetic::div_mod::lemma_fundamental_div_mod(len as int, rl);
        assert(n * rl == len) by (nonlinear_arith)
            requires
                len as int == rl * n as int + 0,
        ;
    }
    let mut i: usize = 1;
    let mut off: usize = rec_len;
    while i < n
        invariant
            1 <= i,
            n * rl == len,
            len == records@.len(),
            rl == rec_len,
            1 <= key_len <= rec_len,
            recs == recs_of(records@, rl),
            recs.len() == n,
            i <= n ==> off == i * rl,
            n == 0 ==> off == rec_len,
            forall|a: int, b: int|
                0 <= a && b == a + 1 && b < i && b < recs.len() ==> rec_rank(
                    #[trigger] recs[a],
                    key_len as int,
                    rl,
                ) < rec_rank(#[trigger] recs[b], key_len as int, rl),
        decreases n - i,
    {
        proof {
            lemma_rec_bounds(len as int, rl, i as int, n as int);
            lemma_rec_bounds(len as int, rl, i - 1, n as int);
            assert(recs[i as int] == rec_at(records@, rl, i as int));
            assert(recs[i - 1] == rec_at(records@, rl, i - 1));
        }
        match rec_key_order(records, off, records, off - rec_len, key_len, rec_len) {
            Cmp3::More => {},
            _ => {
                assert(!(rec_rank(recs[i - 1], key_len as int, rl) < rec_rank(
                    recs[i as int],
                    key_len as int,
                    rl,
                )));
                return false;
            },
        }
        i += 1;
        if i < n {
            proof {
                lemma_rec_bounds(len as int, rl, i as int, n as int);
            }
        }
        off = if i < n {
            off + rec_len
        } else {
            len
        };
        proof {
            if i == n {
                assert(off == n * rl);
            }
        }
    }
    proof {
        assert forall|a: int, b: int| 0 <= a < b < recs.len() implies rec_rank(
            #[trigger] recs[a],
            key_len as int,
            rl,
        ) < rec_rank(#[trigger] recs[b], key_len as int, rl) by {
            lemma_strict_from_adjacent(records@, key_len as int, rl, a, b);
        }
    }
    true
}

/// Bytes and header of a new run with already sorted records; the catalog is left.
pub fn write_sorted_run_file(seq: Option<u64>, key_len: u32, rec_len: u32, records: &[u8]) -> (r: Result<
    (SortedRunPath, Vec<u8>),
    StoreError,
>)
    ensures
        match r {
            Ok((run, file)) => {
                &&& write_err(key_len, rec_len, records@) is None
                &&& file@ == run_file(key_len, rec_len, records@)
                &&& run == (SortedRunPath {
                    seq,
                    count: (records@.len() as int / rec_len as int) as u64,
                    rec_len,
                    key_len,
                    body_crc32: crc_of(records@),
                })
            },
            Err(e) => write_err(key_len, rec_len, records@) == Some(e),
        },
{
    if key_len == 0 || rec_len < key_len {
        return Err(StoreError::Corrupt("sorted run: bad key/rec len"));
    }
    let rl: usize = rec_len as usize;
    if records.len() % rl != 0 {
        return Err(StoreError::Corrupt("sorted run: body not multiple of rec_len"));
    }
    if key_len == rec_len && !is_strict(records, key_len as usize, rl) {
        return Err(StoreError::Corrupt("sorted run: records not strictly increasing"));
    }
    Ok(run_bytes(seq, key_len, rec_len, records))
}

/// Header and file of a run with the given records, whatever their order.
pub fn run_bytes(seq: Option<u64>, key_len: u32, rec_len: u32, records: &[u8]) -> (r: (
    SortedRunPath,
    Vec<u8>,
))
    requires
        rec_len >= 1,
        records@.len() as int % rec_len as int == 0,
    ensures
        r.1@ == run_file(key_len, rec_len, records@),
        r.0 == (SortedRunPath {
            seq,
            count: (records@.len() as int / rec_len as int) as u64,
            rec_len,
            key_len,
            body_crc32: crc_of(records@),
        }),
{
    let count: u64 = (records.len() / rec_len as usize) as u64;
    let crc: u32 = crc32(records);
    let mut file = header_bytes(key_len, rec_len, count, crc);
    push_slice(&mut file, records);
    (SortedRunPath { seq, count, rec_len, key_len, body_crc32: crc }, file)
}

/// What a run file says, if it can be opened.
pub open spec fn run_open(seq: Option<u64>, f: Seq<u8>) -> Result<SortedRunPath, StoreError> {
    if f.len() < 32 {
        Err(StoreError::Io("sorted run: short header"))
    } else {
        let m = f.subrange(0, 8);
        let ver = u32_at(f, 8);
        let key_len = u32_at(f, 12);
        let rec_len = u32_at(f, 16);
        let count = u64_at(f, 20);
        let v2 = m == magic();
        let expect = 32 + count * rec_len;
        if !v2 && m != magic_v1() {
            Err(StoreError::Corrupt("sorted run: bad magic"))
        } else if ver != (if v2 {
            2u32
        } else {
            1u32
        }) {
            Err(StoreError::Corrupt("sorted run: unsupported version"))
        } else if key_len == 0 || rec_len < key_len {
            Err(StoreError::Corrupt("sorted run: bad lens in header"))
        } else if f.len() < expect {
            Err(StoreError::Corrupt("sorted run: truncated body"))
        } else if f.len() > expect && v2 {
            Err(StoreError::Corrupt("sorted run: trailing garbage"))
        } else {
            Ok(
                SortedRunPath {
                    seq,
                    count,
                    rec_len,
                    key_len,
                    body_crc32: if v2 {
                        u32_at(f, 28)
                    } else {
                        0
                    },
                },
            )
        }
    }
}

/// Opens a run file: checks its header and its length, not its checksum.
pub fn open_run(seq: Option<u64>, f: &[u8]) -> (r: Result<SortedRunPath, StoreError>)
    ensures
        r == run_open(seq, f@),
{
    if f.len() < HEADER_LEN {
        return Err(StoreError::Io("sorted run: short header"));
    }
    let m2 = magic_bytes(0x32);
    let m1 = magic_bytes(0x31);
    let v2: bool = bytes_at(f, 0, m2.as_slice());
    if !v2 && !bytes_at(f, 0, m1.as_slice()) {
        return Err(StoreError::Corrupt("sorted run: bad magic"));
    }
    let want: u32 = if v2 {
        VERSION
    } else {
        VERSION_V1
    };
    if get_u32(f, 8) != want {
        return Err(StoreError::Corrupt("sorted run: unsupported version"));
    }
    let crc: u32 = if v2 {
        get_u32(f, 28)
    } else {
        0
    };
    let key_len: u32 = get_u32(f, 12);
    let rec_len: u32 = get_u32(f, 16);
    let count: u64 = get_u64(f, 20);
    if key_len == 0 || rec_len < key_len {
        return Err(StoreError::Corrupt("sorted run: bad lens in header"));
    }
    proof {
        assert(count * rec_len <= 0xffff_ffff_ffff_ffff * 0xffff_ffff) by (nonlinear_arith)
            requires
                0 <= count <= 0xffff_ffff_ffff_ffff,
                0 <= rec_len <= 0xffff_ffff,
        ;
    }
    let expect: u128 = 32 + count as u128 * rec_len as u128;
    let len: u128 = f.len() as u128;
    if len < expect {
        return Err(StoreError::Corrupt("sorted run: truncated body"));
    }
    if len > expect && v2 {
        return Err(StoreError::Corrupt("sorted run: trailing garbage"));
    }
    Ok(SortedRunPath { seq, count, rec_len, key_len, body_crc32: crc })
}

/// A run that was written opens with what was written.
pub proof fn law_run_roundtrip(seq: Option<u64>, key_len: u32, rec_len: u32, body: Seq<u8>)
    requires
        write_err(key_len, rec_len, body) is None,
        body.len() <= u64::MAX,
    ensures
        run_open(seq, run_file(key_len, rec_len, body)) == Ok::<SortedRunPath, StoreError>(
            SortedRunPath {
                seq,
                count: (body.len() as int / rec_len as int) as u64,
                rec_len,
                key_len,
                body_crc32: crc_of(body),
            },
        ),
        run_file(key_len, rec_len, body).subrange(32, 32 + body.len() as int) == body,
{
    let f = run_file(key_len, rec_len, body);
    let n = body.len() as int / rec_len as int;
    let crc = crc_of(body);
    vstd::arithmetic::div_mod::lemma_fundamental_div_mod(body.len() as int, rec_len as int);
    assert(n * rec_len == body.len() && 0 <= n <= body.len()) by (nonlinear_arith)
        requires
            body.len() as int == rec_len as int * n + 0,
            rec_len >= 1,
            body.len() >= 0,
    ;
    lemma_p256_values();
    lemma_le_nat_of_seq(2, 4);
    lemma_le_nat_of_seq(key_len as nat, 4);
    lemma_le_nat_of_seq(rec_len as nat, 4);
    lemma_le_nat_of_seq(n as nat, 8);
    lemma_le_nat_of_seq(crc as nat, 4);
    assert(f.subrange(0, 8) =~= magic());
    assert(f.subrange(8, 12) =~= le32(2));
    assert(f.subrange(12, 16) =~= le32(key_len));
    assert(f.subrange(16, 20) =~= le32(rec_len));
    assert(f.subrange(20, 28) =~= le64(n as u64));
    assert(f.subrange(28, 32) =~= le32(crc));
    assert(f.subrange(32, 32 + body.len() as int) =~= body);
}

/// The checksum in the header does not fit the records.
pub open spec fn crc_bad(run: SortedRunPath, body: Seq<u8>) -> bool {
    run.body_crc32 != 0 && crc_of(body) != run.body_crc32
}

/// Checks the checksum of the records (nothing to check without one).
pub fn verify_run_body(run: &SortedRunPath, body: &[u8]) -> (r: Result<(), StoreError>)
    ensures
        r == (if crc_bad(*run, body@) {
            Err::<(), StoreError>(StoreError::Corrupt("sorted run: body CRC mismatch"))
        } else {
            Ok(())
        }),
{
    if run.body_crc32 == 0 {
        return Ok(());
    }
    if crc32(body) != run.body_crc32 {
        return Err(StoreError::Corrupt("sorted run: body CRC mismatch"));
    }
    Ok(())
}

/// Records of an opened run file, with their checksum checked.
pub fn read_run_body(run: &SortedRunPath, f: &[u8]) -> (r: Result<Vec<u8>, StoreError>)
    requires
        run_open(run.seq, f@) == Ok::<SortedRunPath, StoreError>(*run),
    ensures
        ({
            let body = f@.subrange(32, 32 + run.count * run.rec_len);
            match r {
                Ok(v) => v@ == body && !crc_bad(*run, body),
                Err(e) => crc_bad(*run, body) && e == StoreError::Corrupt(
                    "sorted run: body CRC mismatch",
                ),
            }
        }),
{
    let len: usize = f.len();
    proof {
        assert(run.count * run.rec_len >= 0) by (nonlinear_arith)
            requires
                run.count >= 0,
                run.rec_len >= 0,
        ;
    }
    let n: u64 = run.count * run.rec_len as u64;
    let body = copy_range(f, HEADER_LEN, HEADER_LEN + n as usize);
    match verify_run_body(run, body.as_slice()) {
        Ok(_) => Ok(body),
        Err(e) => Err(e),
    }
}

/// A run with its records in memory.
pub struct SortedRun {
    pub head: SortedRunPath,
    pub body: Vec<u8>,
}

impl SortedRun {
    /// The records are whole and as many as the header says.
    pub open spec fn valid(&self) -> bool {
        &&& 1 <= self.head.key_len <= self.head.rec_len
        &&& self.body@.len() == self.head.count * self.head.rec_len
    }

    /// The records.
    pub open spec fn recs(&self) -> Seq<Seq<u8>> {
        recs_of(self.body@, self.head.rec_len as int)
    }
}

/// A valid run has as many records as its header says.
pub proof fn lemma_run_recs(run: &SortedRun)
    requires
        run.valid(),
    ensures
        run.recs().len() == run.head.count,
        forall|i: int|
            0 <= i < run.head.count ==> (#[trigger] run.recs()[i]).len() == run.head.rec_len,
{
    let rl = run.head.rec_len as int;
    let n = run.head.count as int;
    lemma_rec_count(run.body@.len() as int, rl, n);
    assert forall|i: int| 0 <= i < n implies (#[trigger] run.recs()[i]).len() == rl by {
        lemma_rec_bounds(run.body@.len() as int, rl, i, n);
    }
}

/// Offset of record `i`.
fn rec_off(run: &SortedRun, i: u64) -> (r: usize)
    requires
        run.valid(),
        i < run.head.count,
    ensures
        r == i * run.head.rec_len,
        r + run.head.rec_len <= run.body@.len(),
        r + run.head.rec_len <= usize::MAX,
        run.recs()[i as int] == run.body@.subrange(r as int, r + run.head.rec_len),
{
    let len: usize = run.body.len();
    proof {
        lemma_run_recs(run);
        lemma_rec_bounds(
            run.body@.len() as int,
            run.head.rec_len as int,
            i as int,
            run.head.count as int,
        );
    }
    (i * run.head.rec_len as u64) as usize
}

/// One record.
pub fn read_run_record_at(run: &SortedRun, idx: u64) -> (r: Result<Vec<u8>, StoreError>)
    requires
        run.valid(),
    ensures
        match r {
            Ok(v) => idx < run.head.count && v@ == run.recs()[idx as int],
            Err(e) => idx >= run.head.count && e == StoreError::Corrupt(
                "sorted run: record index past end",
            ),
        },
{
    if idx >= run.head.count {
        return Err(StoreError::Corrupt("sorted run: record index past end"));
    }
    let off: usize = rec_off(run, idx);
    Ok(copy_range(run.body.as_slice(), off, off + run.head.rec_len as usize))
}

/// Key bytes of a record.
pub open spec fn rec_key(rec: Seq<u8>, key_len: int) -> Seq<u8> {
    rec.subrange(0, key_len)
}

/// How the key of record `i` compares with `key`.
fn key_order_at(run: &SortedRun, i: u64, key: &[u8]) -> (r: Cmp3)
    requires
        run.valid(),
        i < run.head.count,
        key@.len() >= run.head.key_len,
    ensures
        ({
            let kl = run.head.key_len as int;
            let rl = run.head.rec_len as int;
            &&& r == nat_order(
                rec_rank(run.recs()[i as int], kl, rl),
                rec_rank(key@.subrange(0, kl), kl, rl),
            )
            &&& r == Cmp3::Same <==> rec_key(run.recs()[i as int], kl) == key@.subrange(0, kl)
        }),
{
    let off: usize = rec_off(run, i);
    let kl: usize = run.head.key_len as usize;
    let rl: usize = run.head.rec_len as usize;
    proof {
        let rec = run.recs()[i as int];
        let want = key@.subrange(0, kl as int);
        assert(rec_key(rec, kl as int) =~= run.body@.subrange(off as int, off + kl));
        assert(want.subrange(0, kl as int) =~= want);
        if kl == 40 && rl == 40 {
            assert(rec_key(rec, 40) =~= rec);
            if rec_rank(rec, 40, 40) == rec_rank(want, 40, 40) {
                lemma_full_rank_injective(rec, want, 40);
            }
        }
    }
    if kl == 40 && rl == 40 {
        rec_key_order(run.body.as_slice(), off, key, 0, kl, rl)
    } else {
        bytes_order(run.body.as_slice(), off, key, 0, kl)
    }
}

/// A record is ordered by its key bytes alone.
proof fn lemma_key_prefix(rec: Seq<u8>, kl: int, rl: int)
    requires
        1 <= kl <= rl,
        rec.len() == rl,
    ensures
        rec_rank(rec_key(rec, kl), kl, rl) == rec_rank(rec, kl, rl),
{
    let k = rec_key(rec, kl);
    assert(k.subrange(0, kl) =~= rec.subrange(0, kl));
    if kl == 40 && rl == 40 {
        assert(k =~= rec);
    }
}

/// Keys with one rank are equal.
proof fn lemma_key_rank(rec: Seq<u8>, want: Seq<u8>, kl: int, rl: int)
    requires
        1 <= kl <= rl,
        rec.len() == rl,
        want.len() == kl,
        rec_rank(rec, kl, rl) == rec_rank(want, kl, rl),
    ensures
        rec_key(rec, kl) == want,
{
    assert(want.subrange(0, kl) =~= want);
    if kl == 40 && rl == 40 {
        assert(rec_key(rec, kl) =~= rec);
        lemma_full_rank_injective(rec, want, 40);
    } else {
        lemma_be_injective(rec_key(rec, kl), want);
    }
}

/// Finds the first record with a key by binary search.
///
/// In a sorted run every key that is there is found.
pub fn lookup_key(run: &SortedRun, key: &[u8]) -> (r: Result<Option<Vec<u8>>, StoreError>)
    requires
        run.valid(),
    ensures
        key@.len() < run.head.key_len ==> r is Err && r->Err_0 == StoreError::Corrupt(
            "sorted run: lookup key short",
        ),
        key@.len() >= run.head.key_len ==> r is Ok && ({
            let kl = run.head.key_len as int;
            let rl = run.head.rec_len as int;
            let want = key@.subrange(0, kl);
            match r->Ok_0 {
                Some(v) => exists|i: int|
                    0 <= i < run.recs().len() && v@ == #[trigger] run.recs()[i] && rec_key(
                        run.recs()[i],
                        kl,
                    ) == want && (run_sorted(run.body@, kl, rl) ==> forall|j: int|
                        0 <= j < i ==> rec_key(#[trigger] run.recs()[j], kl) != want),
                None => run_sorted(run.body@, kl, rl) ==> forall|j: int|
                    0 <= j < run.recs().len() ==> rec_key(#[trigger] run.recs()[j], kl) != want,
            }
        }),
{
    if key.len() < run.head.key_len as usize {
        return Err(StoreError::Corrupt("sorted run: lookup key short"));
    }
    proof {
        lemma_run_recs(run);
    }
    let ghost kl = run.head.key_len as int;
    let ghost rl = run.head.rec_len as int;
    let ghost want = key@.subrange(0, kl);
    let mut lo: u64 = 0;
    let mut hi: u64 = run.head.count;
    while lo < hi
        invariant
            run.valid(),
            lo <= hi <= run.head.count,
            run.recs().len() == run.head.count,
            key@.len() >= run.head.key_len,
            kl == run.head.key_len,
            rl == run.head.rec_len,
            want == key@.subrange(0, kl),
            run_sorted(run.body@, kl, rl) ==> forall|j: int|
                0 <= j < lo ==> rec_rank(#[trigger] run.recs()[j], kl, rl) < rec_rank(want, kl, rl),
            run_sorted(run.body@, kl, rl) ==> forall|j: int|
                hi <= j < run.recs().len() ==> rec_rank(#[trigger] run.recs()[j], kl, rl)
                    > rec_rank(want, kl, rl),
        decreases hi - lo,
    {
        let mid: u64 = lo + (hi - lo) / 2;
        match key_order_at(run, mid, key) {
            Cmp3::Less => {
                proof {
                    if run_sorted(run.body@, kl, rl) {
                        assert forall|j: int| 0 <= j < mid + 1 implies rec_rank(#[trigger] run.recs()[j], kl, rl) < rec_rank(want, kl, rl) by {
                            if j < mid {
                                assert(rec_rank(run.recs()[j], kl, rl) <= rec_rank(run.recs()[mid as int], kl, rl));
                            }
                        }
                    }
                }
                lo = mid + 1;
            },
            Cmp3::More => {
                proof {
                    if run_sorted(run.body@, kl, rl) {
                        assert forall|j: int| mid <= j < run.recs().len() implies rec_rank(#[trigger] run.recs()[j], kl, rl) > rec_rank(want, kl, rl) by {
                            if j > mid {
                                assert(rec_rank(run.recs()[mid as int], kl, rl) <= rec_rank(run.recs()[j], kl, rl));
                            }
                        }
                    }
                }
                hi = mid;
            },
            Cmp3::Same => {
                let mut i: u64 = mid;
                while i > 0 && matches!(key_order_at(run, i - 1, key), Cmp3::Same)
                    invariant
                        run.valid(),
                        i <= mid < run.head.count,
                        run.recs().len() == run.head.count,
                        key@.len() >= run.head.key_len,
                        kl == run.head.key_len,
                        rl == run.head.rec_len,
                        want == key@.subrange(0, kl),
                        rec_key(run.recs()[i as int], kl) == want,
                    ensures
                        i <= mid,
                        rec_key(run.recs()[i as int], kl) == want,
                        i > 0 ==> rec_key(run.recs()[i - 1], kl) != want,
                    decreases i,
                {
                    i -= 1;
                }
                let off: usize = rec_off(run, i);
                let v = copy_range(run.body.as_slice(), off, off + run.head.rec_len as usize);
                proof {
                    lemma_run_recs(run);
                    if run_sorted(run.body@, kl, rl) {
                        assert forall|j: int| 0 <= j < i implies rec_key(
                            #[trigger] run.recs()[j],
                            kl,
                        ) != want by {
                            lemma_key_prefix(run.recs()[j], kl, rl);
                            lemma_key_prefix(run.recs()[i as int], kl, rl);
                            let prev = rec_rank(run.recs()[i - 1], kl, rl);
                            assert(prev <= rec_rank(run.recs()[i as int], kl, rl));
                            if prev == rec_rank(want, kl, rl) {
                                lemma_key_rank(run.recs()[i - 1], want, kl, rl);
                            }
                            if j < i - 1 {
                                assert(rec_rank(run.recs()[j], kl, rl) <= prev);
                            }
                        }
                    }
                    assert(v@ == run.recs()[i as int]);
                }
                return Ok(Some(v));
            },
        }
    }
    proof {
        if run_sorted(run.body@, kl, rl) {
            assert forall|j: int| 0 <= j < run.recs().len() implies rec_key(
                #[trigger] run.recs()[j],
                kl,
            ) != want by {
                assert(rec_rank(run.recs()[j], kl, rl) != rec_rank(want, kl, rl));
                lemma_key_prefix(run.recs()[j], kl, rl);
            }
        }
    }
    Ok(None)
}

/// Prefix shard of a record: that of its first byte.
pub open spec fn rec_shard(rec: Seq<u8>, n_shards: int) -> int {
    prefix_shard(rec, n_shards)
}

/// Prefix shard of record `i`.
fn rec_prefix_shard(run: &SortedRun, i: u64, n_shards: usize) -> (r: usize)
    requires
        run.valid(),
        i < run.head.count,
        shard_count_ok(n_shards as int),
    ensures
        r == rec_shard(run.recs()[i as int], n_shards as int),
{
    let off: usize = rec_off(run, i);
    let mut full: [u8; 32] = [0u8; 32];
    full[0] = run.body[off];
    assert(full@[0] == run.recs()[i as int][0]);
    prefix_shard_of(&full, n_shards)
}

/// Shards never fall from one record to the next.
pub open spec fn shards_sorted(run: &SortedRun, n_shards: int) -> bool {
    forall|i: int, j: int|
        0 <= i < j < run.recs().len() ==> rec_shard(#[trigger] run.recs()[i], n_shards)
            <= rec_shard(#[trigger] run.recs()[j], n_shards)
}

/// First record of each shard, and the number of records at the end.
///
/// In a sorted run shard `s` is exactly the records from `starts[s]` up to
/// `starts[s + 1]`.
pub fn shard_record_starts(run: &SortedRun, n_shards: usize) -> (r: Vec<u64>)
    requires
        run.valid(),
        shard_count_ok(n_shards as int),
    ensures
        ({
            let n = if n_shards < 1 {
                1int
            } else {
                n_shards as int
            };
            &&& r@.len() == n + 1
            &&& r@[0] == 0
            &&& r@[n] == run.head.count
            &&& forall|s: int| 0 <= s <= n ==> (#[trigger] r@[s]) <= run.head.count
            &&& shards_sorted(run, n) ==> forall|s: int, i: int|
                0 <= s < n && 0 <= i < run.recs().len() ==> ((#[trigger] r@[s] <= i) <==> rec_shard(
                    #[trigger] run.recs()[i],
                    n,
                ) >= s)
        }),
{
    let n: usize = if n_shards < 1 {
        1
    } else {
        n_shards
    };
    proof {
        lemma_run_recs(run);
        assert(shard_count_ok(n as int));
    }
    let mut starts: Vec<u64> = Vec::new();
    starts.push(0);
    let mut s: usize = 1;
    proof {
        assert forall|t: int, i: int|
            0 <= t < 1 && 0 <= i < run.recs().len() && shards_sorted(run, n as int) implies ((
        #[trigger] starts@[t] <= i) <==> rec_shard(#[trigger] run.recs()[i], n as int) >= t) by {
            lemma_shard_low(run.recs()[i], n as int);
        }
    }
    while s < n
        invariant
            1 <= s <= n,
            run.valid(),
            shard_count_ok(n as int),
            run.recs().len() == run.head.count,
            starts@.len() == s,
            starts@[0] == 0,
            forall|t: int| 0 <= t < s ==> (#[trigger] starts@[t]) <= run.head.count,
            shards_sorted(run, n as int) ==> forall|t: int, i: int|
                0 <= t < s && 0 <= i < run.recs().len() ==> ((#[trigger] starts@[t] <= i)
                    <==> rec_shard(#[trigger] run.recs()[i], n as int) >= t),
        decreases n - s,
    {
        let mut lo: u64 = 0;
        let mut hi: u64 = run.head.count;
        while lo < hi
            invariant
                run.valid(),
                shard_count_ok(n as int),
                lo <= hi <= run.head.count,
                run.recs().len() == run.head.count,
                shards_sorted(run, n as int) ==> forall|i: int|
                    0 <= i < lo ==> rec_shard(#[trigger] run.recs()[i], n as int) < s,
                shards_sorted(run, n as int) ==> forall|i: int|
                    hi <= i < run.recs().len() ==> rec_shard(#[trigger] run.recs()[i], n as int)
                        >= s,
            decreases hi - lo,
        {
            let mid: u64 = lo + (hi - lo) / 2;
            if rec_prefix_shard(run, mid, n) < s {
                proof {
                    if shards_sorted(run, n as int) {
                        assert forall|i: int| 0 <= i < mid + 1 implies rec_shard(
                            #[trigger] run.recs()[i],
                            n as int,
                        ) < s by {
                            if i < mid {
                                assert(rec_shard(run.recs()[i], n as int) <= rec_shard(
                                    run.recs()[mid as int],
                                    n as int,
                                ));
                            }
                        }
                    }
                }
                lo = mid + 1;
            } else {
                proof {
                    if shards_sorted(run, n as int) {
                        assert forall|i: int| mid <= i < run.recs().len() implies rec_shard(
                            #[trigger] run.recs()[i],
                            n as int,
                        ) >= s by {
                            if i > mid {
                                assert(rec_shard(run.recs()[mid as int], n as int) <= rec_shard(
                                    run.recs()[i],
                                    n as int,
                                ));
                            }
                        }
                    }
                }
                hi = mid;
            }
        }
        let ghost before = starts@;
        starts.push(lo);
        proof {
            assert forall|t: int, i: int|
                0 <= t < s + 1 && 0 <= i < run.recs().len() && shards_sorted(
                    run,
                    n as int,
                ) implies ((#[trigger] starts@[t] <= i) <==> rec_shard(
                #[trigger] run.recs()[i],
                n as int,
            ) >= t) by {
                if t < s {
                    assert(starts@[t] == before[t]);
                }
            }
        }
        s += 1;
    }
    let ghost before = starts@;
    starts.push(run.head.count);
    proof {
        if n_shards < 1 {
            assert forall|i: int| 0 <= i < run.recs().len() implies rec_shard(
                #[trigger] run.recs()[i],
                1,
            ) == 0 by {}
        }
        assert forall|t: int, i: int|
            0 <= t < n && 0 <= i < run.recs().len() && shards_sorted(run, n as int) implies ((
        #[trigger] starts@[t] <= i) <==> rec_shard(#[trigger] run.recs()[i], n as int) >= t) by {
            assert(starts@[t] == before[t]);
        }
    }
    starts
}

proof fn lemma_shard_low(rec: Seq<u8>, n: int)
    requires
        n >= 1,
    ensures
        rec_shard(rec, n) >= 0,
{
    if n > 1 {
        assert(rec[0] as int * n >= 0) by (nonlinear_arith)
            requires
                rec[0] as int >= 0,
                n >= 0,
        ;
    }
}

/// [`shard_record_starts`] of each run.
pub fn shard_record_starts_many(runs: &Vec<SortedRun>, n_shards: usize) -> (r: Vec<Vec<u64>>)
    requires
        forall|i: int| 0 <= i < runs@.len() ==> (#[trigger] runs@[i]).valid(),
        shard_count_ok(n_shards as int),
    ensures
        r@.len() == runs@.len(),
        forall|k: int|
            #![trigger r@[k]]
            0 <= k < runs@.len() ==> ({
                let n = if n_shards < 1 {
                    1int
                } else {
                    n_shards as int
                };
                &&& r@[k]@.len() == n + 1
                &&& r@[k]@[0] == 0
                &&& r@[k]@[n] == runs@[k].head.count
                &&& forall|s: int| 0 <= s <= n ==> (#[trigger] r@[k]@[s]) <= runs@[k].head.count
                &&& shards_sorted(&runs@[k], n) ==> forall|s: int, i: int|
                    0 <= s < n && 0 <= i < runs@[k].recs().len() ==> ((#[trigger] r@[k]@[s] <= i)
                        <==> rec_shard(#[trigger] runs@[k].recs()[i], n) >= s)
            }),
{
    let mut out: Vec<Vec<u64>> = Vec::new();
    let mut k: usize = 0;
    while k < runs.len()
        invariant
            k <= runs@.len(),
            forall|i: int| 0 <= i < runs@.len() ==> (#[trigger] runs@[i]).valid(),
            shard_count_ok(n_shards as int),
            out@.len() == k,
            forall|k: int|
                #![trigger out@[k]]
                0 <= k < out@.len() ==> ({
                    let n = if n_shards < 1 {
                        1int
                    } else {
                        n_shards as int
                    };
                    &&& out@[k]@.len() == n + 1
                    &&& out@[k]@[0] == 0
                    &&& out@[k]@[n] == runs@[k].head.count
                    &&& forall|s: int|
                        0 <= s <= n ==> (#[trigger] out@[k]@[s]) <= runs@[k].head.count
                    &&& shards_sorted(&runs@[k], n) ==> forall|s: int, i: int|
                        0 <= s < n && 0 <= i < runs@[k].recs().len() ==> ((
                        #[trigger] out@[k]@[s] <= i) <==> rec_shard(
                            #[trigger] runs@[k].recs()[i],
                            n,
                        ) >= s)
                }),
        decreases runs@.len() - k,
    {
        out.push(shard_record_starts(&runs[k], n_shards));
        k += 1;
    }
    out
}

/// The first byte of a smaller number of one length is not larger.
pub proof fn lemma_be_first(a: Seq<u8>, b: Seq<u8>)
    requires
        a.len() == b.len(),
        a.len() >= 1,
        be_nat(a) <= be_nat(b),
    ensures
        a[0] <= b[0],
    decreases a.len(),
{
    if a.len() == 1 {
        assert(a.drop_last() =~= Seq::empty());
        assert(b.drop_last() =~= Seq::empty());
    } else {
        lemma_be_first(a.drop_last(), b.drop_last());
    }
}

/// In a sorted run the shards never fall, so its shards are slices of it.
pub proof fn law_sorted_run_shards(run: &SortedRun, n_shards: int)
    requires
        run.valid(),
        run_sorted(run.body@, run.head.key_len as int, run.head.rec_len as int),
        shard_count_ok(n_shards),
        n_shards >= 1,
    ensures
        shards_sorted(run, n_shards),
{
    let kl = run.head.key_len as int;
    let rl = run.head.rec_len as int;
    lemma_run_recs(run);
    assert forall|i: int, j: int| 0 <= i < j < run.recs().len() implies rec_shard(
        #[trigger] run.recs()[i],
        n_shards,
    ) <= rec_shard(#[trigger] run.recs()[j], n_shards) by {
        assert(rec_rank(recs_of(run.body@, rl)[i], kl, rl) <= rec_rank(
            recs_of(run.body@, rl)[j],
            kl,
            rl,
        ));
        lemma_rank_shard(run.recs()[i], run.recs()[j], kl, rl, n_shards);
    }
}

/// A record of no larger rank lies in no later shard.
pub proof fn lemma_rank_shard(a: Seq<u8>, b: Seq<u8>, kl: int, rl: int, n_shards: int)
    requires
        a.len() == rl,
        b.len() == rl,
        1 <= kl <= rl,
        n_shards >= 1,
        rec_rank(a, kl, rl) <= rec_rank(b, kl, rl),
    ensures
        rec_shard(a, n_shards) <= rec_shard(b, n_shards),
{
    if kl == 40 && rl == 40 {
        lemma_le_nat_bound(a.subrange(32, 40));
        lemma_le_nat_bound(b.subrange(32, 40));
        lemma_p256_values();
        lemma_two_part(
            be_nat(a.subrange(0, 32)),
            le_nat(a.subrange(32, 40)),
            be_nat(b.subrange(0, 32)),
            le_nat(b.subrange(32, 40)),
        );
        lemma_be_first(a.subrange(0, 32), b.subrange(0, 32));
    } else {
        lemma_be_first(a.subrange(0, kl), b.subrange(0, kl));
    }
    if n_shards > 1 {
        assert(a[0] as int * n_shards <= b[0] as int * n_shards) by (nonlinear_arith)
            requires
                a[0] as int <= b[0] as int,
                n_shards > 1,
        ;
    }
}

} // verus!
