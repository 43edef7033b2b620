//! Catalog of the sorted runs of a directory.
//!
//! The catalog file is a 16-byte header (magic, version, number of entries) and
//! 28 bytes per run. It is the authority on which runs count: a run file that
//! it does not list is a leftover.

use vstd::prelude::*;
use crate::bytes::{bytes_at, get_u32, get_u64, le32, le64, lemma_le_nat_of_seq, lemma_p256_values, push_u32, push_u64, u32_at, u64_at};
use crate::error::StoreError;
use crate::sorted_run::{run_open, SortedRunPath};
use crate::sorting::{lemma_same_items, sort_ranked, sorted_by_rank, Ranked};

verus! {

/// Version of the catalog file.
pub const MANIFEST_VERSION: u32 = 1;

/// Bytes of one entry.
pub const MANIFEST_ENTRY_LEN: usize = 28;

/// One run of the catalog.
#[derive(Clone, Copy, Debug, PartialEq, Eq, Structural)]
pub struct ManifestEntry {
    pub seq: u64,
    pub count: u64,
    pub key_len: u32,
    pub rec_len: u32,
    pub body_crc32: u32,
}

impl Ranked for ManifestEntry {
    open spec fn rank(&self) -> nat {
        self.seq as nat
    }

    fn rank_le(&self, other: &Self) -> (r: bool) {
        self.seq <= other.seq
    }
}

/// Entry of a run (`None` if its file name has no number).
pub open spec fn entry_of(run: SortedRunPath) -> Option<ManifestEntry> {
    match run.seq {
        None => None,
        Some(seq) => Some(
            ManifestEntry {
                seq,
                count: run.count,
                key_len: run.key_len,
                rec_len: run.rec_len,
                body_crc32: run.body_crc32,
            },
        ),
    }
}

/// Bytes of an entry.
pub open spec fn entry_bytes(e: ManifestEntry) -> Seq<u8> {
    le64(e.seq) + le64(e.count) + le32(e.key_len) + le32(e.rec_len) + le32(e.body_crc32)
}

/// Entry at an offset.
pub open spec fn entry_at(b: Seq<u8>, off: int) -> ManifestEntry {
    ManifestEntry {
        seq: u64_at(b, off),
        count: u64_at(b, off + 8),
        key_len: u32_at(b, off + 16),
        rec_len: u32_at(b, off + 20),
        body_crc32: u32_at(b, off + 24),
    }
}

impl ManifestEntry {
    /// Entry of a run (`None` if its file name has no number).
    pub fn from_run(run: &SortedRunPath) -> (r: Option<Self>)
        ensures
            r == entry_of(*run),
    {
        match run.seq {
            None => None,
            Some(seq) => Some(
                ManifestEntry {
                    seq,
                    count: run.count,
                    key_len: run.key_len,
                    rec_len: run.rec_len,
                    body_crc32: run.body_crc32,
                },
            ),
        }
    }

    /// Appends the bytes of the entry.
    pub fn encode(&self, out: &mut Vec<u8>)
        ensures
            final(out)@ == old(out)@ + entry_bytes(*self),
    {
        push_u64(out, self.seq);
        push_u64(out, self.count);
        push_u32(out, self.key_len);
        push_u32(out, self.rec_len);
        push_u32(out, self.body_crc32);
        proof {
            assert(out@ =~= old(out)@ + entry_bytes(*self));
        }
    }

    /// Reads an entry (`None` if there are too few bytes).
    pub fn decode(buf: &[u8]) -> (r: Option<Self>)
        ensures
            r == (if buf@.len() < 28 {
                None
            } else {
                Some(entry_at(buf@, 0))
            }),
    {
        if buf.len() < MANIFEST_ENTRY_LEN {
            return None;
        }
        Some(
            ManifestEntry {
                seq: get_u64(buf, 0),
                count: get_u64(buf, 8),
                key_len: get_u32(buf, 16),
                rec_len: get_u32(buf, 20),
                body_crc32: get_u32(buf, 24),
            },
        )
    }
}

pub proof fn lemma_entry_bytes(e: ManifestEntry)
    ensures
        entry_bytes(e).len() == 28,
        entry_at(entry_bytes(e), 0) == e,
{
    lemma_p256_values();
    lemma_le_nat_of_seq(e.seq as nat, 8);
    lemma_le_nat_of_seq(e.count as nat, 8);
    lemma_le_nat_of_seq(e.key_len as nat, 4);
    lemma_le_nat_of_seq(e.rec_len as nat, 4);
    lemma_le_nat_of_seq(e.body_crc32 as nat, 4);
    let b = entry_bytes(e);
    assert(b.subrange(0, 8) =~= le64(e.seq));
    assert(b.subrange(8, 16) =~= le64(e.count));
    assert(b.subrange(16, 20) =~= le32(e.key_len));
    assert(b.subrange(20, 24) =~= le32(e.rec_len));
    assert(b.subrange(24, 28) =~= le32(e.body_crc32));
}

/// Runs that count.
pub struct Manifest {
    pub entries: Vec<ManifestEntry>,
}

/// Magic of the catalog file.
pub open spec fn manifest_magic() -> Seq<u8> {
    seq![0x52u8, 0x42u8, 0x52u8, 0x55u8, 0x4eu8, 0x4du8, 0x46u8, 0x31u8]
}

fn manifest_magic_bytes() -> (r: Vec<u8>)
    ensures
        r@ == manifest_magic(),
{
    let v: Vec<u8> = vec![0x52, 0x42, 0x52, 0x55, 0x4e, 0x4d, 0x46, 0x31];
    proof {
        assert(v@ =~= manifest_magic());
    }
    v
}

/// Bytes of entries one after the other.
pub open spec fn entries_bytes(es: Seq<ManifestEntry>) -> Seq<u8>
    decreases es.len(),
{
    if es.len() == 0 {
        Seq::empty()
    } else {
        entries_bytes(es.drop_last()) + entry_bytes(es.last())
    }
}

/// Bytes of a catalog file.
pub open spec fn manifest_bytes(es: Seq<ManifestEntry>) -> Seq<u8> {
    manifest_magic() + le32(1) + le32(es.len() as u32) + entries_bytes(es)
}

/// The entries of a catalog file, in file order.
pub open spec fn entries_in(b: Seq<u8>) -> Seq<ManifestEntry> {
    Seq::new(u32_at(b, 12) as nat, |i: int| entry_at(b, 16 + 28 * i))
}

/// A catalog file can be read: it has a whole header of this version.
pub open spec fn manifest_known(b: Seq<u8>) -> bool {
    b.len() >= 16 && b.subrange(0, 8) == manifest_magic() && u32_at(b, 8) == 1
}

/// Reads a catalog file; one with another magic, version or a short header is
/// taken for none. Entries come out in order of their numbers.
pub fn load_manifest(b: &[u8]) -> (r: Result<Option<Manifest>, StoreError>)
    ensures
        !manifest_known(b@) ==> r is Ok && r->Ok_0 is None,
        manifest_known(b@) ==> if b@.len() < 16 + 28 * u32_at(b@, 12) {
            r is Err && r->Err_0 == StoreError::Io("sorted run manifest: short body")
        } else {
            r is Ok && r->Ok_0 is Some && ({
                let es = (r->Ok_0)->0.entries@;
                sorted_by_rank(es) && es.to_multiset() == entries_in(b@).to_multiset() && es.len()
                    == entries_in(b@).len()
            })
        },
{
    if b.len() < 16 {
        return Ok(None);
    }
    let m = manifest_magic_bytes();
    if !bytes_at(b, 0, m.as_slice()) {
        return Ok(None);
    }
    if get_u32(b, 8) != MANIFEST_VERSION {
        return Ok(None);
    }
    let n: u32 = get_u32(b, 12);
    let len: usize = b.len();
    if (len as u128) < 16 + 28 * n as u128 {
        return Err(StoreError::Io("sorted run manifest: short body"));
    }
    let mut es: Vec<ManifestEntry> = Vec::new();
    let mut i: u32 = 0;
    while i < n
        invariant
            i <= n,
            len == b@.len(),
            16 + 28 * n <= len,
            es@.len() == i,
            forall|j: int| 0 <= j < i ==> #[trigger] es@[j] == entry_at(b@, 16 + 28 * j),
        decreases n - i,
    {
        let off: usize = 16 + 28 * i as usize;
        es.push(
            ManifestEntry {
                seq: get_u64(b, off),
                count: get_u64(b, off + 8),
                key_len: get_u32(b, off + 16),
                rec_len: get_u32(b, off + 20),
                body_crc32: get_u32(b, off + 24),
            },
        );
        i += 1;
    }
    proof {
        assert(es@ =~= entries_in(b@));
    }
    let entries = sort_ranked(&es);
    Ok(Some(Manifest { entries }))
}

/// Bytes of the catalog file.
pub fn save_manifest(mf: &Manifest) -> (r: Vec<u8>)
    ensures
        r@ == manifest_bytes(mf.entries@),
{
    let mut v = manifest_magic_bytes();
    push_u32(&mut v, MANIFEST_VERSION);
    push_u32(&mut v, mf.entries.len() as u32);
    let ghost head = v@;
    let mut i: usize = 0;
    proof {
        assert(mf.entries@.subrange(0, 0) =~= Seq::empty());
        assert(head + entries_bytes(Seq::<ManifestEntry>::empty()) =~= head);
    }
    while i < mf.entries.len()
        invariant
            i <= mf.entries@.len(),
            v@ == head + entries_bytes(mf.entries@.subrange(0, i as int)),
        decreases mf.entries@.len() - i,
    {
        proof {
            let p = mf.entries@.subrange(0, i + 1);
            assert(p.drop_last() =~= mf.entries@.subrange(0, i as int));
            assert(p.last() == mf.entries@[i as int]);
        }
        let ghost before = v@;
        mf.entries[i].encode(&mut v);
        proof {
            assert(v@ =~= head + entries_bytes(mf.entries@.subrange(0, i + 1)));
        }
        i += 1;
    }
    proof {
        assert(mf.entries@.subrange(0, i as int) =~= mf.entries@);
    }
    v
}

proof fn lemma_entries_bytes(es: Seq<ManifestEntry>, i: int)
    requires
        0 <= i < es.len(),
    ensures
        entries_bytes(es).len() == 28 * es.len(),
        entries_bytes(es).subrange(28 * i, 28 * i + 28) == entry_bytes(es[i]),
    decreases es.len(),
{
    let d = es.drop_last();
    lemma_entry_bytes(es.last());
    if d.len() > 0 {
        lemma_entries_bytes(d, if i < d.len() {
            i
        } else {
            0
        });
    } else {
        assert(entries_bytes(d) =~= Seq::<u8>::empty());
    }
    assert(entries_bytes(d).len() == 28 * d.len());
    let b = entries_bytes(es);
    if i < d.len() {
        assert(b.subrange(28 * i, 28 * i + 28) =~= entries_bytes(d).subrange(28 * i, 28 * i + 28));
        assert(d[i] == es[i]);
    } else {
        assert(b.subrange(28 * i, 28 * i + 28) =~= entry_bytes(es.last()));
    }
}

/// A catalog file gives back the entries that were saved.
pub proof fn law_manifest_roundtrip(es: Seq<ManifestEntry>)
    requires
        es.len() <= u32::MAX,
    ensures
        manifest_known(manifest_bytes(es)),
        manifest_bytes(es).len() == 16 + 28 * u32_at(manifest_bytes(es), 12),
        entries_in(manifest_bytes(es)) == es,
{
    let b = manifest_bytes(es);
    lemma_p256_values();
    lemma_le_nat_of_seq(1, 4);
    lemma_le_nat_of_seq(es.len() as u32 as nat, 4);
    assert(b.subrange(0, 8) =~= manifest_magic());
    assert(b.subrange(8, 12) =~= le32(1));
    assert(b.subrange(12, 16) =~= le32(es.len() as u32));
    if es.len() > 0 {
        lemma_entries_bytes(es, 0);
    }
    let got = entries_in(b);
    assert forall|i: int| 0 <= i < es.len() implies got[i] == es[i] by {
        lemma_entries_bytes(es, i);
        lemma_entry_bytes(es[i]);
        let e = entry_bytes(es[i]);
        let off = 16 + 28 * i;
        assert(b.subrange(off, off + 28) =~= entries_bytes(es).subrange(28 * i, 28 * i + 28));
        assert(b.subrange(off, off + 8) =~= e.subrange(0, 8));
        assert(b.subrange(off + 8, off + 16) =~= e.subrange(8, 16));
        assert(b.subrange(off + 16, off + 20) =~= e.subrange(16, 20));
        assert(b.subrange(off + 20, off + 24) =~= e.subrange(20, 24));
        assert(b.subrange(off + 24, off + 28) =~= e.subrange(24, 28));
        assert(b.subrange(off, off + 28).subrange(0, 8) =~= b.subrange(off, off + 8));
        assert(b.subrange(off, off + 28).subrange(8, 16) =~= b.subrange(off + 8, off + 16));
        assert(b.subrange(off, off + 28).subrange(16, 20) =~= b.subrange(off + 16, off + 20));
        assert(b.subrange(off, off + 28).subrange(20, 24) =~= b.subrange(off + 20, off + 24));
        assert(b.subrange(off, off + 28).subrange(24, 28) =~= b.subrange(off + 24, off + 28));
    }
    assert(got =~= es);
}

/// Numbers rise strictly: each run has one entry.
pub open spec fn seqs_rise(es: Seq<ManifestEntry>) -> bool {
    forall|i: int, j: int|
        0 <= i < j < es.len() ==> (#[trigger] es[i]).seq < (#[trigger] es[j]).seq
}

/// The first `n` entries without those whose number is among `gone`.
pub open spec fn kept_entries(es: Seq<ManifestEntry>, gone: Seq<u64>, n: int) -> Seq<ManifestEntry>
    decreases n,
{
    if n <= 0 {
        Seq::empty()
    } else if gone.contains(es[n - 1].seq) {
        kept_entries(es, gone, n - 1)
    } else {
        kept_entries(es, gone, n - 1).push(es[n - 1])
    }
}

/// The entries of the first `n` runs with a number.
pub open spec fn run_entries(runs: Seq<SortedRunPath>, n: int) -> Seq<ManifestEntry>
    decreases n,
{
    if n <= 0 {
        Seq::empty()
    } else {
        match entry_of(runs[n - 1]) {
            Some(e) => run_entries(runs, n - 1).push(e),
            None => run_entries(runs, n - 1),
        }
    }
}

/// The catalog lists this number.
pub open spec fn lists_seq(es: Seq<ManifestEntry>, s: u64) -> bool {
    exists|i: int| 0 <= i < es.len() && (#[trigger] es[i]).seq == s
}

/// Those of the first `n` numbers that the catalog does not list.
pub open spec fn unlisted(es: Seq<ManifestEntry>, on_disk: Seq<u64>, n: int) -> Seq<u64>
    decreases n,
{
    if n <= 0 {
        Seq::empty()
    } else if lists_seq(es, on_disk[n - 1]) {
        unlisted(es, on_disk, n - 1)
    } else {
        unlisted(es, on_disk, n - 1).push(on_disk[n - 1])
    }
}

/// Entries whose number is not among `gone`.
fn retain(es: &Vec<ManifestEntry>, gone: &Vec<u64>) -> (r: Vec<ManifestEntry>)
    ensures
        forall|e: ManifestEntry| #[trigger]
            r@.contains(e) <==> es@.contains(e) && !gone@.contains(e.seq),
        seqs_rise(es@) ==> seqs_rise(r@),
        r@.len() <= es@.len(),
        r@ == kept_entries(es@, gone@, es@.len() as int),
{
    let mut out: Vec<ManifestEntry> = Vec::new();
    let mut i: usize = 0;
    while i < es.len()
        invariant
            i <= es@.len(),
            out@.len() <= i,
            out@ == kept_entries(es@, gone@, i as int),
            forall|e: ManifestEntry| #[trigger]
                out@.contains(e) <==> es@.subrange(0, i as int).contains(e) && !gone@.contains(
                    e.seq,
                ),
            seqs_rise(es@) ==> seqs_rise(out@),
            seqs_rise(es@) ==> forall|a: int, b: int|
                0 <= a < out@.len() && i <= b < es@.len() ==> (#[trigger] out@[a]).seq < (
                #[trigger] es@[b]).seq,
        decreases es@.len() - i,
    {
        let e: ManifestEntry = es[i];
        let mut j: usize = 0;
        while j < gone.len() && gone[j] != e.seq
            invariant
                j <= gone@.len(),
                forall|x: int| 0 <= x < j ==> gone@[x] != e.seq,
            decreases gone@.len() - j,
        {
            j += 1;
        }
        let ghost before = out@;
        if j == gone.len() {
            out.push(e);
        }
        proof {
            let p = es@.subrange(0, i + 1);
            let q = es@.subrange(0, i as int);
            assert(p =~= q.push(e));
            assert(gone@.contains(e.seq) <==> j < gone@.len()) by {
                if j < gone@.len() {
                    assert(gone@[j as int] == e.seq);
                }
            }
            assert forall|x: ManifestEntry| #[trigger] out@.contains(x) <==> p.contains(x)
                && !gone@.contains(x.seq) by {
                if p.contains(x) {
                    let a = choose|a: int| 0 <= a < p.len() && p[a] == x;
                    if a < q.len() {
                        assert(q[a] == x);
                        assert(q.contains(x));
                    }
                }
                if q.contains(x) {
                    let a = choose|a: int| 0 <= a < q.len() && q[a] == x;
                    assert(p[a] == x);
                }
                if before.contains(x) {
                    let a = choose|a: int| 0 <= a < before.len() && before[a] == x;
                    assert(out@[a] == x);
                }
                if out@.contains(x) {
                    let a = choose|a: int| 0 <= a < out@.len() && out@[a] == x;
                    if a < before.len() {
                        assert(before[a] == x);
                        assert(before.contains(x));
                    } else {
                        assert(p[p.len() - 1] == x);
                    }
                }
                if x == e && j == gone@.len() {
                    assert(out@[out@.len() - 1] == x);
                }
            }
        }
        i += 1;
    }
    proof {
        assert(es@.subrange(0, i as int) =~= es@);
    }
    out
}

/// Adds an entry in place of all that have its number or one of `gone`.
fn replace_entry(es: &Vec<ManifestEntry>, gone: &Vec<u64>, add_entry: ManifestEntry) -> (r: Vec<
    ManifestEntry,
>)
    requires
        gone@.contains(add_entry.seq),
    ensures
        sorted_by_rank(r@),
        forall|e: ManifestEntry| #[trigger]
            r@.contains(e) <==> e == add_entry || (es@.contains(e) && !gone@.contains(e.seq)),
        seqs_rise(es@) ==> seqs_rise(r@),
        r@.to_multiset() == kept_entries(es@, gone@, es@.len() as int).push(
            add_entry,
        ).to_multiset(),
{
    let mut kept = retain(es, gone);
    let ghost k0 = kept@;
    kept.push(add_entry);
    let r = sort_ranked(&kept);
    proof {
        assert forall|e: ManifestEntry| #[trigger] kept@.contains(e) <==> e == add_entry
            || k0.contains(e) by {
            if kept@.contains(e) {
                let a = choose|a: int| 0 <= a < kept@.len() && kept@[a] == e;
                if a < k0.len() {
                    assert(k0[a] == e);
                }
            }
            if k0.contains(e) {
                let a = choose|a: int| 0 <= a < k0.len() && k0[a] == e;
                assert(kept@[a] == e);
            }
            if e == add_entry {
                assert(kept@[k0.len() as int] == e);
            }
        }
        assert forall|e: ManifestEntry| #[trigger] r@.contains(e) <==> kept@.contains(e) by {
            if r@.contains(e) {
                let a = choose|a: int| 0 <= a < r@.len() && r@[a] == e;
                let b = lemma_same_items(r@, kept@, a);
            }
            if kept@.contains(e) {
                let a = choose|a: int| 0 <= a < kept@.len() && kept@[a] == e;
                let b = lemma_same_items(kept@, r@, a);
            }
        }
        if seqs_rise(es@) {
            lemma_rise_sorted(k0, add_entry, kept@, r@, gone@);
        }
    }
    r
}

proof fn lemma_rise_sorted(
    k0: Seq<ManifestEntry>,
    x: ManifestEntry,
    kept: Seq<ManifestEntry>,
    r: Seq<ManifestEntry>,
    gone: Seq<u64>,
)
    requires
        seqs_rise(k0),
        kept == k0.push(x),
        forall|e: ManifestEntry| #[trigger] k0.contains(e) ==> !gone.contains(e.seq),
        gone.contains(x.seq),
        sorted_by_rank(r),
        r.to_multiset() == kept.to_multiset(),
    ensures
        seqs_rise(r),
{
    assert forall|i: int| 0 <= i < k0.len() implies (#[trigger] k0[i]).seq != x.seq by {
        assert(k0.contains(k0[i]));
    }
    assert(kept.no_duplicates()) by {
        assert forall|i: int, j: int| 0 <= i < kept.len() && 0 <= j < kept.len() && i != j implies kept[i]
            != kept[j] by {
            if i < k0.len() && j < k0.len() {
                if i < j {
                    assert(k0[i].seq < k0[j].seq);
                } else {
                    assert(k0[j].seq < k0[i].seq);
                }
            } else if i < k0.len() {
                assert(k0[i].seq != x.seq);
            } else {
                assert(k0[j].seq != x.seq);
            }
        }
    }
    kept.lemma_multiset_has_no_duplicates();
    r.lemma_multiset_has_no_duplicates_conv();
    assert forall|i: int, j: int| 0 <= i < j < r.len() implies (#[trigger] r[i]).seq < (
    #[trigger] r[j]).seq by {
        if r[i].seq == r[j].seq {
            let a = lemma_same_items(r, kept, i);
            let b = lemma_same_items(r, kept, j);
            if a < k0.len() && b < k0.len() {
                if a < b {
                    assert(k0[a].seq < k0[b].seq);
                } else if b < a {
                    assert(k0[b].seq < k0[a].seq);
                }
            } else if a < k0.len() {
                assert(k0[a].seq != x.seq);
            } else if b < k0.len() {
                assert(k0[b].seq != x.seq);
            }
            assert(r[i] == r[j]);
        } else {
            assert(r[i].rank() <= r[j].rank());
        }
    }
}

impl Manifest {
    /// A catalog without runs.
    pub fn empty() -> (r: Self)
        ensures
            r.entries@.len() == 0,
    {
        Manifest { entries: Vec::new() }
    }

    /// Adds a run, in place of an entry with its number. A run without a number
    /// is not listed.
    pub fn insert(&mut self, run: &SortedRunPath)
        ensures
            match entry_of(*run) {
                None => final(self).entries@ == old(self).entries@,
                Some(x) => {
                    &&& sorted_by_rank(final(self).entries@)
                    &&& forall|e: ManifestEntry| #[trigger]
                        final(self).entries@.contains(e) <==> e == x || (
                        old(self).entries@.contains(e) && e.seq != x.seq)
                    &&& seqs_rise(old(self).entries@) ==> seqs_rise(final(self).entries@)
                    &&& final(self).entries@.to_multiset() == kept_entries(
                        old(self).entries@,
                        seq![x.seq],
                        old(self).entries@.len() as int,
                    ).push(x).to_multiset()
                },
            },
    {
        let x = match ManifestEntry::from_run(run) {
            Some(x) => x,
            None => {
                return;
            },
        };
        let mut gone: Vec<u64> = Vec::new();
        gone.push(x.seq);
        proof {
            assert(gone@[0] == x.seq);
            assert forall|s: u64| gone@.contains(s) <==> s == x.seq by {
                if s == x.seq {
                    assert(gone@[0] == s);
                }
            }
        }
        self.entries = replace_entry(&self.entries, &gone, x);
    }

    /// Lists a merged run in place of the runs it was merged from.
    pub fn merge_commit(&mut self, remove_seqs: &Vec<u64>, add: &SortedRunPath)
        ensures
            match entry_of(*add) {
                None => final(self).entries@ == old(self).entries@,
                Some(x) => {
                    &&& sorted_by_rank(final(self).entries@)
                    &&& forall|e: ManifestEntry| #[trigger]
                        final(self).entries@.contains(e) <==> e == x || (
                        old(self).entries@.contains(e) && !remove_seqs@.contains(e.seq) && e.seq
                            != x.seq)
                    &&& seqs_rise(old(self).entries@) ==> seqs_rise(final(self).entries@)
                    &&& final(self).entries@.to_multiset() == kept_entries(
                        old(self).entries@,
                        remove_seqs@.push(x.seq),
                        old(self).entries@.len() as int,
                    ).push(x).to_multiset()
                },
            },
    {
        let x = match ManifestEntry::from_run(add) {
            Some(x) => x,
            None => {
                return;
            },
        };
        let mut gone: Vec<u64> = Vec::new();
        let mut i: usize = 0;
        while i < remove_seqs.len()
            invariant
                i <= remove_seqs@.len(),
                gone@ =~= remove_seqs@.subrange(0, i as int),
            decreases remove_seqs@.len() - i,
        {
            gone.push(remove_seqs[i]);
            i += 1;
        }
        proof {
            assert(gone@ =~= remove_seqs@);
        }
        gone.push(x.seq);
        proof {
            assert(gone@[remove_seqs@.len() as int] == x.seq);
            assert forall|s: u64| gone@.contains(s) <==> remove_seqs@.contains(s) || s == x.seq by {
                if remove_seqs@.contains(s) {
                    let a = choose|a: int| 0 <= a < remove_seqs@.len() && remove_seqs@[a] == s;
                    assert(gone@[a] == s);
                }
                if gone@.contains(s) {
                    let a = choose|a: int| 0 <= a < gone@.len() && gone@[a] == s;
                    if a < remove_seqs@.len() {
                        assert(remove_seqs@[a] == s);
                    }
                }
            }
        }
        self.entries = replace_entry(&self.entries, &gone, x);
    }

    /// Drops the entry of a run; its file is left.
    pub fn detach(&mut self, run: &SortedRunPath)
        ensures
            match run.seq {
                None => final(self).entries@ == old(self).entries@,
                Some(seq) => {
                    &&& forall|e: ManifestEntry| #[trigger]
                        final(self).entries@.contains(e) <==> old(self).entries@.contains(e)
                            && e.seq != seq
                    &&& seqs_rise(old(self).entries@) ==> seqs_rise(final(self).entries@)
                    &&& final(self).entries@ == kept_entries(
                        old(self).entries@,
                        seq![seq],
                        old(self).entries@.len() as int,
                    )
                },
            },
    {
        if let Some(seq) = run.seq {
            let mut gone: Vec<u64> = Vec::new();
            gone.push(seq);
            proof {
                assert forall|s: u64| gone@.contains(s) <==> s == seq by {
                    if s == seq {
                        assert(gone@[0] == s);
                    }
                }
            }
            self.entries = retain(&self.entries, &gone);
        }
    }

    /// A catalog of the given runs.
    pub fn rebuild(runs: &Vec<SortedRunPath>) -> (r: Self)
        ensures
            sorted_by_rank(r.entries@),
            forall|e: ManifestEntry| #[trigger]
                r.entries@.contains(e) <==> exists|i: int|
                    0 <= i < runs@.len() && entry_of(#[trigger] runs@[i]) == Some(e),
            r.entries@.to_multiset() == run_entries(runs@, runs@.len() as int).to_multiset(),
    {
        let mut es: Vec<ManifestEntry> = Vec::new();
        let mut i: usize = 0;
        while i < runs.len()
            invariant
                i <= runs@.len(),
                es@ == run_entries(runs@, i as int),
                forall|e: ManifestEntry| #[trigger]
                    es@.contains(e) <==> exists|j: int|
                        0 <= j < i && entry_of(#[trigger] runs@[j]) == Some(e),
            decreases runs@.len() - i,
        {
            let ghost before = es@;
            if let Some(x) = ManifestEntry::from_run(&runs[i]) {
                es.push(x);
            }
            proof {
                assert forall|e: ManifestEntry| #[trigger] es@.contains(e) <==> exists|j: int|
                    0 <= j < i + 1 && entry_of(#[trigger] runs@[j]) == Some(e) by {
                    if es@.contains(e) {
                        let a = choose|a: int| 0 <= a < es@.len() && es@[a] == e;
                        if a < before.len() {
                            assert(before[a] == e);
                            assert(before.contains(e));
                            let j = choose|j: int|
                                0 <= j < i && entry_of(#[trigger] runs@[j]) == Some(e);
                            assert(entry_of(runs@[j]) == Some(e));
                        } else {
                            assert(entry_of(runs@[i as int]) == Some(e));
                        }
                    }
                    if exists|j: int| 0 <= j < i + 1 && entry_of(#[trigger] runs@[j]) == Some(e) {
                        let j = choose|j: int|
                            0 <= j < i + 1 && entry_of(#[trigger] runs@[j]) == Some(e);
                        if j < i {
                            assert(before.contains(e));
                            let a = choose|a: int| 0 <= a < before.len() && before[a] == e;
                            assert(es@[a] == e);
                        } else {
                            assert(es@[es@.len() - 1] == e);
                        }
                    }
                }
            }
            i += 1;
        }
        let entries = sort_ranked(&es);
        proof {
            assert forall|e: ManifestEntry| #[trigger] entries@.contains(e) <==> es@.contains(e) by {
                if entries@.contains(e) {
                    let a = choose|a: int| 0 <= a < entries@.len() && entries@[a] == e;
                    let b = lemma_same_items(entries@, es@, a);
                }
                if es@.contains(e) {
                    let a = choose|a: int| 0 <= a < es@.len() && es@[a] == e;
                    let b = lemma_same_items(es@, entries@, a);
                }
            }
        }
        Manifest { entries }
    }

    /// Numbers of run files that the catalog does not list.
    pub fn orphans(&self, on_disk: &Vec<u64>) -> (r: Vec<u64>)
        ensures
            forall|s: u64| #[trigger]
                r@.contains(s) <==> on_disk@.contains(s) && !(exists|i: int|
                    0 <= i < self.entries@.len() && (#[trigger] self.entries@[i]).seq == s),
            r@ == unlisted(self.entries@, on_disk@, on_disk@.len() as int),
    {
        let mut out: Vec<u64> = Vec::new();
        let mut i: usize = 0;
        while i < on_disk.len()
            invariant
                i <= on_disk@.len(),
                out@ == unlisted(self.entries@, on_disk@, i as int),
                forall|s: u64| #[trigger]
                    out@.contains(s) <==> on_disk@.subrange(0, i as int).contains(s) && !(exists|
                        k: int,
                    |
                        0 <= k < self.entries@.len() && (#[trigger] self.entries@[k]).seq == s),
            decreases on_disk@.len() - i,
        {
            let seq: u64 = on_disk[i];
            let mut j: usize = 0;
            while j < self.entries.len() && self.entries[j].seq != seq
                invariant
                    j <= self.entries@.len(),
                    forall|k: int| 0 <= k < j ==> (#[trigger] self.entries@[k]).seq != seq,
                decreases self.entries@.len() - j,
            {
                j += 1;
            }
            let ghost before = out@;
            let ghost p = on_disk@.subrange(0, i + 1);
            let ghost q = on_disk@.subrange(0, i as int);
            if j == self.entries.len() {
                out.push(seq);
            } else {
                assert(self.entries@[j as int].seq == seq);
            }
            proof {
                assert(p =~= q.push(seq));
                assert forall|s: u64| #[trigger] out@.contains(s) <==> p.contains(s) && !(exists|
                    k: int,
                |
                    0 <= k < self.entries@.len() && (#[trigger] self.entries@[k]).seq == s) by {
                    if p.contains(s) {
                        let a = choose|a: int| 0 <= a < p.len() && p[a] == s;
                        if a < q.len() {
                            assert(q[a] == s);
                            assert(q.contains(s));
                        }
                    }
                    if q.contains(s) {
                        let a = choose|a: int| 0 <= a < q.len() && q[a] == s;
                        assert(p[a] == s);
                    }
                    if before.contains(s) {
                        let a = choose|a: int| 0 <= a < before.len() && before[a] == s;
                        assert(out@[a] == s);
                    }
                    if out@.contains(s) {
                        let a = choose|a: int| 0 <= a < out@.len() && out@[a] == s;
                        if a < before.len() {
                            assert(before[a] == s);
                            assert(before.contains(s));
                        } else {
                            assert(p[p.len() - 1] == s);
                        }
                    }
                    if s == seq && j == self.entries@.len() {
                        assert(out@[out@.len() - 1] == s);
                    }
                }
            }
            i += 1;
        }
        proof {
            assert(on_disk@.subrange(0, i as int) =~= on_disk@);
        }
        out
    }
}

/// Why a run does not fit its catalog entry.
pub open spec fn entry_mismatch(run: SortedRunPath, expect: ManifestEntry) -> Option<StoreError> {
    if run.count != expect.count || run.key_len != expect.key_len || run.rec_len
        != expect.rec_len {
        Some(StoreError::Corrupt("sorted run: header does not match MANIFEST"))
    } else if expect.body_crc32 != 0 && run.body_crc32 != 0 && run.body_crc32
        != expect.body_crc32 {
        Some(StoreError::Corrupt("sorted run: CRC does not match MANIFEST"))
    } else {
        None
    }
}

/// Opens a run file and holds it against its catalog entry.
pub fn open_and_check_against_entry(f: &[u8], expect: &ManifestEntry) -> (r: Result<
    SortedRunPath,
    StoreError,
>)
    ensures
        r == (match run_open(Some(expect.seq), f@) {
            Err(e) => Err::<SortedRunPath, StoreError>(e),
            Ok(run) => match entry_mismatch(run, *expect) {
                Some(e) => Err(e),
                None => Ok(run),
            },
        }),
{
    let run = match crate::sorted_run::open_run(Some(expect.seq), f) {
        Ok(r) => r,
        Err(e) => return Err(e),
    };
    if run.count != expect.count || run.key_len != expect.key_len || run.rec_len
        != expect.rec_len {
        return Err(StoreError::Corrupt("sorted run: header does not match MANIFEST"));
    }
    if expect.body_crc32 != 0 && run.body_crc32 != 0 && run.body_crc32 != expect.body_crc32 {
        return Err(StoreError::Corrupt("sorted run: CRC does not match MANIFEST"));
    }
    Ok(run)
}

} // verus!
