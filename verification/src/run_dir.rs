//! Decisions on a directory of sorted runs: which runs count, which files are
//! leftovers, and how runs are claimed, dropped and merged.

use vstd::prelude::*;
use crate::bytes::{bytes_at, copy_range, push_slice};
use crate::crc::crc_of;
use crate::error::StoreError;
use crate::run_catalog::{entry_mismatch, entry_of, kept_entries, load_manifest, manifest_bytes, manifest_known, open_and_check_against_entry, save_manifest, Manifest, ManifestEntry};
use crate::run_merge::{any_crc_bad, inputs_ok, is_merge, lens_mismatch, merge_runs_to_file_with_policy, merge_holds, merged_file, whole, MergeToFileResult};
use crate::sorted_run::{open_run, run_bytes, run_file, run_open, write_err, write_sorted_run_file, RunWritePolicy, SortedRun, SortedRunPath};
use crate::sorting::sorted_by_rank;
use crate::text::{name_seq, next_run_path, run_name, seq_from_path};

verus! {

/// A file of the directory.
pub struct RunFile {
    pub name: Vec<u8>,
    pub bytes: Vec<u8>,
}

/// What the directory comes to.
pub struct ListedRuns {
    /// Runs that count.
    pub runs: Vec<SortedRunPath>,
    /// Numbers of run files that the catalog does not list; they can be removed.
    pub orphans: Vec<u64>,
    /// Catalog file to write, where there was none.
    pub rebuilt: Option<Vec<u8>>,
}

/// First file with this name, from `i` on (the length if there is none).
pub open spec fn find_file(files: Seq<RunFile>, name: Seq<u8>, i: int) -> int
    decreases files.len() - i,
{
    if i < 0 || i >= files.len() {
        files.len() as int
    } else if files[i].name@ == name {
        i
    } else {
        find_file(files, name, i + 1)
    }
}

/// The run of a catalog entry, if its file is there and matches.
pub open spec fn entry_run(files: Seq<RunFile>, e: ManifestEntry) -> Option<SortedRunPath> {
    let i = find_file(files, run_name(e.seq), 0);
    if i >= files.len() {
        None
    } else {
        match run_open(Some(e.seq), files[i].bytes@) {
            Err(_) => None,
            Ok(run) => if entry_mismatch(run, e) is None {
                Some(run)
            } else {
                None
            },
        }
    }
}

/// Runs of the first `n` catalog entries.
pub open spec fn entry_runs(files: Seq<RunFile>, es: Seq<ManifestEntry>, n: int) -> Seq<
    SortedRunPath,
>
    decreases n,
{
    if n <= 0 {
        Seq::empty()
    } else {
        match entry_run(files, es[n - 1]) {
            Some(r) => entry_runs(files, es, n - 1).push(r),
            None => entry_runs(files, es, n - 1),
        }
    }
}

/// Runs of the first `n` files that can be opened.
pub open spec fn file_runs(files: Seq<RunFile>, n: int) -> Seq<SortedRunPath>
    decreases n,
{
    if n <= 0 {
        Seq::empty()
    } else {
        match run_open(name_seq(files[n - 1].name@), files[n - 1].bytes@) {
            Ok(r) => file_runs(files, n - 1).push(r),
            Err(_) => file_runs(files, n - 1),
        }
    }
}

/// Some file has this number.
pub open spec fn on_disk(files: Seq<RunFile>, seq: u64) -> bool {
    exists|i: int| 0 <= i < files.len() && name_seq((#[trigger] files[i]).name@) == Some(seq)
}

/// The catalog lists this number.
pub open spec fn listed(es: Seq<ManifestEntry>, seq: u64) -> bool {
    exists|i: int| 0 <= i < es.len() && (#[trigger] es[i]).seq == seq
}

fn names_equal(a: &Vec<u8>, b: &Vec<u8>) -> (r: bool)
    ensures
        r == (a@ == b@),
{
    if a.len() != b.len() {
        return false;
    }
    proof {
        assert(a@.subrange(0, a@.len() as int) =~= a@);
    }
    bytes_at(a.as_slice(), 0, b.as_slice())
}

/// Place of the file with this name.
fn file_index(files: &Vec<RunFile>, name: &Vec<u8>) -> (r: usize)
    ensures
        r == find_file(files@, name@, 0),
        r <= files@.len(),
{
    let mut i: usize = 0;
    while i < files.len() && !names_equal(&files[i].name, name)
        invariant
            i <= files@.len(),
            find_file(files@, name@, 0) == find_file(files@, name@, i as int),
        decreases files@.len() - i,
    {
        i += 1;
    }
    i
}

/// Numbers in the names of the files.
fn file_seqs(files: &Vec<RunFile>) -> (r: Vec<u64>)
    ensures
        forall|s: u64| #[trigger] r@.contains(s) <==> on_disk(files@, s),
{
    let mut out: Vec<u64> = Vec::new();
    let mut i: usize = 0;
    while i < files.len()
        invariant
            i <= files@.len(),
            forall|s: u64| #[trigger]
                out@.contains(s) <==> on_disk(files@.subrange(0, i as int), s),
        decreases files@.len() - i,
    {
        let ghost before = out@;
        let x = seq_from_path(files[i].name.as_slice());
        if let Some(seq) = x {
            out.push(seq);
        }
        proof {
            let p = files@.subrange(0, i as int);
            let q = files@.subrange(0, i + 1);
            assert(q[i as int] == files@[i as int]);
            assert forall|s: u64| #[trigger] out@.contains(s) <==> on_disk(q, s) by {
                if out@.contains(s) {
                    let a = choose|a: int| 0 <= a < out@.len() && out@[a] == s;
                    if a < before.len() {
                        assert(before.contains(s));
                        let j = choose|j: int|
                            0 <= j < p.len() && name_seq((#[trigger] p[j]).name@) == Some(s);
                        assert(q[j] == p[j]);
                    } else {
                        assert(name_seq(q[i as int].name@) == Some(s));
                    }
                }
                if on_disk(q, s) {
                    let j = choose|j: int|
                        0 <= j < q.len() && name_seq((#[trigger] q[j]).name@) == Some(s);
                    if j < i {
                        assert(p[j] == q[j]);
                        assert(before.contains(s));
                        let a = choose|a: int| 0 <= a < before.len() && before[a] == s;
                        assert(out@[a] == s);
                    } else {
                        assert(out@[out@.len() - 1] == s);
                    }
                }
            }
        }
        i += 1;
    }
    proof {
        assert(files@.subrange(0, i as int) =~= files@);
    }
    out
}

/// Which runs of a directory count.
///
/// With a catalog they are the listed runs whose files are there and match; files
/// that are not listed are leftovers. Without one they are all files that can be
/// opened, and a catalog of them is to be written. `files` are the run files in the
/// order of their names.
pub fn list_runs(manifest: Option<&[u8]>, files: &Vec<RunFile>) -> (r: Result<
    ListedRuns,
    StoreError,
>)
    ensures
        match (manifest, r) {
            (Some(b), Err(e)) => manifest_known(b@) && b@.len() < 16 + 28 * crate::bytes::u32_at(
                b@,
                12,
            ) && e == StoreError::Io("sorted run manifest: short body"),
            (None, Err(_)) => false,
            (_, Ok(l)) => if manifest is Some && manifest_known((manifest->0)@) {
                (manifest->0)@.len() >= 16 + 28 * crate::bytes::u32_at((manifest->0)@, 12)
                    && exists|es: Seq<ManifestEntry>| #[trigger]
                    sorted_by_rank(es) && es.to_multiset() == crate::run_catalog::entries_in(
                        (manifest->0)@,
                    ).to_multiset() && l.runs@ == entry_runs(files@, es, es.len() as int)
                        && l.rebuilt is None && forall|s: u64| #[trigger]
                        l.orphans@.contains(s) <==> on_disk(files@, s) && !listed(es, s)
            } else {
                &&& l.runs@ == file_runs(files@, files@.len() as int)
                &&& l.orphans@.len() == 0
                &&& l.rebuilt is Some <==> l.runs@.len() > 0
                &&& l.rebuilt is Some ==> exists|es: Seq<ManifestEntry>| #[trigger]
                    sorted_by_rank(es) && l.rebuilt->0@ == manifest_bytes(es) && forall|
                        e: ManifestEntry,
                    | #[trigger]
                        es.contains(e) <==> exists|i: int|
                            0 <= i < l.runs@.len() && entry_of(#[trigger] l.runs@[i]) == Some(e)
            },
        },
{
    let loaded: Option<Manifest> = match manifest {
        None => None,
        Some(b) => match load_manifest(b) {
            Ok(m) => m,
            Err(e) => {
                return Err(e);
            },
        },
    };
    match loaded {
        Some(mf) => {
            let mut runs: Vec<SortedRunPath> = Vec::new();
            let mut i: usize = 0;
            proof {
                assert(runs@ =~= Seq::empty());
            }
            while i < mf.entries.len()
                invariant
                    i <= mf.entries@.len(),
                    runs@ == entry_runs(files@, mf.entries@, i as int),
                decreases mf.entries@.len() - i,
            {
                let e: ManifestEntry = mf.entries[i];
                let name = next_run_path(e.seq);
                let at: usize = file_index(files, &name);
                if at < files.len() {
                    match open_and_check_against_entry(files[at].bytes.as_slice(), &e) {
                        Ok(run) => {
                            runs.push(run);
                        },
                        Err(_) => {},
                    }
                }
                i += 1;
            }
            let seqs = file_seqs(files);
            let orphans = mf.orphans(&seqs);
            proof {
                assert forall|s: u64| #[trigger] orphans@.contains(s) <==> on_disk(files@, s)
                    && !listed(mf.entries@, s) by {
                    assert(seqs@.contains(s) <==> on_disk(files@, s));
                }
            }
            Ok(ListedRuns { runs, orphans, rebuilt: None })
        },
        None => {
            let mut runs: Vec<SortedRunPath> = Vec::new();
            let mut i: usize = 0;
            proof {
                assert(runs@ =~= Seq::empty());
            }
            while i < files.len()
                invariant
                    i <= files@.len(),
                    runs@ == file_runs(files@, i as int),
                decreases files@.len() - i,
            {
                let seq = seq_from_path(files[i].name.as_slice());
                match open_run(seq, files[i].bytes.as_slice()) {
                    Ok(run) => {
                        runs.push(run);
                    },
                    Err(_) => {},
                }
                i += 1;
            }
            let rebuilt: Option<Vec<u8>> = if runs.len() > 0 {
                let mf = Manifest::rebuild(&runs);
                Some(save_manifest(&mf))
            } else {
                None
            };
            Ok(ListedRuns { runs, orphans: Vec::new(), rebuilt })
        },
    }
}

/// Ending of a claimed run file.
pub open spec fn mat_ending() -> Seq<u8> {
    seq![0x2eu8, 0x6du8, 0x61u8, 0x74u8]
}

/// Ending of a run file.
pub open spec fn run_ending() -> Seq<u8> {
    seq![0x2eu8, 0x72u8, 0x75u8, 0x6eu8]
}

/// The name ends in `.run.mat`.
pub open spec fn is_claim(name: Seq<u8>) -> bool {
    name.len() >= 8 && name.subrange(name.len() - 8, name.len() as int) == run_ending()
        + mat_ending()
}

/// A new run with already sorted records that the catalog lists, and its file.
pub fn write_sorted_run(
    mf: &mut Manifest,
    seq: Option<u64>,
    key_len: u32,
    rec_len: u32,
    records: &[u8],
) -> (r: Result<(SortedRunPath, Vec<u8>), StoreError>)
    ensures
        match r {
            Ok((run, file)) => {
                &&& write_err(key_len, rec_len, records@) is None
                &&& file@ == run_file(key_len, rec_len, records@)
                &&& run == (SortedRunPath {
                    seq,
                    count: (records@.len() as int / rec_len as int) as u64,
                    rec_len,
                    key_len,
                    body_crc32: crc_of(records@),
                })
                &&& committed(old(mf).entries@, final(mf).entries@, run)
            },
            Err(e) => write_err(key_len, rec_len, records@) == Some(e) && final(mf).entries@ == old(
                mf,
            ).entries@,
        },
{
    let (run, file) = write_sorted_run_file(seq, key_len, rec_len, records)?;
    commit_run_to_catalog(mf, &run);
    Ok((run, file))
}

/// The catalog with the run in place of an entry with its number; a run without a
/// number is not listed.
pub open spec fn committed(a: Seq<ManifestEntry>, b: Seq<ManifestEntry>, run: SortedRunPath) -> bool {
    match entry_of(run) {
        None => b == a,
        Some(x) => sorted_by_rank(b) && b.to_multiset() == kept_entries(
            a,
            seq![x.seq],
            a.len() as int,
        ).push(x).to_multiset() && forall|e: ManifestEntry| #[trigger]
            b.contains(e) <==> e == x || (a.contains(e) && e.seq != x.seq),
    }
}

/// Numbers of the runs that have one.
pub open spec fn run_seqs(inputs: Seq<SortedRun>) -> Seq<u64>
    decreases inputs.len(),
{
    if inputs.len() == 0 {
        Seq::empty()
    } else {
        match inputs.last().head.seq {
            Some(x) => run_seqs(inputs.drop_last()).push(x),
            None => run_seqs(inputs.drop_last()),
        }
    }
}

/// The catalog with the run in place of the runs it was merged from and of an entry
/// with its number; a run without a number changes nothing.
pub open spec fn merged_in(
    a: Seq<ManifestEntry>,
    b: Seq<ManifestEntry>,
    inputs: Seq<SortedRun>,
    run: SortedRunPath,
) -> bool {
    match entry_of(run) {
        None => b == a,
        Some(x) => sorted_by_rank(b) && b.to_multiset() == kept_entries(
            a,
            run_seqs(inputs).push(x.seq),
            a.len() as int,
        ).push(x).to_multiset() && forall|e: ManifestEntry| #[trigger]
            b.contains(e) <==> e == x || (a.contains(e) && !run_has_seq(inputs, e.seq) && e.seq
                != x.seq),
    }
}

/// Lists a run that was written before.
pub fn commit_run_to_catalog(mf: &mut Manifest, run: &SortedRunPath)
    ensures
        committed(old(mf).entries@, final(mf).entries@, *run),
{
    mf.insert(run)
}

/// Drops a run from the catalog; its file is left.
pub fn detach_run(mf: &mut Manifest, run: &SortedRunPath)
    ensures
        final(mf).entries@ == (match run.seq {
            None => old(mf).entries@,
            Some(seq) => kept_entries(
                old(mf).entries@,
                seq![seq],
                old(mf).entries@.len() as int,
            ),
        }),
{
    mf.detach(run)
}

/// After a commit the catalog lists the run, with no other entry of its number.
pub proof fn law_commit_lists(a: Seq<ManifestEntry>, b: Seq<ManifestEntry>, run: SortedRunPath)
    requires
        committed(a, b, run),
        run.seq is Some,
    ensures
        entry_of(run) is Some,
        b.contains(entry_of(run)->0),
        forall|e: ManifestEntry| #[trigger]
            b.contains(e) && e.seq == run.seq->0 ==> e == entry_of(run)->0,
{
}

/// True for the name of a claimed run file.
pub fn is_claim_name(name: &[u8]) -> (r: bool)
    ensures
        r == is_claim(name@),
{
    let end: [u8; 8] = [0x2e, 0x72, 0x75, 0x6e, 0x2e, 0x6d, 0x61, 0x74];
    proof {
        assert(end@ =~= run_ending() + mat_ending());
    }
    name.len() >= 8 && bytes_at(name, name.len() - 8, end.as_slice())
}

/// Claims a run for a materialize: its file gets the returned name and its entry goes
/// from the catalog. `None` for a run that is claimed already.
pub fn claim_run_for_materialize(mf: &mut Manifest, run: &SortedRunPath, name: &[u8]) -> (r:
    Option<Vec<u8>>)
    ensures
        match r {
            None => is_claim(name@) && final(mf).entries@ == old(mf).entries@,
            Some(n) => {
                &&& !is_claim(name@)
                &&& n@ == name@ + mat_ending()
                &&& match run.seq {
                    None => final(mf).entries@ == old(mf).entries@,
                    Some(seq) => {
                        &&& forall|e: ManifestEntry| #[trigger]
                            final(mf).entries@.contains(e) <==> old(mf).entries@.contains(e)
                                && e.seq != seq
                        &&& final(mf).entries@ == kept_entries(
                            old(mf).entries@,
                            seq![seq],
                            old(mf).entries@.len() as int,
                        )
                    },
                }
            },
        },
{
    if is_claim_name(name) {
        return None;
    }
    mf.detach(run);
    let mut n = copy_range(name, 0, name.len());
    let end: [u8; 4] = [0x2e, 0x6d, 0x61, 0x74];
    push_slice(&mut n, end.as_slice());
    proof {
        assert(end@ =~= mat_ending());
        assert(name@.subrange(0, name@.len() as int) =~= name@);
    }
    Some(n)
}

/// A claimed run file is one that a later scan for claims finds, and no run file.
pub proof fn law_claims_are_found(seq: u64)
    ensures
        is_claim(run_name(seq) + mat_ending()),
        !is_claim(run_name(seq)),
{
    let n = run_name(seq);
    crate::text::lemma_dec_padded(seq as nat, 6);
    let d = crate::text::dec_padded(seq as nat, 6);
    let c = n + mat_ending();
    assert(c.subrange(c.len() - 8, c.len() as int) =~= run_ending() + mat_ending());
    assert(n[n.len() - 1] == 0x6e);
    if is_claim(n) {
        let t = n.subrange(n.len() - 8, n.len() as int);
        assert(t[7] == 0x74);
        assert(t[7] == n[n.len() - 1]);
    }
}

/// A claimed run and the file that holds it.
#[derive(Clone, Copy, Debug, PartialEq, Eq)]
pub struct ClaimedRun {
    /// Which of the files it is.
    pub file: usize,
    pub run: SortedRunPath,
}

/// Claims among the first `n` files that can be opened.
pub open spec fn claim_runs(files: Seq<RunFile>, n: int) -> Seq<ClaimedRun>
    decreases n,
{
    if n <= 0 {
        Seq::empty()
    } else {
        let f = files[n - 1];
        if is_claim(f.name@) && run_open(name_seq(f.name@), f.bytes@) is Ok {
            claim_runs(files, n - 1).push(
                ClaimedRun {
                    file: (n - 1) as usize,
                    run: run_open(name_seq(f.name@), f.bytes@)->Ok_0,
                },
            )
        } else {
            claim_runs(files, n - 1)
        }
    }
}

/// Claimed runs of a materialize that was broken off, in the order of the files, each with
/// its file. A claim that cannot be opened is skipped.
pub fn list_materialize_claims(files: &Vec<RunFile>) -> (r: Vec<ClaimedRun>)
    ensures
        r@ == claim_runs(files@, files@.len() as int),
{
    let mut out: Vec<ClaimedRun> = Vec::new();
    let mut i: usize = 0;
    proof {
        assert(out@ =~= Seq::empty());
    }
    while i < files.len()
        invariant
            i <= files@.len(),
            out@ == claim_runs(files@, i as int),
        decreases files@.len() - i,
    {
        if is_claim_name(files[i].name.as_slice()) {
            let seq = seq_from_path(files[i].name.as_slice());
            match open_run(seq, files[i].bytes.as_slice()) {
                Ok(run) => {
                    out.push(ClaimedRun { file: i, run });
                },
                Err(_) => {},
            }
        }
        i += 1;
    }
    out
}

/// Numbers of the runs.
pub open spec fn run_has_seq(inputs: Seq<SortedRun>, s: u64) -> bool {
    exists|i: int| 0 <= i < inputs.len() && (#[trigger] inputs[i]).head.seq == Some(s)
}

/// Merges runs into one. With a durable policy the inputs' checksums are held against
/// their records first, and the catalog then lists the merged run in place of the
/// inputs. Of no runs the result is an empty run of 44-byte records.
pub fn merge_runs_with_policy(
    mf: &mut Manifest,
    inputs: &Vec<SortedRun>,
    out_seq: Option<u64>,
    policy: RunWritePolicy,
) -> (r: Result<MergeToFileResult, StoreError>)
    requires
        inputs_ok(inputs@),
    ensures
        inputs@.len() == 0 ==> r is Ok && merged_file(r->Ok_0, 32, 44, Seq::empty(), out_seq),
        inputs@.len() > 0 ==> match r {
            Ok(res) => exists|body: Seq<u8>| #[trigger]
                is_merge(
                    inputs@,
                    whole(inputs@),
                    inputs@[0].head.key_len as int,
                    inputs@[0].head.rec_len as int,
                    body,
                ) && merged_file(
                    res,
                    inputs@[0].head.key_len,
                    inputs@[0].head.rec_len,
                    body,
                    out_seq,
                ) && !lens_mismatch(inputs@) && !(policy.durable && any_crc_bad(inputs@)),
            Err(e) => if lens_mismatch(inputs@) {
                e == StoreError::Corrupt("sorted run: merge len mismatch")
            } else {
                policy.durable && any_crc_bad(inputs@) && e == StoreError::Corrupt(
                    "sorted run: body CRC mismatch",
                )
            },
        },
        r is Err ==> final(mf).entries@ == old(mf).entries@,
        r is Ok && inputs@.len() > 0 && !policy.durable ==> final(mf).entries@ == old(mf).entries@,
        r is Ok && inputs@.len() > 0 && policy.durable ==> merged_in(
            old(mf).entries@,
            final(mf).entries@,
            inputs@,
            r->Ok_0.run,
        ),
        inputs@.len() == 0 ==> committed(old(mf).entries@, final(mf).entries@, r->Ok_0.run),
        inputs@.len() > 0 && r is Ok ==> merge_holds(inputs@, r->Ok_0),
{
    if inputs.len() == 0 {
        let none: Vec<u8> = Vec::new();
        proof {
            assert(none@ =~= Seq::<u8>::empty());
        }
        let (run, file) = run_bytes(out_seq, 32, 44, none.as_slice());
        mf.insert(&run);
        return Ok(MergeToFileResult { run, file, max_u64_at_32: 0 });
    }
    let merged = match merge_runs_to_file_with_policy(inputs, out_seq, policy.durable) {
        Ok(m) => m,
        Err(e) => {
            return Err(e);
        },
    };
    if policy.durable {
        let seqs = input_seqs(inputs);
        mf.merge_commit(&seqs, &merged.run);
    }
    Ok(merged)
}

/// Merges runs into a new run file; checksums are not checked and the catalog is left.
pub fn merge_runs_to_file(inputs: &Vec<SortedRun>, out_seq: Option<u64>) -> (r: Result<
    MergeToFileResult,
    StoreError,
>)
    requires
        inputs_ok(inputs@),
    ensures
        inputs@.len() == 0 ==> r is Ok && merged_file(r->Ok_0, 40, 40, Seq::empty(), out_seq),
        inputs@.len() > 0 ==> match r {
            Ok(res) => exists|body: Seq<u8>| #[trigger]
                is_merge(
                    inputs@,
                    whole(inputs@),
                    inputs@[0].head.key_len as int,
                    inputs@[0].head.rec_len as int,
                    body,
                ) && merged_file(
                    res,
                    inputs@[0].head.key_len,
                    inputs@[0].head.rec_len,
                    body,
                    out_seq,
                ) && !lens_mismatch(inputs@),
            Err(e) => lens_mismatch(inputs@) && e == StoreError::Corrupt(
                "sorted run: merge len mismatch",
            ),
        },
        inputs@.len() > 0 && r is Ok ==> merge_holds(inputs@, r->Ok_0),
{
    merge_runs_to_file_with_policy(inputs, out_seq, false)
}

/// Merges runs into one that the catalog lists.
pub fn merge_runs(mf: &mut Manifest, inputs: &Vec<SortedRun>, out_seq: Option<u64>) -> (r: Result<
    MergeToFileResult,
    StoreError,
>)
    requires
        inputs_ok(inputs@),
    ensures
        inputs@.len() > 0 ==> match r {
            Ok(res) => {
                &&& !lens_mismatch(inputs@)
                &&& !any_crc_bad(inputs@)
                &&& exists|body: Seq<u8>| #[trigger]
                    is_merge(
                        inputs@,
                        whole(inputs@),
                        inputs@[0].head.key_len as int,
                        inputs@[0].head.rec_len as int,
                        body,
                    ) && merged_file(
                        res,
                        inputs@[0].head.key_len,
                        inputs@[0].head.rec_len,
                        body,
                        out_seq,
                    )
                &&& merged_in(old(mf).entries@, final(mf).entries@, inputs@, res.run)
            },
            Err(e) => {
                &&& final(mf).entries@ == old(mf).entries@
                &&& if lens_mismatch(inputs@) {
                    e == StoreError::Corrupt("sorted run: merge len mismatch")
                } else {
                    any_crc_bad(inputs@) && e == StoreError::Corrupt(
                        "sorted run: body CRC mismatch",
                    )
                }
            },
        },
        inputs@.len() == 0 ==> r is Ok && merged_file(r->Ok_0, 32, 44, Seq::empty(), out_seq)
            && committed(old(mf).entries@, final(mf).entries@, r->Ok_0.run),
        inputs@.len() > 0 && r is Ok ==> merge_holds(inputs@, r->Ok_0),
{
    merge_runs_with_policy(mf, inputs, out_seq, RunWritePolicy::catalog())
}

/// Numbers of the runs.
fn input_seqs(inputs: &Vec<SortedRun>) -> (r: Vec<u64>)
    ensures
        r@ == run_seqs(inputs@),
        forall|s: u64| #[trigger] r@.contains(s) <==> run_has_seq(inputs@, s),
{
    let mut out: Vec<u64> = Vec::new();
    let mut i: usize = 0;
    while i < inputs.len()
        invariant
            i <= inputs@.len(),
            out@ == run_seqs(inputs@.subrange(0, i as int)),
            forall|s: u64| #[trigger]
                out@.contains(s) <==> run_has_seq(inputs@.subrange(0, i as int), s),
        decreases inputs@.len() - i,
    {
        let ghost before = out@;
        if let Some(seq) = inputs[i].head.seq {
            out.push(seq);
        }
        proof {
            let p = inputs@.subrange(0, i as int);
            let q = inputs@.subrange(0, i + 1);
            assert(q[i as int] == inputs@[i as int]);
            assert(q.drop_last() =~= p);
            assert forall|s: u64| #[trigger] out@.contains(s) <==> run_has_seq(q, s) by {
                if out@.contains(s) {
                    let a = choose|a: int| 0 <= a < out@.len() && out@[a] == s;
                    if a < before.len() {
                        assert(before.contains(s));
                        let j = choose|j: int|
                            0 <= j < p.len() && (#[trigger] p[j]).head.seq == Some(s);
                        assert(q[j] == p[j]);
                    } else {
                        assert(q[i as int].head.seq == Some(s));
                    }
                }
                if run_has_seq(q, s) {
                    let j = choose|j: int|
                        0 <= j < q.len() && (#[trigger] q[j]).head.seq == Some(s);
                    if j < i {
                        assert(p[j] == q[j]);
                        assert(before.contains(s));
                        let a = choose|a: int| 0 <= a < before.len() && before[a] == s;
                        assert(out@[a] == s);
                    } else {
                        assert(out@[out@.len() - 1] == s);
                    }
                }
            }
        }
        i += 1;
    }
    proof {
        assert(inputs@.subrange(0, i as int) =~= inputs@);
    }
    out
}

} // verus!
