//! Laws on the catalog of runs: what is kept, listed and found.

use vstd::prelude::*;
use crate::run_catalog::{kept_entries, run_entries, unlisted, ManifestEntry};
use crate::run_dir::{claim_runs, entry_run, entry_runs, file_runs, find_file, run_seqs, RunFile};
use crate::sorted_run::{run_open, SortedRun, SortedRunPath};
use crate::text::{name_seq, run_name};

verus! {

/// What is left of a catalog is its entries in their order, without those whose numbers are
/// taken out.
pub proof fn law_kept_entries(es: Seq<ManifestEntry>, gone: Seq<u64>, n: int)
    requires
        0 <= n <= es.len(),
    ensures
        kept_entries(es, gone, n) == es.subrange(0, n).filter(
            |e: ManifestEntry| !gone.contains(e.seq),
        ),
    decreases n,
{
    reveal(Seq::filter);
    let p = es.subrange(0, n);
    if n > 0 {
        law_kept_entries(es, gone, n - 1);
        assert(p.drop_last() =~= es.subrange(0, n - 1));
        assert(p.last() == es[n - 1]);
    }
}

/// The numbers on disk that no entry has come back in their order.
pub proof fn law_unlisted(es: Seq<ManifestEntry>, on_disk: Seq<u64>, n: int)
    requires
        0 <= n <= on_disk.len(),
    ensures
        unlisted(es, on_disk, n) == on_disk.subrange(0, n).filter(
            |s: u64| !(exists|i: int| 0 <= i < es.len() && (#[trigger] es[i]).seq == s),
        ),
    decreases n,
{
    reveal(Seq::filter);
    let p = on_disk.subrange(0, n);
    if n > 0 {
        law_unlisted(es, on_disk, n - 1);
        assert(p.drop_last() =~= on_disk.subrange(0, n - 1));
        assert(p.last() == on_disk[n - 1]);
    }
}

/// `src` are the places in `n` items of those that `sel` selects, in order.
pub open spec fn picks(src: Seq<int>, n: int, sel: spec_fn(int) -> bool) -> bool {
    &&& forall|j: int| 0 <= j < src.len() ==> 0 <= #[trigger] src[j] < n && sel(src[j])
    &&& forall|a: int, b: int| 0 <= a < b < src.len() ==> #[trigger] src[a] < #[trigger] src[b]
    &&& forall|i: int| 0 <= i < n && #[trigger] sel(i) ==> src.contains(i)
}

pub proof fn lemma_picks_push(src: Seq<int>, n: int, sel: spec_fn(int) -> bool)
    requires
        picks(src, n, sel),
        n >= 0,
    ensures
        sel(n) ==> picks(src.push(n), n + 1, sel),
        !sel(n) ==> picks(src, n + 1, sel),
{
    let t = src.push(n);
    assert(t[src.len() as int] == n);
    assert forall|i: int| 0 <= i < n + 1 && #[trigger] sel(i) implies t.contains(i) by {
        if i < n {
            let j = choose|j: int| 0 <= j < src.len() && src[j] == i;
            assert(t[j] == i);
        }
    }
    assert forall|j: int| 0 <= j < t.len() implies 0 <= #[trigger] t[j] < n + 1 && (sel(n)
        ==> sel(t[j])) by {
        if j < src.len() {
            assert(t[j] == src[j]);
        }
    }
    assert forall|a: int, b: int| 0 <= a < b < t.len() implies #[trigger] t[a] < #[trigger] t[b] by {
        assert(t[a] == src[a]);
        if b < src.len() {
            assert(t[b] == src[b]);
        }
    }
}

/// A catalog made anew has an entry for each run with a number, with the fields of the run.
pub proof fn law_run_entries(runs: Seq<SortedRunPath>, n: int) -> (src: Seq<int>)
    requires
        0 <= n <= runs.len(),
    ensures
        picks(src, n, |i: int| runs[i].seq is Some),
        src.len() == run_entries(runs, n).len(),
        forall|j: int|
            0 <= j < src.len() ==> (#[trigger] run_entries(runs, n)[j]) == (ManifestEntry {
                seq: runs[src[j]].seq->0,
                count: runs[src[j]].count,
                key_len: runs[src[j]].key_len,
                rec_len: runs[src[j]].rec_len,
                body_crc32: runs[src[j]].body_crc32,
            }),
    decreases n,
{
    let sel = |i: int| runs[i].seq is Some;
    if n == 0 {
        Seq::empty()
    } else {
        let s = law_run_entries(runs, n - 1);
        lemma_picks_push(s, n - 1, sel);
        let l = run_entries(runs, n);
        let p = run_entries(runs, n - 1);
        if sel(n - 1) {
            let t = s.push(n - 1);
            assert forall|j: int| 0 <= j < t.len() implies (#[trigger] l[j]) == (ManifestEntry {
                seq: runs[t[j]].seq->0,
                count: runs[t[j]].count,
                key_len: runs[t[j]].key_len,
                rec_len: runs[t[j]].rec_len,
                body_crc32: runs[t[j]].body_crc32,
            }) by {
                if j < s.len() {
                    assert(l[j] == p[j]);
                    assert(t[j] == s[j]);
                }
            }
            t
        } else {
            s
        }
    }
}

/// A file is found by its name, the first where two have it, and missed only where none has
/// it.
pub proof fn law_find_file(files: Seq<RunFile>, name: Seq<u8>, i: int)
    requires
        0 <= i <= files.len(),
    ensures
        ({
            let k = find_file(files, name, i);
            &&& i <= k <= files.len()
            &&& forall|j: int| i <= j < k ==> (#[trigger] files[j]).name@ != name
            &&& k < files.len() ==> files[k].name@ == name
        }),
    decreases files.len() - i,
{
    if i < files.len() && files[i].name@ != name {
        law_find_file(files, name, i + 1);
    }
}

/// File `i` is the one of an entry: the first with the name of the entry's run, it opens, and
/// its header is what the entry says.
pub open spec fn file_of_entry(files: Seq<RunFile>, e: ManifestEntry, i: int) -> bool {
    &&& 0 <= i < files.len()
    &&& files[i].name@ == run_name(e.seq)
    &&& forall|j: int| 0 <= j < i ==> (#[trigger] files[j]).name@ != run_name(e.seq)
    &&& run_open(Some(e.seq), files[i].bytes@) matches Ok(run) && run.count == e.count
        && run.key_len == e.key_len && run.rec_len == e.rec_len && (e.body_crc32 == 0
        || run.body_crc32 == 0 || run.body_crc32 == e.body_crc32)
}

/// An entry gives the run of its file, and none where there is no such file.
pub proof fn law_entry_run(files: Seq<RunFile>, e: ManifestEntry)
    ensures
        match entry_run(files, e) {
            Some(r) => exists|i: int|
                #[trigger] file_of_entry(files, e, i) && run_open(Some(e.seq), files[i].bytes@)->Ok_0
                    == r,
            None => forall|i: int| !#[trigger] file_of_entry(files, e, i),
        },
{
    let k = find_file(files, run_name(e.seq), 0);
    law_find_file(files, run_name(e.seq), 0);
    if entry_run(files, e) is Some {
        assert(file_of_entry(files, e, k));
    } else {
        assert forall|i: int| !#[trigger] file_of_entry(files, e, i) by {
            if file_of_entry(files, e, i) {
                if i < k {
                    assert(files[i].name@ != run_name(e.seq));
                } else if k < i {
                    assert(files[k].name@ != run_name(e.seq));
                }
            }
        }
    }
}

/// The runs that a catalog lists are those of its entries, in their order; an entry without
/// its file is left out.
pub proof fn law_entry_runs(files: Seq<RunFile>, es: Seq<ManifestEntry>, n: int) -> (src: Seq<int>)
    requires
        0 <= n <= es.len(),
    ensures
        picks(src, n, |i: int| entry_run(files, es[i]) is Some),
        src.len() == entry_runs(files, es, n).len(),
        forall|j: int|
            0 <= j < src.len() ==> (#[trigger] entry_runs(files, es, n)[j]) == entry_run(
                files,
                es[src[j]],
            )->0,
    decreases n,
{
    let sel = |i: int| entry_run(files, es[i]) is Some;
    if n == 0 {
        Seq::empty()
    } else {
        let s = law_entry_runs(files, es, n - 1);
        lemma_picks_push(s, n - 1, sel);
        let l = entry_runs(files, es, n);
        let p = entry_runs(files, es, n - 1);
        if sel(n - 1) {
            let t = s.push(n - 1);
            assert forall|j: int| 0 <= j < t.len() implies (#[trigger] l[j]) == entry_run(
                files,
                es[t[j]],
            )->0 by {
                if j < s.len() {
                    assert(l[j] == p[j]);
                    assert(t[j] == s[j]);
                }
            }
            t
        } else {
            s
        }
    }
}

/// Without a catalog the runs are the files that open, in their order, each with the number in
/// its name.
pub proof fn law_file_runs(files: Seq<RunFile>, n: int) -> (src: Seq<int>)
    requires
        0 <= n <= files.len(),
    ensures
        picks(src, n, |i: int| run_open(name_seq(files[i].name@), files[i].bytes@) is Ok),
        src.len() == file_runs(files, n).len(),
        forall|j: int|
            0 <= j < src.len() ==> (#[trigger] file_runs(files, n)[j]) == run_open(
                name_seq(files[src[j]].name@),
                files[src[j]].bytes@,
            )->Ok_0,
    decreases n,
{
    let sel = |i: int| run_open(name_seq(files[i].name@), files[i].bytes@) is Ok;
    if n == 0 {
        Seq::empty()
    } else {
        let s = law_file_runs(files, n - 1);
        lemma_picks_push(s, n - 1, sel);
        let l = file_runs(files, n);
        let p = file_runs(files, n - 1);
        if sel(n - 1) {
            let t = s.push(n - 1);
            assert forall|j: int| 0 <= j < t.len() implies (#[trigger] l[j]) == run_open(
                name_seq(files[t[j]].name@),
                files[t[j]].bytes@,
            )->Ok_0 by {
                if j < s.len() {
                    assert(l[j] == p[j]);
                    assert(t[j] == s[j]);
                }
            }
            t
        } else {
            s
        }
    }
}

/// The claims are the files whose names end in `.run.mat` and that open, in their order.
pub proof fn law_claims(files: Seq<RunFile>, n: int) -> (src: Seq<int>)
    requires
        0 <= n <= files.len(),
        files.len() <= usize::MAX,
    ensures
        picks(
            src,
            n,
            |i: int|
                files[i].name@.len() >= 8 && files[i].name@.subrange(
                    files[i].name@.len() - 8,
                    files[i].name@.len() as int,
                ) == seq![0x2eu8, 0x72u8, 0x75u8, 0x6eu8, 0x2eu8, 0x6du8, 0x61u8, 0x74u8]
                    && run_open(name_seq(files[i].name@), files[i].bytes@) is Ok,
        ),
        src.len() == claim_runs(files, n).len(),
        forall|j: int|
            0 <= j < src.len() ==> (#[trigger] claim_runs(files, n)[j]).file == src[j]
                && claim_runs(files, n)[j].run == run_open(
                name_seq(files[src[j]].name@),
                files[src[j]].bytes@,
            )->Ok_0,
    decreases n,
{
    let sel = |i: int|
        files[i].name@.len() >= 8 && files[i].name@.subrange(
            files[i].name@.len() - 8,
            files[i].name@.len() as int,
        ) == seq![0x2eu8, 0x72u8, 0x75u8, 0x6eu8, 0x2eu8, 0x6du8, 0x61u8, 0x74u8] && run_open(
            name_seq(files[i].name@),
            files[i].bytes@,
        ) is Ok;
    if n == 0 {
        Seq::empty()
    } else {
        let s = law_claims(files, n - 1);
        lemma_picks_push(s, n - 1, sel);
        let l = claim_runs(files, n);
        let p = claim_runs(files, n - 1);
        assert(crate::run_dir::run_ending() + crate::run_dir::mat_ending() =~= seq![
            0x2eu8,
            0x72u8,
            0x75u8,
            0x6eu8,
            0x2eu8,
            0x6du8,
            0x61u8,
            0x74u8,
        ]);
        if sel(n - 1) {
            let t = s.push(n - 1);
            assert forall|j: int| 0 <= j < t.len() implies (#[trigger] l[j]).file == t[j]
                && l[j].run == run_open(name_seq(files[t[j]].name@), files[t[j]].bytes@)->Ok_0 by {
                if j < s.len() {
                    assert(l[j] == p[j]);
                    assert(t[j] == s[j]);
                }
            }
            t
        } else {
            s
        }
    }
}

/// The numbers of runs that a merge takes out of the catalog are those that the runs have.
pub proof fn law_run_seqs(inputs: Seq<SortedRun>, s: u64)
    ensures
        run_seqs(inputs).contains(s) <==> exists|i: int|
            0 <= i < inputs.len() && (#[trigger] inputs[i]).head.seq == Some(s),
    decreases inputs.len(),
{
    if inputs.len() > 0 {
        let d = inputs.drop_last();
        law_run_seqs(d, s);
        let l = run_seqs(inputs);
        let p = run_seqs(d);
        if l.contains(s) {
            let j = choose|j: int| 0 <= j < l.len() && l[j] == s;
            if j < p.len() {
                assert(p[j] == s);
                assert(p.contains(s));
                let i = choose|i: int| 0 <= i < d.len() && (#[trigger] d[i]).head.seq == Some(s);
                assert(inputs[i] == d[i]);
            } else {
                assert(inputs[inputs.len() - 1].head.seq == Some(s));
            }
        }
        if exists|i: int| 0 <= i < inputs.len() && (#[trigger] inputs[i]).head.seq == Some(s) {
            let i = choose|i: int|
                0 <= i < inputs.len() && (#[trigger] inputs[i]).head.seq == Some(s);
            if i < d.len() {
                assert(d[i] == inputs[i]);
                assert(p.contains(s));
                let j = choose|j: int| 0 <= j < p.len() && p[j] == s;
                assert(l[j] == s);
            } else {
                assert(l[l.len() - 1] == s);
            }
        }
    }
}

} // verus!
