use rbitcoin_store::crc::crc32;
use rbitcoin_store::error::StoreError;
use rbitcoin_store::run_catalog::{
    load_manifest, open_and_check_against_entry, save_manifest, Manifest, ManifestEntry,
};
use rbitcoin_store::run_dir::{
    claim_run_for_materialize, commit_run_to_catalog, detach_run, is_claim_name,
    list_materialize_claims, list_runs, merge_runs, merge_runs_to_file, merge_runs_with_policy,
    write_sorted_run, ListedRuns, RunFile,
};
use rbitcoin_store::run_merge::{
    for_each_merged_rec, for_each_merged_rec_opts, for_each_merged_rec_shard,
    merge_runs_to_file_with_policy,
};
use rbitcoin_store::scripthash_head::prefix_shard_of;
use rbitcoin_store::sorted_run::{
    lookup_key, open_run, read_run_body, read_run_record_at, shard_record_starts as starts_of,
    shard_record_starts_many, verify_run_body, write_sorted_run_file, RunWritePolicy, SortedRun,
};
use rbitcoin_store::text::{next_run_path, seq_from_path};

const HEADER_LEN: usize = 32;

/// A directory of runs, in memory.
struct Dir {
    manifest: Option<Vec<u8>>,
    files: Vec<RunFile>,
}

impl Dir {
    fn new() -> Self {
        Dir {
            manifest: None,
            files: Vec::new(),
        }
    }

    fn put(&mut self, name: &[u8], bytes: Vec<u8>) {
        self.files.retain(|f| f.name != name);
        self.files.push(RunFile {
            name: name.to_vec(),
            bytes,
        });
        self.files.sort_by(|a, b| a.name.cmp(&b.name));
    }

    fn remove(&mut self, name: &[u8]) {
        self.files.retain(|f| f.name != name);
    }

    fn has(&self, name: &[u8]) -> bool {
        self.files.iter().any(|f| f.name == name)
    }

    fn catalog(&self) -> Manifest {
        match &self.manifest {
            Some(b) => load_manifest(b).unwrap().unwrap(),
            None => Manifest::empty(),
        }
    }

    /// Writes a run and lists it in the catalog.
    fn write(&mut self, seq: u64, key_len: u32, rec_len: u32, records: &[u8]) -> SortedRun {
        let mut mf = self.catalog();
        let (_, file) = write_sorted_run(&mut mf, Some(seq), key_len, rec_len, records).unwrap();
        self.put(&next_run_path(seq), file);
        self.manifest = Some(save_manifest(&mf));
        self.open(seq)
    }

    fn open(&self, seq: u64) -> SortedRun {
        let name = next_run_path(seq);
        let f = self.files.iter().find(|f| f.name == name).unwrap();
        let head = open_run(Some(seq), &f.bytes).unwrap();
        let body = read_run_body(&head, &f.bytes).unwrap();
        SortedRun { head, body }
    }

    fn list(&mut self) -> ListedRuns {
        let runs: Vec<RunFile> = self
            .files
            .iter()
            .filter(|f| f.name.ends_with(b".run"))
            .map(|f| RunFile {
                name: f.name.clone(),
                bytes: f.bytes.clone(),
            })
            .collect();
        let l = list_runs(self.manifest.as_deref(), &runs).unwrap();
        for s in &l.orphans {
            self.remove(&next_run_path(*s));
        }
        if let Some(b) = &l.rebuilt {
            self.manifest = Some(b.clone());
        }
        l
    }

    /// Merges runs, lists the result and removes the inputs.
    fn merge(&mut self, inputs: Vec<SortedRun>, out: u64) -> Result<SortedRun, StoreError> {
        let mut mf = self.catalog();
        let m = merge_runs(&mut mf, &inputs, Some(out))?;
        self.manifest = Some(save_manifest(&mf));
        self.put(&next_run_path(out), m.file);
        for r in &inputs {
            self.remove(&next_run_path(r.head.seq().unwrap()));
        }
        Ok(self.open(out))
    }
}

fn rec(key: u8, tag: u8) -> [u8; 44] {
    let mut r = [0u8; 44];
    r[0] = key;
    r[32] = tag;
    r
}

fn sh_rec(sh0: u8, fk: u64) -> [u8; 40] {
    let mut r = [0u8; 40];
    r[0] = sh0;
    r[32..40].copy_from_slice(&fk.to_le_bytes());
    r
}

fn run_of(seq: u64, key_len: u32, rec_len: u32, records: &[u8]) -> SortedRun {
    Dir::new().write(seq, key_len, rec_len, records)
}

fn fks_of(body: &[u8]) -> Vec<u64> {
    body.chunks_exact(40)
        .map(|c| u64::from_le_bytes(c[32..40].try_into().unwrap()))
        .collect()
}

#[test]
fn crc32_known_vector() {
    // CRC-32/ISO-HDLC of "123456789"
    assert_eq!(crc32(b"123456789"), 0xCBF4_3926);
}

#[test]
fn write_read_roundtrip() {
    let mut body = Vec::new();
    body.extend_from_slice(&rec(1, 10));
    body.extend_from_slice(&rec(2, 20));
    let (_, file) = write_sorted_run_file(Some(1), 32, 44, &body).unwrap();
    let run = open_run(Some(1), &file).unwrap();
    assert_eq!(run.count, 2);
    assert_ne!(run.body_crc32, 0);
    let b = read_run_body(&run, &file).unwrap();
    assert_eq!(b.len(), 88);
    assert_eq!(b[0], 1);
    assert_eq!(b[32], 10);
    verify_run_body(&run, &b).unwrap();
}

#[test]
fn body_crc_detects_corruption() {
    let body = rec(1, 10);
    let (_, mut raw) = write_sorted_run_file(Some(1), 32, 44, &body).unwrap();
    // Flip a body byte.
    raw[HEADER_LEN] ^= 0xFF;
    let run = open_run(Some(1), &raw).unwrap();
    assert!(read_run_body(&run, &raw).is_err());
    assert!(verify_run_body(&run, &raw[HEADER_LEN..]).is_err());
}

#[test]
fn manifest_tracks_write_and_merge() {
    let mut d = Dir::new();
    let mut a = Vec::new();
    a.extend_from_slice(&rec(1, 1));
    a.extend_from_slice(&rec(3, 3));
    d.write(1, 32, 44, &a);
    let mut b = Vec::new();
    b.extend_from_slice(&rec(2, 2));
    b.extend_from_slice(&rec(4, 4));
    d.write(2, 32, 44, &b);

    let listed = d.list().runs;
    assert_eq!(listed.len(), 2);
    assert_eq!(d.catalog().entries.len(), 2);

    let r1 = d.open(1);
    let r2 = d.open(2);
    let merged = d.merge(vec![r1, r2], 3).unwrap();
    assert_eq!(merged.head.count, 4);
    assert!(!d.has(b"000001.run"));
    assert!(!d.has(b"000002.run"));

    let listed = d.list().runs;
    assert_eq!(listed.len(), 1);
    assert_eq!(listed[0].seq(), Some(3));
    let mf = d.catalog();
    assert_eq!(mf.entries.len(), 1);
    assert_eq!(mf.entries[0].seq, 3);
}

#[test]
fn list_runs_ignores_orphan_not_in_manifest() {
    let mut d = Dir::new();
    d.write(1, 32, 44, &rec(1, 1));
    // Plant an orphan that the catalog does not list.
    let (_, file) = write_sorted_run_file(Some(99), 32, 44, &rec(9, 9)).unwrap();
    d.put(b"000099.run", file);
    let runs = d.list().runs;
    assert_eq!(runs.len(), 1);
    assert_eq!(runs[0].seq(), Some(1));
    assert!(!d.has(b"000099.run"), "orphan should be removed");
}

#[test]
fn list_materialize_claims_finds_orphan_mats() {
    let mut d = Dir::new();
    let run = d.write(1, 32, 44, &rec(1, 1));
    let mut mf = d.catalog();
    let name = claim_run_for_materialize(&mut mf, &run.head, b"000001.run").unwrap();
    d.manifest = Some(save_manifest(&mf));
    let bytes = d.files[0].bytes.clone();
    d.remove(b"000001.run");
    d.put(&name, bytes);
    // MANIFEST empty; list_runs empty; claims still visible.
    assert!(d.list().runs.is_empty());
    let mats = list_materialize_claims(&d.files);
    assert_eq!(mats.len(), 1);
    assert_eq!(d.files[mats[0].file].name, name);
    assert_eq!(mats[0].run.count, 1);
    // Re-claim is idempotent (open as-is).
    assert!(claim_run_for_materialize(&mut mf, &mats[0].run, &name).is_none());
}

#[test]
fn sh_merge_orders_fks_across_runs_and_dedups() {
    let mut a = Vec::new();
    a.extend_from_slice(&sh_rec(0xAA, 1));
    a.extend_from_slice(&sh_rec(0xAA, 5));
    a.extend_from_slice(&sh_rec(0xAA, 255));
    a.extend_from_slice(&sh_rec(0xAA, 257));
    let mut b = Vec::new();
    b.extend_from_slice(&sh_rec(0xAA, 2));
    b.extend_from_slice(&sh_rec(0xAA, 5));
    b.extend_from_slice(&sh_rec(0xAA, 256));
    let inputs = vec![run_of(1, 40, 40, &a), run_of(2, 40, 40, &b)];
    let fks = fks_of(&for_each_merged_rec(&inputs).unwrap());
    assert_eq!(
        fks,
        vec![1, 2, 5, 255, 256, 257],
        "merge must numeric-FK-order (255<256) and dedup"
    );
    let merged = merge_runs_to_file(&inputs, Some(9)).unwrap();
    assert_eq!(merged.run.count, 6);
    assert_eq!(merged.run.key_len, 40);
    let body = read_run_body(&merged.run, &merged.file).unwrap();
    assert_eq!(fks_of(&body), vec![1, 2, 5, 255, 256, 257]);
}

#[test]
fn loser_tree_matches_heap_shuffle() {
    let key = |r: &[u8; 40]| {
        let fk = u64::from_le_bytes(r[32..40].try_into().unwrap());
        (r[..32].to_vec(), fk)
    };
    let mut expected = Vec::new();
    let mut runs = Vec::new();
    for r in 0..7u8 {
        let mut recs: Vec<[u8; 40]> = Vec::new();
        for i in 0..5u8 {
            let key = (r.wrapping_mul(3).wrapping_add(i)) % 11;
            let rec = sh_rec(key, u64::from(r) * 10 + u64::from(i));
            recs.push(rec);
            expected.push(rec);
        }
        recs.sort_by_key(key);
        let mut sorted = Vec::new();
        for rec in &recs {
            sorted.extend_from_slice(rec);
        }
        runs.push(run_of(u64::from(r), 40, 40, &sorted));
    }
    expected.sort_by_key(key);
    expected.dedup();
    let out = for_each_merged_rec(&runs).unwrap();
    let got: Vec<&[u8]> = out.chunks_exact(40).collect();
    assert_eq!(got, expected);
}

#[test]
fn for_each_merged_rec_orders_keys() {
    // key bytes: high first so merge must re-order
    let inputs = vec![run_of(1, 32, 44, &rec(2, 20)), run_of(2, 32, 44, &rec(1, 10))];
    let out = for_each_merged_rec(&inputs).unwrap();
    let keys: Vec<u8> = out.chunks_exact(44).map(|r| r[0]).collect();
    assert_eq!(keys, vec![1, 2]);
}

#[test]
fn claim_for_materialize_survives_list_runs_orphan_cleanup() {
    let mut d = Dir::new();
    let run = d.write(1, 32, 44, &rec(1, 1));
    let mut mf = d.catalog();
    let name = claim_run_for_materialize(&mut mf, &run.head, b"000001.run").unwrap();
    assert!(name.ends_with(b".run.mat"));
    assert!(is_claim_name(&name));
    d.manifest = Some(save_manifest(&mf));
    let bytes = d.files[0].bytes.clone();
    d.remove(b"000001.run");
    d.put(&name, bytes.clone());
    // list_runs must not delete the claimed body.
    assert!(d.list().runs.is_empty());
    assert!(d.has(&name), "claimed .run.mat must not be treated as orphan");
    // Body still readable for materialize.
    let claimed = open_run(seq_from_path(&name), &bytes).unwrap();
    assert_eq!(read_run_body(&claimed, &bytes).unwrap().len(), 44);
}

#[test]
fn list_runs_skips_non_run() {
    let mut d = Dir::new();
    d.write(1, 32, 44, &rec(1, 1));
    d.put(b"meta", b"x".to_vec());
    assert_eq!(d.list().runs.len(), 1);
    assert!(d.has(b"meta"));
}

/// open_run / list_runs error arms: bad magic, truncated, trailing garbage, orphan cleanup.
#[test]
fn open_run_and_list_error_arms() {
    // Bad magic
    assert!(matches!(
        open_run(Some(10), &vec![0u8; 64]),
        Err(StoreError::Corrupt(_))
    ));
    // Truncated header
    assert!(open_run(Some(11), b"SRUNSORT").is_err());
    // Valid run + trailing garbage rejected for v2
    let (_, mut file) = write_sorted_run_file(Some(12), 32, 44, &rec(1, 1)).unwrap();
    file.extend_from_slice(b"GARBAGE");
    assert!(matches!(
        open_run(Some(12), &file),
        Err(StoreError::Corrupt(_))
    ));
    // A record that is not all there.
    let (_, mut short) = write_sorted_run_file(Some(12), 32, 44, &rec(1, 1)).unwrap();
    short.truncate(50);
    assert_eq!(
        open_run(Some(12), &short),
        Err(StoreError::Corrupt("sorted run: truncated body"))
    );
    let mut clean = Dir::new();
    clean.write(1, 32, 44, &rec(1, 1));
    assert_eq!(clean.list().runs.len(), 1);
    clean.write(99, 32, 44, &rec(9, 9));
    assert!(!clean.list().runs.is_empty());
    // detach_run / lookup miss
    let r = clean.open(1);
    assert!(lookup_key(&r, &[0xff; 32]).unwrap().is_none());
    let mut mf = clean.catalog();
    mf.detach(&r.head);
    assert!(mf.entries.iter().all(|e| e.seq != 1));
}

#[test]
fn open_run_v1_and_unsupported_version_and_lookup_short() {
    // Unsupported version with current magic.
    let mut hdr = vec![0u8; 64];
    hdr[0..8].copy_from_slice(b"RBSORT02");
    hdr[8..12].copy_from_slice(&99u32.to_le_bytes());
    assert!(matches!(
        open_run(Some(20), &hdr),
        Err(StoreError::Corrupt(_))
    ));
    // V1 magic with wrong version.
    let mut h2 = vec![0u8; 64];
    h2[0..8].copy_from_slice(b"RBSORT01");
    h2[8..12].copy_from_slice(&99u32.to_le_bytes());
    assert!(matches!(
        open_run(Some(21), &h2),
        Err(StoreError::Corrupt(_))
    ));
    // Valid run: short lookup key.
    let run = run_of(22, 32, 44, &rec(1, 1));
    assert!(matches!(
        lookup_key(&run, &[0u8; 8]),
        Err(StoreError::Corrupt(_))
    ));
    // Empty body.
    let empty = run_of(23, 32, 44, &[]);
    assert!(lookup_key(&empty, &[0u8; 32]).unwrap().is_none());
}

#[test]
fn merge_two_runs_sorted() {
    let mut d = Dir::new();
    let mut a = Vec::new();
    a.extend_from_slice(&rec(1, 1));
    a.extend_from_slice(&rec(3, 3));
    let r1 = d.write(1, 32, 44, &a);
    let mut b = Vec::new();
    b.extend_from_slice(&rec(2, 2));
    b.extend_from_slice(&rec(4, 4));
    let r2 = d.write(2, 32, 44, &b);
    let merged = d.merge(vec![r1, r2], 3).unwrap();
    assert_eq!(merged.head.count, 4);
    let body = merged.body;
    assert_eq!(body[0], 1);
    assert_eq!(body[44], 2);
    assert_eq!(body[88], 3);
    assert_eq!(body[132], 4);
    assert!(!d.has(b"000001.run"));
    assert!(!d.has(b"000002.run"));
}

#[test]
fn lookup_key_finds_record() {
    let mut body = Vec::new();
    for i in [1u8, 3, 5, 7, 9] {
        body.extend_from_slice(&rec(i, i.wrapping_mul(10)));
    }
    let run = run_of(1, 32, 44, &body);
    let hit = lookup_key(&run, &rec(5, 0)[..32]).unwrap().unwrap();
    assert_eq!(hit[32], 50);
    assert!(lookup_key(&run, &rec(4, 0)[..32]).unwrap().is_none());
}

#[test]
fn merge_shard_slice() {
    let mut a = Vec::new();
    a.extend_from_slice(&sh_rec(0x00, 1));
    a.extend_from_slice(&sh_rec(0x10, 2));
    a.extend_from_slice(&sh_rec(0x80, 3));
    let mut b = Vec::new();
    b.extend_from_slice(&sh_rec(0x08, 4));
    b.extend_from_slice(&sh_rec(0x90, 5));
    b.extend_from_slice(&sh_rec(0xc0, 6));
    let inputs = vec![run_of(1, 40, 40, &a), run_of(2, 40, 40, &b)];
    let cuts: Vec<Vec<u64>> = inputs.iter().map(|r| starts_of(r, 4)).collect();
    for s in 0..4 {
        let from_slice = for_each_merged_rec_shard(&inputs, &cuts, s, false).unwrap();
        let all = for_each_merged_rec_opts(&inputs, false).unwrap();
        let mut filtered = Vec::new();
        for rec in all.chunks_exact(40) {
            let mut full = [0u8; 32];
            full.copy_from_slice(&rec[..32]);
            if prefix_shard_of(&full, 4) == s {
                filtered.extend_from_slice(rec);
            }
        }
        assert_eq!(from_slice, filtered, "shard {s}");
    }
}

#[test]
fn shard_record_starts() {
    let mut body = Vec::new();
    for sh0 in [0x00u8, 0x10, 0x3f, 0x80, 0x90] {
        body.extend_from_slice(&sh_rec(sh0, 1));
    }
    let run = run_of(1, 40, 40, &body);
    let starts = starts_of(&run, 4);
    assert_eq!(starts, vec![0, 3, 3, 5, 5]);
    for i in 0..5 {
        let rec = read_run_record_at(&run, i as u64).unwrap();
        let mut full = [0u8; 32];
        full.copy_from_slice(&rec[..32]);
        let s = prefix_shard_of(&full, 4);
        assert!(
            (starts[s] as usize..starts[s + 1] as usize).contains(&i),
            "rec {i} shard {s} not in {:?}",
            starts
        );
    }
    assert_eq!(
        read_run_record_at(&run, 5),
        Err(StoreError::Corrupt("sorted run: record index past end"))
    );
}

#[test]
fn shard_record_starts_many_matches_serial() {
    let mut runs = Vec::new();
    for seq in 1..=4u64 {
        let mut body = Vec::new();
        for i in 0..8u8 {
            let sh0 = i.wrapping_mul(32).saturating_add(seq as u8);
            body.extend_from_slice(&sh_rec(sh0, seq * 10 + u64::from(i)));
        }
        runs.push(run_of(seq, 40, 40, &body));
    }
    let serial: Vec<Vec<u64>> = runs.iter().map(|r| starts_of(r, 4)).collect();
    assert_eq!(shard_record_starts_many(&runs, 4), serial);
    runs.truncate(1);
    assert_eq!(shard_record_starts_many(&runs, 4), serial[..1]);
}

#[test]
fn run_cursor_range() {
    let mut body = Vec::new();
    for i in 0..100u8 {
        body.extend_from_slice(&rec(i, i));
    }
    let inputs = vec![run_of(1, 32, 44, &body)];
    let out = for_each_merged_rec_shard(&inputs, &vec![vec![40, 50]], 0, false).unwrap();
    let keys: Vec<u8> = out.chunks_exact(44).map(|r| r[0]).collect();
    assert_eq!(keys, (40u8..50).collect::<Vec<_>>());
}

#[test]
fn manifest_bad_magic_truncated_and_merge_mismatch() {
    // truncated MANIFEST
    assert!(load_manifest(b"short").unwrap().is_none());
    let good = save_manifest(&Manifest::empty());
    assert!(load_manifest(&good).unwrap().is_some());
    // bad magic
    let mut bad = good.clone();
    bad[0] ^= 0xff;
    assert!(load_manifest(&bad).unwrap().is_none());
    // unsupported version
    let mut badv = good[..8].to_vec();
    badv.extend_from_slice(&99u32.to_le_bytes());
    badv.extend_from_slice(&0u32.to_le_bytes());
    assert!(load_manifest(&badv).unwrap().is_none());

    // merge len mismatch
    let inputs = vec![run_of(1, 32, 44, &rec(1, 1)), run_of(2, 16, 32, &[0u8; 32])];
    let mut mf = Manifest::empty();
    assert!(matches!(
        merge_runs(&mut mf, &inputs, Some(3)),
        Err(StoreError::Corrupt(_))
    ));
    assert!(matches!(
        for_each_merged_rec(&inputs),
        Err(StoreError::Corrupt(_))
    ));

    // open bad magic run
    assert!(open_run(None, b"notasortrunfile!!!!!!!!!!!!!").is_err());

    // no claims without files
    assert!(list_materialize_claims(&Vec::new()).is_empty());
}

/// MANIFEST missing/bad entries, orphan scan, rebuild without MANIFEST.
#[test]
fn list_runs_manifest_missing_bad_and_legacy_heal() {
    let mut d = Dir::new();
    // Catalog two runs via normal write.
    d.write(1, 32, 44, &rec(1, 1));
    d.write(2, 32, 44, &rec(2, 2));
    // Delete seq=2 file but leave MANIFEST entry: missing path arm.
    d.remove(&next_run_path(2));
    let listed = d.list().runs;
    assert_eq!(listed.len(), 1);
    assert_eq!(listed[0].seq(), Some(1));

    // Plant a corrupt run listed as seq=3: write MANIFEST with extra entry.
    let mut mf = d.catalog();
    mf.entries.push(ManifestEntry {
        seq: 3,
        key_len: 32,
        rec_len: 44,
        count: 1,
        body_crc32: 0xdead_beef,
    });
    d.manifest = Some(save_manifest(&mf));
    // Bad file that fails open (wrong magic)
    d.put(&next_run_path(3), b"notasortrunfile!!!!!!!!!!!!!".to_vec());
    assert_eq!(d.list().runs.len(), 1); // only seq=1 valid

    // CRC mismatch against manifest when body_crc32 both non-zero.
    let run4 = d.write(4, 32, 44, &rec(4, 4)).head;
    let mut mf = d.catalog();
    if let Some(e) = mf.entries.iter_mut().find(|e| e.seq == 4) {
        e.body_crc32 = run4.body_crc32 ^ 0xffff_ffff;
    }
    d.manifest = Some(save_manifest(&mf));
    let expect = ManifestEntry {
        seq: 4,
        key_len: 32,
        rec_len: 44,
        count: 1,
        body_crc32: run4.body_crc32 ^ 0xffff_ffff,
    };
    let file4 = d
        .files
        .iter()
        .find(|f| f.name == next_run_path(4))
        .unwrap()
        .bytes
        .clone();
    assert!(open_and_check_against_entry(&file4, &expect).is_err());
    // seq=4 skipped due to CRC
    assert!(!d.list().runs.iter().any(|r| r.seq() == Some(4)));

    // Without a MANIFEST a valid run rebuilds the catalog.
    let mut d2 = Dir::new();
    let (_, file) = write_sorted_run_file(Some(7), 32, 44, &rec(7, 7)).unwrap();
    d2.put(&next_run_path(7), file);
    assert!(d2.manifest.is_none());
    assert_eq!(d2.list().runs.len(), 1);
    assert_eq!(d2.catalog().entries.len(), 1);

    // write errors: bad key/rec, body not multiple
    assert!(write_sorted_run_file(None, 0, 44, &[]).is_err());
    assert!(write_sorted_run_file(None, 32, 16, &[]).is_err());
    assert!(write_sorted_run_file(None, 32, 44, &[1, 2, 3]).is_err());

    // empty dir
    assert!(Dir::new().list().runs.is_empty());
}

#[test]
fn detach_remove_next_path_and_opts() {
    let mut d = Dir::new();
    assert_eq!(next_run_path(1), b"000001.run");
    let mut body = Vec::new();
    body.extend_from_slice(&rec(1, 10));
    body.extend_from_slice(&rec(2, 20));
    body.extend_from_slice(&rec(3, 30));
    d.write(1, 32, 44, &body);
    assert_eq!(d.list().runs.len(), 1);

    // Empty body (cataloged as seq 2)
    let empty = d.write(2, 32, 44, &[]);
    assert_eq!(empty.head.count, 0);
    assert!(empty.body.is_empty());
    verify_run_body(&empty.head, &empty.body).unwrap();

    // for_each_merged with opts
    let out = for_each_merged_rec_opts(&vec![d.open(1)], false).unwrap();
    assert_eq!(out.len(), 3 * 44);
    assert!(for_each_merged_rec_opts(&Vec::new(), true).unwrap().is_empty());

    // detach leaves file but drops catalog entry
    let run = d.open(1).head;
    let mut mf = d.catalog();
    detach_run(&mut mf, &run);
    d.manifest = Some(save_manifest(&mf));
    assert!(d.has(b"000001.run"));
    assert!(d.catalog().entries.iter().all(|e| e.seq != 1));

    // bad lens
    assert!(matches!(
        write_sorted_run_file(None, 0, 44, &[]),
        Err(StoreError::Corrupt(_))
    ));
    assert!(matches!(
        write_sorted_run_file(None, 32, 44, &[1, 2, 3]),
        Err(StoreError::Corrupt(_))
    ));
    // merge empty inputs
    let merged = d.merge(Vec::new(), 9).unwrap();
    assert_eq!(merged.head.count, 0);
}

/// When key_len == rec_len the body is the sort key: must be strictly increasing.
#[test]
fn write_sorted_run_rejects_unsorted_when_key_len_eq_rec() {
    let mut rec_hi = [0u8; 40];
    rec_hi[31] = 2;
    rec_hi[32..40].copy_from_slice(&2u64.to_le_bytes());
    let mut rec_lo = [0u8; 40];
    rec_lo[31] = 1;
    rec_lo[32..40].copy_from_slice(&1u64.to_le_bytes());
    let mut body = Vec::new();
    body.extend_from_slice(&rec_hi);
    body.extend_from_slice(&rec_lo);
    match write_sorted_run_file(None, 40, 40, &body) {
        Err(StoreError::Corrupt(m)) => {
            assert!(
                m.contains("not strictly increasing"),
                "expected order error, got {m}"
            );
        }
        other => panic!("expected Corrupt unsorted, got {other:?}"),
    }
    let mut ok = Vec::new();
    ok.extend_from_slice(&rec_lo);
    ok.extend_from_slice(&rec_hi);
    let (run, _) = write_sorted_run_file(Some(1), 40, 40, &ok).unwrap();
    assert_eq!(run.key_len, 40);
    assert_eq!(run.rec_len, 40);
    assert_eq!(run.count, 2);
}

#[test]
fn catalog_policy_is_durable() {
    assert!(RunWritePolicy::catalog().durable);
    assert!(RunWritePolicy::catalog().drop_cache);
}

#[test]
fn commit_run_to_catalog_inserts_file_only_write() {
    let mut d = Dir::new();
    let mut rec = [0u8; 40];
    rec[0] = 1;
    rec[32..40].copy_from_slice(&1u64.to_le_bytes());
    let (run, file) = write_sorted_run_file(Some(1), 40, 40, &rec).unwrap();
    d.put(&next_run_path(1), file);
    let mut mf = Manifest::empty();
    commit_run_to_catalog(&mut mf, &run);
    d.manifest = Some(save_manifest(&mf));
    let listed = d.list().runs;
    assert_eq!(listed.len(), 1);
    assert_eq!(listed[0].seq(), Some(1));
    assert_eq!(listed[0].count, 1);
}

/// Max create_fk tracked during merge (no second full-body scan).
#[test]
fn catalog_merge_tracks_max_fk() {
    let inputs = vec![
        run_of(1, 32, 40, &sh_rec(1, 10)),
        run_of(2, 32, 40, &sh_rec(2, 99)),
    ];
    assert_eq!(inputs[0].body.len(), 40);
    let merged = merge_runs_to_file_with_policy(&inputs, Some(3), false).unwrap();
    assert_eq!(merged.run.count, 2);
    assert_eq!(
        merged.max_u64_at_32, 99,
        "must track max create_fk while streaming"
    );
}

#[test]
fn merge_without_catalog_policy_leaves_the_catalog() {
    let mut d = Dir::new();
    let inputs = vec![
        d.write(1, 40, 40, &sh_rec(1, 10)),
        d.write(2, 40, 40, &sh_rec(2, 99)),
    ];
    let mut mf = d.catalog();
    let loose = RunWritePolicy {
        durable: false,
        drop_cache: false,
    };
    merge_runs_with_policy(&mut mf, &inputs, Some(3), loose).unwrap();
    let seqs: Vec<u64> = mf.entries.iter().map(|e| e.seq).collect();
    assert_eq!(seqs, vec![1, 2]);
}

#[test]
fn catalog_file_roundtrip_sorts_by_number() {
    let mut mf = Manifest::empty();
    mf.insert(&run_of(5, 32, 44, &rec(1, 1)).head);
    mf.insert(&run_of(2, 32, 44, &rec(1, 1)).head);
    let back = load_manifest(&save_manifest(&mf)).unwrap().unwrap();
    let seqs: Vec<u64> = back.entries.iter().map(|e| e.seq).collect();
    assert_eq!(seqs, vec![2, 5]);
    let mut short = save_manifest(&mf);
    short.pop();
    assert!(matches!(load_manifest(&short), Err(StoreError::Io(_))));
}

#[test]
fn lookup_key_follows_the_order_of_creates() {
    let mut body = sh_rec(0xaa, 255).to_vec();
    body.extend_from_slice(&sh_rec(0xaa, 256));
    let run = run_of(1, 40, 40, &body);
    assert_eq!(
        lookup_key(&run, &sh_rec(0xaa, 255)).unwrap(),
        Some(sh_rec(0xaa, 255).to_vec())
    );
    assert_eq!(
        lookup_key(&run, &sh_rec(0xaa, 256)).unwrap(),
        Some(sh_rec(0xaa, 256).to_vec())
    );
    assert_eq!(lookup_key(&run, &sh_rec(0xaa, 254)).unwrap(), None);
}

#[test]
fn equal_keys_come_in_the_order_of_the_runs() {
    let mut a = rec(1, 10).to_vec();
    a.extend_from_slice(&rec(1, 5));
    a.extend_from_slice(&rec(200, 1));
    let mut b = rec(1, 7).to_vec();
    b.extend_from_slice(&rec(200, 2));
    let runs = vec![run_of(1, 32, 44, &a), run_of(2, 32, 44, &b)];
    let out = for_each_merged_rec(&runs).unwrap();
    let tags: Vec<u8> = out.chunks_exact(44).map(|c| c[32]).collect();
    assert_eq!(tags, vec![10, 5, 7, 1, 2]);
    // Shard by shard the same records come in the same order.
    let cuts = shard_record_starts_many(&runs, 4);
    let mut parts = Vec::new();
    for shard in 0..4 {
        parts.extend(for_each_merged_rec_shard(&runs, &cuts, shard, false).unwrap());
    }
    assert_eq!(parts, out);
}

#[test]
fn shard_merges_check_the_runs_they_read() {
    let mut body = Vec::new();
    for i in 0..10u8 {
        body.extend_from_slice(&rec(i, i));
    }
    let mut bad = run_of(1, 32, 44, &body);
    bad.body[40] ^= 1;
    let inputs = vec![bad, run_of(2, 32, 44, &body)];
    let cuts = vec![vec![0, 0, 10], vec![0, 5, 10]];
    assert!(for_each_merged_rec_shard(&inputs, &cuts, 0, true).is_ok());
    assert!(for_each_merged_rec_shard(&inputs, &cuts, 1, true).is_err());
    assert!(for_each_merged_rec_shard(&inputs, &cuts, 1, false).is_ok());
}
