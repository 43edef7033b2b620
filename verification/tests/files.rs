use rbitcoin_store::cold_progress::{load_include_hwm, store_include_hwm, ColdProgress};
use rbitcoin_store::error::StoreError;
use rbitcoin_store::hashhead::{HeadRole, HeadScale};
use rbitcoin_store::primitives::Fk;
use rbitcoin_store::scripthash::{
    ingest_oa_slots, script_hash, ScriptHashRecord, ScriptHashTable, ShBodyLayout,
};
use rbitcoin_store::scripthash_files::{
    detect_sh_body_layout, has_sh_run_rebuild_source, is_run_file, read_alloc_header,
    refuse_leftover, sh_run_catalog_key_len_ok, sharded_body_n_shards, write_alloc_header,
    AllocState, BodyFiles, RunFiles,
};
use rbitcoin_store::scripthash_layout::SH_ALLOC_VERSION;
use rbitcoin_store::scripthash_open::TableFiles;
use rbitcoin_store::scripthash_pack8::{SH_HEAD_SLOT_SIZE, SH_HEAD_VALUE_LEN};
use rbitcoin_store::sharded_hashhead::shard_count_for_role;

const FILE_HEADER_LEN: usize = 16;

fn rec(sh: [u8; 32], tx: u64, _vout: u32) -> ScriptHashRecord {
    ScriptHashRecord::from_fk(sh, Fk(tx))
}

fn set_version(f: &mut TableFiles, ver: u16) {
    for b in f.bodies.iter_mut() {
        b[FILE_HEADER_LEN + 4..FILE_HEADER_LEN + 6].copy_from_slice(&ver.to_le_bytes());
    }
}

#[test]
fn ingest_oa_slots_mainnet_is_2_25() {
    assert_eq!(ingest_oa_slots(HeadScale::Mainnet), 1 << 25);
    assert_eq!(SH_HEAD_VALUE_LEN, 8);
    assert_eq!(SH_HEAD_SLOT_SIZE, 24);
}

#[test]
fn sh_body_create_grows_64k_not_slab() {
    let mut t = ScriptHashTable::create(HeadScale::Tiny);
    let sh = script_hash(&[0x01]);
    t.put_create(&rec(sh, 1, 0)).unwrap();
    t.put_create(&rec(sh, 2, 0)).unwrap();
    for b in &t.save().bodies {
        assert!(
            b.len() < 128 * 1024,
            "len {} must stay under 128 KiB after one slab",
            b.len()
        );
    }
}

#[test]
fn sh_body_orientation() {
    let file = BodyFiles {
        body_file: true,
        body_dir: false,
        ovf_exists: false,
        ovf_file: false,
    };
    assert_eq!(detect_sh_body_layout(file).unwrap(), ShBodyLayout::Shared);
    let dir = BodyFiles {
        body_file: false,
        body_dir: true,
        ovf_exists: true,
        ovf_file: true,
    };
    assert_eq!(detect_sh_body_layout(dir).unwrap(), ShBodyLayout::Sharded);
    let mixed = BodyFiles {
        body_file: true,
        body_dir: false,
        ovf_exists: true,
        ovf_file: true,
    };
    match detect_sh_body_layout(mixed) {
        Err(StoreError::Layout(m)) => {
            assert!(m.contains("scripthash*"), "{m}");
            assert!(m.contains("wipe"), "{m}");
        }
        other => panic!("expected Layout, got {other:?}"),
    }
    let no_ovf = BodyFiles {
        body_file: false,
        body_dir: true,
        ovf_exists: false,
        ovf_file: false,
    };
    match detect_sh_body_layout(no_ovf) {
        Err(StoreError::Layout(m)) => {
            assert!(m.contains("scripthash*"), "{m}");
        }
        other => panic!("expected Layout, got {other:?}"),
    }
    let created = ScriptHashTable::create(HeadScale::Tiny);
    assert_eq!(created.body_layout(), ShBodyLayout::Sharded);
    assert_eq!(created.save().bodies.len(), 2);
}

#[test]
fn create_does_not_write_oa_stub() {
    let t = ScriptHashTable::create(HeadScale::Mainnet);
    assert_eq!(
        t.head_shard_count(),
        shard_count_for_role(HeadRole::ScriptHash, HeadScale::Mainnet)
    );
    let t = ScriptHashTable::create(HeadScale::Tiny);
    let t = ScriptHashTable::open(&t.save()).unwrap();
    assert_eq!(
        t.head_shard_count(),
        shard_count_for_role(HeadRole::ScriptHash, HeadScale::Tiny)
    );
}

#[test]
fn leftover_live_oa_main_open_refuses() {
    match refuse_leftover(false, true, false) {
        Ok(_) => panic!("leftover OA main must refuse"),
        Err(StoreError::Layout(m)) => {
            assert!(m.contains("scripthash*"), "{m}");
            assert!(m.contains("wipe") || m.contains("rematerialize"), "{m}");
        }
        Err(e) => panic!("expected Layout, got {e:?}"),
    }
    assert_eq!(refuse_leftover(false, true, true), Ok(()));
    assert_eq!(refuse_leftover(false, false, false), Ok(()));
}

#[test]
fn leftover_oa_overflow_seg_open_refuses() {
    match refuse_leftover(true, false, false) {
        Ok(_) => panic!("leftover OA ovf must refuse"),
        Err(StoreError::Layout(m)) => {
            assert!(m.contains("scripthash*"), "{m}");
        }
        Err(e) => panic!("expected Layout, got {e:?}"),
    }
}

#[test]
fn open_migrates_legacy_head_when_runs_present() {
    // Leftover live OA main is refused even when runs exist (wipe + rematerialize).
    let f = RunFiles {
        runs: 1,
        claims: 0,
        merge_outputs: 0,
        checkpoint: false,
        loose_runs: true,
        loose_merge: false,
    };
    assert!(has_sh_run_rebuild_source(f));
    assert!(matches!(
        refuse_leftover(false, true, false),
        Err(StoreError::Layout(_))
    ));
}

#[test]
fn open_refuses_legacy_head_without_runs() {
    let f = RunFiles {
        runs: 0,
        claims: 0,
        merge_outputs: 0,
        checkpoint: false,
        loose_runs: false,
        loose_merge: false,
    };
    assert!(!has_sh_run_rebuild_source(f));
    assert!(matches!(
        refuse_leftover(false, true, false),
        Err(StoreError::Layout(_))
    ));
}

#[test]
fn open_empty_alloc_v1_upgrades_to_v2() {
    let t = ScriptHashTable::create(HeadScale::Tiny);
    assert!(!t.has_durable_index());
    let mut f = t.save();
    let (_, ver) = read_alloc_header(&f.bodies[0][FILE_HEADER_LEN..]).unwrap();
    assert_eq!(ver, SH_ALLOC_VERSION);
    // Downgrade only the version field (layout is identical).
    set_version(&mut f, 1);
    assert_eq!(read_alloc_header(&f.bodies[0][FILE_HEADER_LEN..]).unwrap().1, 1);

    let t = ScriptHashTable::open(&f).unwrap();
    assert!(!t.has_durable_index());
    let f = t.save();
    assert_eq!(
        read_alloc_header(&f.bodies[0][FILE_HEADER_LEN..]).unwrap().1,
        SH_ALLOC_VERSION,
        "empty v1 must be rewritten to current alloc version"
    );
    let mut t = ScriptHashTable::open(&f).unwrap();
    t.put_create(&rec(script_hash(&[0x42]), 1, 0)).unwrap();
    assert_eq!(t.entries(&script_hash(&[0x42])).unwrap().len(), 1);
}

/// A durable index with alloc v1 is refused (slab body incompatible with page chains).
#[test]
fn open_durable_alloc_v1_refused() {
    let mut t = ScriptHashTable::create(HeadScale::Tiny);
    t.put_create(&rec(script_hash(&[0x99]), 7, 0)).unwrap();
    assert!(t.has_durable_index());
    let mut f = t.save();
    set_version(&mut f, 1);
    match ScriptHashTable::open(&f) {
        Ok(_) => panic!("expected refuse for durable alloc v1"),
        Err(StoreError::Corrupt(m)) => {
            assert!(
                m.contains("alloc v1") || m.contains("slab") || m.contains("rematerialize"),
                "{m}"
            );
        }
        Err(e) => panic!("expected Corrupt, got {e:?}"),
    }
}

#[test]
fn alloc_header_roundtrip() {
    let mut free_head = [0u64; 25];
    free_head[3] = 4096;
    let s = AllocState {
        live_count: 7,
        bump: 8192,
        free_head,
    };
    let mut file = write_alloc_header(&s);
    assert_eq!(read_alloc_header(&file).unwrap(), (s, SH_ALLOC_VERSION));
    file[0] ^= 1;
    assert!(matches!(
        read_alloc_header(&file),
        Err(StoreError::Corrupt(_))
    ));
}

#[test]
fn shard_bodies_are_counted_by_name() {
    let files = vec![b"01".to_vec(), b"00".to_vec(), b"00.occ".to_vec()];
    assert_eq!(sharded_body_n_shards(&files), Ok(2));
    let gap = vec![b"00".to_vec(), b"02".to_vec()];
    assert!(matches!(
        sharded_body_n_shards(&gap),
        Err(StoreError::Layout(_))
    ));
    assert!(matches!(
        sharded_body_n_shards(&Vec::new()),
        Err(StoreError::Layout(_))
    ));
}

#[test]
fn run_catalog_key_length_and_names() {
    assert_eq!(sh_run_catalog_key_len_ok(&[40, 40]), Ok(()));
    assert!(matches!(
        sh_run_catalog_key_len_ok(&[40, 32]),
        Err(StoreError::Corrupt(_))
    ));
    assert!(is_run_file(b"000001.run"));
    assert!(is_run_file(b"000001.run.mat"));
    assert!(is_run_file(b"000001.run.tmp"));
    assert!(!is_run_file(b"MANIFEST"));
}

#[test]
fn progress_and_mark_roundtrip() {
    let p = ColdProgress {
        next_shard: 3,
        body_bump: 8192,
        live_count: 10,
        keys_written: 4,
    };
    let file = p.store();
    assert_eq!(ColdProgress::load(Some(&file)), Some(p));
    assert_eq!(ColdProgress::load(None), None);
    assert_eq!(ColdProgress::load(Some(&file[..20])), None);
    let first = store_include_hwm(None, 9).unwrap();
    assert_eq!(load_include_hwm(Some(&first)), 9);
    assert_eq!(store_include_hwm(Some(&first), 5), None);
    let second = store_include_hwm(Some(&first), 12).unwrap();
    assert_eq!(load_include_hwm(Some(&second)), 12);
    assert_eq!(load_include_hwm(None), 0);
}

fn busy_table() -> ScriptHashTable {
    let mut t = ScriptHashTable::create(HeadScale::Tiny);
    for i in 0..20u8 {
        let sh = script_hash(&[i]);
        for fk in 1..=u64::from(i) * 40 + 1 {
            t.put_create(&rec(sh, fk, 0)).unwrap();
        }
    }
    let sh = script_hash(&[2]);
    assert_eq!(t.unlink_create(&sh, Fk(3), 0), Ok(true));
    t
}

#[test]
fn a_saved_table_passes_the_check() {
    let t = busy_table();
    let mut back = ScriptHashTable::open(&t.save()).unwrap();
    assert!(back.check());
    let sh = script_hash(&[19]);
    assert_eq!(back.entries(&sh), t.entries(&sh));
    back.put_create(&rec(sh, 5000, 0)).unwrap();
    assert_eq!(back.contains_create(&sh, Fk(5000)), Ok(true));
    assert!(back.check());
}

#[test]
fn a_free_list_into_a_slab_fails_the_check() {
    let mut t = ScriptHashTable::create(HeadScale::Tiny);
    let sh = script_hash(&[1]);
    t.put_create(&rec(sh, 1, 0)).unwrap();
    t.put_create(&rec(sh, 2, 0)).unwrap();
    assert!(t.check());
    let last = t.bodies.len() - 1;
    t.bodies[last].free_head[0] = 4096;
    assert!(!t.check());
    t.bodies[last].free_head[0] = 0;
    assert!(t.check());
}

#[test]
fn keys_that_share_a_block_fail_the_check() {
    let mut t = busy_table();
    let last = t.bodies.len() - 1;
    let bump = t.bodies[last].bump;
    t.bodies[last].bump = 8192;
    assert!(!t.check());
    t.bodies[last].bump = bump;
    assert!(t.check());
    let mut s = t.pack_shard_session(0).unwrap();
    let mut k = [0u8; 32];
    k[1] = 9;
    s.push_sorted_fk(&mut t, k, Fk(7)).unwrap();
    s.push_sorted_fk(&mut t, k, Fk(8)).unwrap();
    let pack = s.finish_pack(&mut t).unwrap();
    t.publish_packed_shard(0, &pack).unwrap();
    assert!(t.check());
    t.bodies[0].bytes[4096] ^= 0xff;
    assert!(!t.check());
}
