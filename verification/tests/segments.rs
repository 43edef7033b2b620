use rbitcoin_store::error::StoreError;
use rbitcoin_store::primitives::Fk;
use rbitcoin_store::segment_meta::{
    ensure_head_layout, flat_target, read_meta, segment_fuse_name, segment_head_name,
    soft_span_bytes, write_meta, HeadFiles, LayoutStep,
};
use rbitcoin_store::segmented_head::{
    HeadLayout, RelEntry, SegDesc, SegmentFile, SegmentedTxHead, FLAG_SEALED,
    SEGMENT_HEAD_BITS,
};

fn mixed(i: u64) -> [u8; 32] {
    let mut m = [0u8; 32];
    m[0..8].copy_from_slice(&i.to_le_bytes());
    m[8] = 0xA5;
    m
}

/// The segment list and the files of a head.
fn save(h: &SegmentedTxHead) -> (Vec<u8>, Vec<SegmentFile>) {
    let descs: Vec<SegDesc> = h
        .segs
        .iter()
        .map(|s| SegDesc {
            first_fk: s.first_fk,
            count: s.count,
            file_id: s.file_id,
            flags: if s.sealed { FLAG_SEALED } else { 0 },
        })
        .collect();
    let files = h
        .segs
        .iter()
        .map(|s| SegmentFile {
            bits: h.bits(),
            entry_bytes: h.entry_bytes(),
            entries: s
                .entries
                .iter()
                .map(|e| RelEntry {
                    mixed: e.mixed,
                    rel: e.rel,
                })
                .collect(),
            fuse: s.fuse.clone(),
        })
        .collect();
    (write_meta(h.bits(), &descs), files)
}

fn reopen(h: &SegmentedTxHead) -> SegmentedTxHead {
    let (meta, files) = save(h);
    let (bits, descs) = read_meta(Some(&meta)).unwrap();
    SegmentedTxHead::open(bits, &descs, &files).unwrap()
}

#[test]
fn migrates_flat_head_layout_on_open() {
    let layout = HeadLayout::with_entry_bytes(10, 4).unwrap();
    let mut h = SegmentedTxHead::create(layout).unwrap();
    let mut entries = Vec::new();
    for i in 0..50u64 {
        entries.push((mixed(i + 1), Fk(i + 1)));
    }
    h.insert_many(&entries, false).unwrap();
    // Flat files: the list and a segment beside the directory.
    let flat = HeadFiles {
        is_file: false,
        is_dir: false,
        has_meta: false,
        has_flat_meta: true,
        non_empty: false,
    };
    assert_eq!(ensure_head_layout(flat).unwrap(), LayoutStep::MoveFlat);
    let mut name = b"tx.head.".to_vec();
    name.extend_from_slice(&segment_head_name(0));
    assert_eq!(flat_target(&name).unwrap(), segment_head_name(0));
    let mut fuse = b"tx.head.".to_vec();
    fuse.extend_from_slice(&segment_fuse_name(3));
    assert_eq!(flat_target(&fuse).unwrap(), b"000003.fuse8".to_vec());
    assert_eq!(flat_target(b"tx.head.meta"), None);

    let h = reopen(&h);
    let cands = h.probe_candidates(&mixed(7)).unwrap();
    assert!(cands.iter().any(|f| f.0 == 7), "cands={cands:?}");
}

#[test]
fn insert_roll_seal_lookup_roundtrip() {
    // 10-bit head: 1024 slots, max_keys = floor(0.8*1024)=819
    let layout = HeadLayout::with_entry_bytes(10, 4).unwrap();
    let mut h = SegmentedTxHead::create(layout).unwrap();
    assert_eq!(h.max_keys_per_segment(), 819);

    let n = 900u64; // forces a roll
    let mut entries = Vec::with_capacity(n as usize);
    for i in 0..n {
        entries.push((mixed(i + 1), Fk(i + 1)));
    }
    h.insert_many(&entries, false).unwrap();
    assert!(h.segment_count() >= 2, "segs={}", h.segment_count());
    assert!(h.sealed_segment_count() >= 1);

    // Known members resolve (as candidates).
    for i in [1u64, 400, 819, 820, 900] {
        let cands = h.probe_candidates(&mixed(i)).unwrap();
        assert!(
            cands.iter().any(|f| f.0 == i),
            "missing fk={i} cands={cands:?}"
        );
    }
    // Global miss.
    let miss = h.probe_candidates(&mixed(0xDEAD_BEEF)).unwrap();
    assert!(miss.is_empty() || !miss.iter().any(|f| f.0 == 0xDEAD_BEEF));

    let h2 = reopen(&h);
    for i in [1u64, 500, 900] {
        let cands = h2.probe_candidates(&mixed(i)).unwrap();
        assert!(cands.iter().any(|f| f.0 == i), "reopen missing {i}");
    }
    // Sealed fuse never FN on members of first segment.
    let cands = h2.probe_candidates(&mixed(1)).unwrap();
    assert!(cands.iter().any(|f| f.0 == 1));
    assert_eq!(h2.occupied(), 900);
}

#[test]
fn force_roll_body_soft_span() {
    let layout = HeadLayout::with_entry_bytes(12, 4).unwrap(); // 4096 slots, max=3276
    let mut h = SegmentedTxHead::create(layout).unwrap();
    let batch1: Vec<_> = (0..100u64).map(|i| (mixed(i + 1), Fk(i + 1))).collect();
    h.insert_many(&batch1, false).unwrap();
    assert_eq!(h.segment_count(), 1);
    let batch2: Vec<_> = (100..150u64).map(|i| (mixed(i + 1), Fk(i + 1))).collect();
    h.insert_many(&batch2, true).unwrap(); // force roll
    assert!(h.segment_count() >= 2);
    assert!(h.sealed_segment_count() >= 1);
    let cands = h.probe_candidates(&mixed(50)).unwrap();
    assert!(cands.iter().any(|f| f.0 == 50));
    let cands = h.probe_candidates(&mixed(120)).unwrap();
    assert!(cands.iter().any(|f| f.0 == 120));
}

#[test]
fn refuse_mono_tx_head_file() {
    let f = HeadFiles {
        is_file: true,
        is_dir: false,
        has_meta: false,
        has_flat_meta: false,
        non_empty: false,
    };
    match ensure_head_layout(f) {
        Err(StoreError::Corrupt(s)) => {
            assert!(s.contains("legacy") || s.contains("reindex"), "{s}")
        }
        other => panic!("must refuse mono head, got {other:?}"),
    }
    let sharded = HeadFiles {
        is_file: false,
        is_dir: true,
        has_meta: false,
        has_flat_meta: false,
        non_empty: true,
    };
    assert!(matches!(
        ensure_head_layout(sharded),
        Err(StoreError::Corrupt(_))
    ));
}

#[test]
fn batch_lookup_agrees_with_single_lookups() {
    let layout = HeadLayout::with_entry_bytes(10, 4).unwrap();
    let mut h = SegmentedTxHead::create(layout).unwrap();
    let entries: Vec<_> = (1..=900u64).map(|i| (mixed(i), Fk(i))).collect();
    h.insert_many(&entries, false).unwrap();
    let keys: Vec<[u8; 32]> = [5u64, 850, 5000].iter().map(|i| mixed(*i)).collect();
    let lists = h.probe_candidates_batch(&keys).unwrap();
    for (k, l) in keys.iter().zip(lists.iter()) {
        assert_eq!(l, &h.probe_candidates(k).unwrap());
    }
    assert!(lists[0].contains(&Fk(5)));
    assert!(lists[1].contains(&Fk(850)));
    assert!(lists[2].is_empty());
    let (counted, stats) = h.probe_candidates_batch_counted(&keys);
    assert_eq!(counted, lists);
    assert_eq!(stats.open_probes, 3);
}

#[test]
fn bad_meta_files_are_refused() {
    let meta = write_meta(
        10,
        &[SegDesc {
            first_fk: 1,
            count: 2,
            file_id: 0,
            flags: 0,
        }],
    );
    let (bits, descs) = read_meta(Some(&meta)).unwrap();
    assert_eq!(bits, 10);
    assert_eq!(descs.len(), 1);
    assert_eq!(descs[0].count, 2);
    assert!(matches!(
        read_meta(Some(&meta[..30])),
        Err(StoreError::Corrupt(_))
    ));
    let mut magic = meta.clone();
    magic[0] ^= 1;
    assert!(read_meta(Some(&magic)).is_err());
    let mut version = meta.clone();
    version[8] = 9;
    assert!(matches!(
        read_meta(Some(&version)),
        Err(StoreError::Corrupt(_))
    ));
    let (bits, descs) = read_meta(None).unwrap();
    assert_eq!(bits, SEGMENT_HEAD_BITS);
    assert!(descs.is_empty());
}

#[test]
fn inserts_must_not_lie_before_the_segment() {
    let layout = HeadLayout::with_entry_bytes(10, 4).unwrap();
    let mut h = SegmentedTxHead::create(layout).unwrap();
    h.insert_many(&[(mixed(5), Fk(5))], false).unwrap();
    assert_eq!(
        h.insert_many(&[(mixed(2), Fk(2))], false),
        Err(StoreError::Corrupt("tx.head insert fk before segment"))
    );
    assert_eq!(h.occupied(), 1);
}

#[test]
fn span_setting_overrides_the_default() {
    assert_eq!(soft_span_bytes(None, 7), 7);
    assert_eq!(soft_span_bytes(Some(b"4096"), 7), 4096);
    assert_eq!(soft_span_bytes(Some(b"x"), 7), 7);
}

#[test]
fn a_list_that_lags_behind_its_open_segment_opens() {
    let mut h = SegmentedTxHead::create(HeadLayout {
        bits: 8,
        entry_bytes: 4,
    })
    .unwrap();
    let entries: Vec<([u8; 32], Fk)> = (1..=5u64).map(|i| (mixed(i), Fk(i))).collect();
    h.insert_many(&entries, false).unwrap();
    let (_, files) = save(&h);
    let descs = vec![SegDesc {
        first_fk: 1,
        count: 3,
        file_id: 0,
        flags: 0,
    }];
    let t = SegmentedTxHead::open(8, &descs, &files).unwrap();
    assert_eq!((t.segment_count(), t.occupied()), (1, 3));
    assert_eq!(t.open_tail_range(), Some((1, 3)));
    assert_eq!(t.probe_candidates(&mixed(5)).unwrap(), vec![Fk(5)]);
}

#[test]
fn a_batch_out_of_order_is_taken_above_the_start() {
    let layout = HeadLayout::with_entry_bytes(10, 4).unwrap();
    let mut h = SegmentedTxHead::create(layout).unwrap();
    h.insert_many(&[(mixed(1), Fk(5))], false).unwrap();
    h.insert_many(&[(mixed(2), Fk(9)), (mixed(3), Fk(7)), (mixed(4), Fk(5))], false).unwrap();
    assert_eq!(h.segs[0].count, 4);
    assert_eq!(
        h.insert_many(&[(mixed(5), Fk(8)), (mixed(6), Fk(4))], false),
        Err(StoreError::Corrupt("tx.head insert fk before segment"))
    );
    assert_eq!(h.segs[0].count, 4);
    assert_eq!(
        h.insert_many(&[(mixed(5), Fk(5 + u64::from(u32::MAX)))], false),
        Err(StoreError::Corrupt("tx.head relative fk overflow"))
    );
    assert_eq!(h.insert_many(&[(mixed(7), Fk(0))], true), Err(StoreError::InvalidFk));
}

#[test]
fn a_reopened_tail_is_sealable_once_its_keys_are_back() {
    let layout = HeadLayout::with_entry_bytes(10, 4).unwrap();
    let mut h = SegmentedTxHead::create(layout).unwrap();
    let entries: Vec<([u8; 32], Fk)> = (1..=5u64).map(|i| (mixed(i), Fk(i))).collect();
    h.insert_many(&entries, false).unwrap();
    let keys = h.segs[0].open_keys.clone();
    let mut back = reopen(&h);
    back.segs[0].open_keys.clear();
    assert!(back.insert_many(&[(mixed(6), Fk(6))], true).is_err());
    back.replace_open_keys(keys).unwrap();
    back.insert_many(&[(mixed(6), Fk(6))], true).unwrap();
    assert_eq!(back.segs.len(), 2);
    assert!(back.segs[0].sealed);
    assert_eq!((back.segs[1].first_fk, back.segs[1].count), (6, 1));
}
