use rbitcoin_store::primitives::Fk;
use rbitcoin_store::scripthash::{script_hash, HeadCache, ScriptHashRecord, ScriptHashTable};
use rbitcoin_store::scripthash_layout::{ShEntry, ShHeadValue};
use rbitcoin_store::scripthash_pages::SH_PAGE_STREAM_MAX;
use rbitcoin_store::hashhead::HeadScale;

fn rec(sh: [u8; 32], tx: u64, _vout: u32) -> ScriptHashRecord {
    ScriptHashRecord::from_fk(sh, Fk(tx))
}

fn put_unique(t: &mut ScriptHashTable, tag: u8, n: u32) {
    for i in 0..n {
        let sh = script_hash(&[tag, (i & 0xff) as u8, (i >> 8) as u8, 0x7e]);
        t.put_create(&rec(sh, u64::from(i) + 1, 0)).unwrap();
    }
}

#[test]
fn script_hash_record_helpers_and_table_flush_open() {
    let e = ShEntry::new(Fk(9));
    let r = ScriptHashRecord::from_entry([1u8; 32], e);
    assert_eq!(r.entry(), e);
    assert!(!r.is_tombstone());
    let tomb = ScriptHashRecord::from_fk([2u8; 32], Fk::null());
    assert!(tomb.is_tombstone());
    let _ = script_hash(&[0x00, 0x14]);

    let mut t = ScriptHashTable::create(HeadScale::Tiny);
    let sh = script_hash(&[0x99]);
    t.put_create(&rec(sh, 1, 0)).unwrap();
    let _ = t.put_create_batch(&[]);
    assert_eq!(t.entry_count(), 1);
    let mut t = ScriptHashTable::open(&t.save()).unwrap();
    assert_eq!(t.entries(&sh).unwrap().len(), 1);
    // for_each_live across table
    assert_eq!(t.for_each_live_create().unwrap().len(), 1);
    // missing key
    assert!(t.entries(&[0u8; 32]).unwrap().is_empty());
    assert!(t.head_value(&[0u8; 32]).unwrap().is_none());
}

#[test]
fn scripthash_thin_roundtrip() {
    let mut t = ScriptHashTable::create(HeadScale::Tiny);
    let sh = script_hash(&[0x51]);
    t.put_create(&rec(sh, 3, 0)).unwrap();
    let entries = t.entries(&sh).unwrap();
    assert_eq!(entries.len(), 1);
    assert_eq!(entries[0].1.create_tx_fk, Fk(3));
    t.put_create(&rec(sh, 3, 0)).unwrap();
    assert_eq!(t.entries(&sh).unwrap().len(), 1);
    t.put_create(&rec(sh, 4, 1)).unwrap();
    assert_eq!(t.entries(&sh).unwrap().len(), 2);
    assert!(t.unlink_create(&sh, Fk(4), 1).unwrap());
    assert_eq!(t.entries(&sh).unwrap().len(), 1);
    assert!(t.unlink_create(&sh, Fk(3), 0).unwrap());
    assert!(t.entries(&sh).unwrap().is_empty());
}

#[test]
fn incremental_absent_lands_on_ingest() {
    let mut t = ScriptHashTable::create(HeadScale::Tiny);
    let sh = script_hash(&[0x51]);
    t.put_create(&rec(sh, 3, 0)).unwrap();
    assert_eq!(t.entries(&sh).unwrap().len(), 1);
    assert!(
        t.ingest.get(&sh).unwrap().is_some(),
        "new key must live on ingest, not live OA main"
    );
    assert!(
        t.main.iter().all(|m| m.is_none()),
        "create must not plant a main head"
    );
    let mut t = ScriptHashTable::open(&t.save()).unwrap();
    assert_eq!(t.entries(&sh).unwrap().len(), 1);
    assert!(t.main.iter().all(|m| m.is_none()));
}

#[test]
fn put_create_uses_slabs_then_pages() {
    let mut t = ScriptHashTable::create(HeadScale::Tiny);
    let sh = script_hash(&[0x15]);
    for i in 1..=5u64 {
        t.put_create(&rec(sh, i, 0)).unwrap();
    }
    match t.head_value(&sh).unwrap().unwrap() {
        ShHeadValue::Slab { class, used, off } => {
            assert_eq!(class, 1, "5 fks with slack → class 1 (64 B, cap 8)");
            assert_eq!(used, 5);
            assert!(off >= 4096);
        }
        other => panic!("expected class-1 slab, got {other:?}"),
    }
    assert_eq!(t.entries(&sh).unwrap().len(), 5);
    for i in 6..=9u64 {
        t.put_create(&rec(sh, i, 0)).unwrap();
    }
    match t.head_value(&sh).unwrap().unwrap() {
        ShHeadValue::Slab { class, used, .. } => {
            assert_eq!(class, 2, "9th fk grows class 1 → 2");
            assert_eq!(used, 9);
        }
        other => panic!("expected class-2 slab, got {other:?}"),
    }
    assert_eq!(
        t.put_create_batch(&[rec(sh, 9, 0), rec(sh, 5, 0)]).unwrap(),
        0,
        "fk ≤ max is a skip"
    );
    let rest: Vec<_> = (10..=257u64).map(|i| rec(sh, i, 0)).collect();
    assert_eq!(t.put_create_batch(&rest).unwrap(), 248);
    match t.head_value(&sh).unwrap().unwrap() {
        ShHeadValue::Extent { last_page } => {
            assert!(last_page > 0);
        }
        other => panic!("expected page chain at 257, got {other:?}"),
    }
    assert_eq!(t.entries(&sh).unwrap().len(), 257);
    assert!(t.contains_create(&sh, Fk(257)).unwrap());
    assert!(!t.contains_create(&sh, Fk(258)).unwrap());
}

#[test]
fn promote_ladder_inline_to_paged() {
    let mut t = ScriptHashTable::create(HeadScale::Tiny);
    let sh = script_hash(&[0x52]);
    for i in 1..=5u64 {
        t.put_create(&rec(sh, i, i as u32)).unwrap();
    }
    assert_eq!(t.entries(&sh).unwrap().len(), 5);
    let v = t.head_value(&sh).unwrap().unwrap();
    match v {
        ShHeadValue::Slab { class, used, off } => {
            assert_eq!(class, 1);
            assert_eq!(used, 5);
            assert!(off > 0);
        }
        other => panic!("expected slab, got {other:?}"),
    }
    assert_eq!(t.entry_count(), 5);
}

#[test]
fn put_create_batch_many_uses_pages() {
    let mut t = ScriptHashTable::create(HeadScale::Tiny);
    let sh = script_hash(&[0x53]);
    let recs: Vec<_> = (0..100u32).map(|v| rec(sh, u64::from(v) + 1, v)).collect();
    let n = t.put_create_batch(&recs).unwrap();
    assert_eq!(n, 100);
    let v = t.head_value(&sh).unwrap().unwrap();
    match v {
        ShHeadValue::Slab { class, used, off } => {
            assert_eq!(class, 5, "100 fks → class 5 (cap 128)");
            assert_eq!(used, 100);
            assert!(off > 0);
        }
        other => panic!("expected slab, got {other:?}"),
    }
    assert_eq!(t.entries(&sh).unwrap().len(), 100);
}

#[test]
fn put_create_batch_chains() {
    let mut t = ScriptHashTable::create(HeadScale::Tiny);
    let sh = script_hash(&[0x51]);
    let recs: Vec<_> = (0..3u32).map(|v| rec(sh, u64::from(v) + 1, v)).collect();
    let n = t.put_create_batch(&recs).unwrap();
    assert_eq!(n, 3);
    assert_eq!(t.entries(&sh).unwrap().len(), 3);
    let n2 = t.put_create_batch(&recs).unwrap();
    assert_eq!(n2, 0);
    assert_eq!(t.entries(&sh).unwrap().len(), 3);
}

/// Re-queued lower/equal FKs are skipped; only higher append. Multi-page max
/// from last page only (sorted chain).
#[test]
fn put_create_batch_skips_leq_max_appends_higher() {
    let mut t = ScriptHashTable::create(HeadScale::Tiny);
    let sh = script_hash(&[0xab]);
    // Fill past one delta page so last page holds the max.
    let n = SH_PAGE_STREAM_MAX + 5;
    let first: Vec<_> = (1..=n as u64).map(|i| rec(sh, i, 0)).collect();
    assert_eq!(t.put_create_batch(&first).unwrap(), n);
    assert_eq!(t.entries(&sh).unwrap().len(), n);
    let max = t.bodies[t.bodies.len() - 1]
        .last_create_fk_on(&t.head_value(&sh).unwrap().unwrap())
        .unwrap()
        .unwrap();
    assert_eq!(max, Fk(n as u64));

    // Mix re-queued older FKs with new higher ones.
    let batch = vec![
        rec(sh, 1, 0),
        rec(sh, n as u64 / 2, 0),
        rec(sh, n as u64, 0),
        rec(sh, n as u64 + 1, 0),
        rec(sh, n as u64 + 3, 0),
        rec(sh, n as u64 + 2, 0), // unsorted in batch
    ];
    let written = t.put_create_batch(&batch).unwrap();
    assert_eq!(written, 3, "only fks > max must be written");
    let got = t.entries(&sh).unwrap();
    assert_eq!(got.len(), n + 3);
    for (i, (_, e)) in got.iter().enumerate() {
        assert_eq!(e.create_tx_fk.0, (i as u64) + 1);
    }
    // Only-lower batch is no-op.
    assert_eq!(
        t.put_create_batch(&[rec(sh, 1, 0), rec(sh, 2, 0)]).unwrap(),
        0
    );
}

#[test]
fn put_create_batch_append_uses_heads() {
    let mut t = ScriptHashTable::create(HeadScale::Tiny);
    let sh = script_hash(&[0x51]);
    let mut heads = HeadCache::new();
    let recs: Vec<_> = (0..3u32).map(|v| rec(sh, u64::from(v) + 1, v)).collect();
    let n = t.put_create_batch_append(&recs, &mut heads).unwrap();
    assert_eq!(n, 3);
    assert_eq!(t.entries(&sh).unwrap().len(), 3);
    assert!(heads.get(&sh).is_some());
    let more = vec![rec(sh, 10, 9)];
    let n2 = t.put_create_batch_append(&more, &mut heads).unwrap();
    assert_eq!(n2, 1);
    assert_eq!(t.entries(&sh).unwrap().len(), 4);
}

#[test]
fn page_append_preserves_prefix_and_order() {
    let mut t = ScriptHashTable::create(HeadScale::Tiny);
    let sh = script_hash(&[0x7a]);
    let mut heads = HeadCache::new();
    let first: Vec<_> = (1..=5u32).map(|v| rec(sh, u64::from(v), v)).collect();
    let n = t.put_create_batch_append(&first, &mut heads).unwrap();
    assert_eq!(n, 5);
    let first_off = match t.head_value(&sh).unwrap().unwrap() {
        ShHeadValue::Slab { class, used, off } => {
            assert_eq!(class, 1);
            assert_eq!(used, 5);
            off
        }
        other => panic!("expected slab, got {other:?}"),
    };
    let more: Vec<_> = (6..=7u32).map(|v| rec(sh, u64::from(v), v)).collect();
    let n2 = t.put_create_batch_append(&more, &mut heads).unwrap();
    assert_eq!(n2, 2);
    match t.head_value(&sh).unwrap().unwrap() {
        ShHeadValue::Slab { class, used, off } => {
            assert_eq!(off, first_off, "in-class append must reuse slab off");
            assert_eq!(class, 1);
            assert_eq!(used, 7);
        }
        other => panic!("expected slab, got {other:?}"),
    }
    let ents = t.entries(&sh).unwrap();
    assert_eq!(ents.len(), 7);
    for (i, (_, e)) in ents.iter().enumerate() {
        assert_eq!(e.create_tx_fk, Fk(i as u64 + 1));
    }
    // Grow to megakey pages (≥257 FKs).
    let mut heads2 = HeadCache::new();
    let sh2 = script_hash(&[0x7b]);
    let many: Vec<_> = (1..=600u32).map(|v| rec(sh2, u64::from(v), v)).collect();
    let nm = t.put_create_batch_append(&many, &mut heads2).unwrap();
    assert_eq!(nm, 600);
    match t.head_value(&sh2).unwrap().unwrap() {
        ShHeadValue::Extent { .. } => {}
        other => panic!("expected extent megakey, got {other:?}"),
    }
    assert_eq!(t.entries(&sh2).unwrap().len(), 600);
}

#[test]
fn unlink_demotes_paged_to_inline() {
    let mut t = ScriptHashTable::create(HeadScale::Tiny);
    let sh = script_hash(&[0x54]);
    for i in 1..=3u64 {
        t.put_create(&rec(sh, i, i as u32)).unwrap();
    }
    assert!(matches!(
        t.head_value(&sh).unwrap().unwrap(),
        ShHeadValue::Slab { .. }
    ));
    t.unlink_create(&sh, Fk(2), 2).unwrap();
    match t.head_value(&sh).unwrap().unwrap() {
        ShHeadValue::Slab { used, .. } => assert_eq!(used, 2),
        other => panic!("expected 2-fk slab, got {other:?}"),
    }
}

#[test]
fn ingest_batch_update_and_new_keys() {
    let mut t = ScriptHashTable::create(HeadScale::Tiny);
    let sh0 = script_hash(&[0xc0, 0, 0, 0x11]);
    t.put_create(&rec(sh0, 1, 0)).unwrap();
    let mut batch = vec![rec(sh0, 99_999, 1)];
    for i in 0..20u32 {
        let sh = script_hash(&[0xc1, (i & 0xff) as u8, 0x22, 0x33]);
        batch.push(rec(sh, 10_000 + u64::from(i), 0));
    }
    assert_eq!(t.put_create_batch(&batch).unwrap(), 21);
    assert_eq!(t.entries(&sh0).unwrap().len(), 2);
    assert!(t.ingest.get(&sh0).unwrap().is_some());
    assert_eq!(t.for_each_live_create().unwrap().len(), 22);
}

#[test]
fn ingest_many_unique_keys_reopen() {
    let mut t = ScriptHashTable::create(HeadScale::Tiny);
    put_unique(&mut t, 0xa0, 80);
    let sh0 = script_hash(&[0xa0, 0, 0, 0x7e]);
    t.put_create(&rec(sh0, 10_000, 1)).unwrap();
    assert_eq!(t.entries(&sh0).unwrap().len(), 2);
    let mut t = ScriptHashTable::open(&t.save()).unwrap();
    assert_eq!(t.entries(&sh0).unwrap().len(), 2);
    assert!(t.main.iter().all(|m| m.is_none()));
}

#[test]
fn freelist_reuses_page() {
    let mut t = ScriptHashTable::create(HeadScale::Tiny);
    let sh1 = script_hash(&[0x61]);
    let sh2 = script_hash(&[0x62]);
    for i in 1..=3u64 {
        t.put_create(&rec(sh1, i, i as u32)).unwrap();
    }
    let off1 = match t.head_value(&sh1).unwrap().unwrap() {
        ShHeadValue::Slab { off, class, .. } => {
            assert_eq!(class, 0);
            off
        }
        other => panic!("expected slab, got {other:?}"),
    };
    for i in 1..=3u64 {
        t.unlink_create(&sh1, Fk(i), i as u32).unwrap();
    }
    for i in 1..=3u64 {
        t.put_create(&rec(sh2, 10 + i, i as u32)).unwrap();
    }
    let off2 = match t.head_value(&sh2).unwrap().unwrap() {
        ShHeadValue::Slab { off, class, .. } => {
            assert_eq!(class, 0);
            off
        }
        other => panic!("expected slab, got {other:?}"),
    };
    assert_eq!(off1, off2, "slab freelist should reuse offset");
}

#[test]
fn for_each_live_create_skips_unlinked() {
    let mut t = ScriptHashTable::create(HeadScale::Tiny);
    let sh = script_hash(&[0x51]);
    let mut heads = HeadCache::new();
    t.put_create_batch_append(&[rec(sh, 1, 0), rec(sh, 2, 0), rec(sh, 3, 0)], &mut heads)
        .unwrap();
    t.unlink_create(&sh, Fk(2), 0).unwrap();
    let live = t.for_each_live_create().unwrap();
    let mut seen: Vec<u64> = live.iter().map(|c| c.0).collect();
    seen.sort_unstable();
    assert_eq!(seen, vec![1, 3]);
}
