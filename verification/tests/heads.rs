use rbitcoin_store::error::StoreError;
use rbitcoin_store::hashhead::{HeadRole, HeadScale};
use rbitcoin_store::primitives::Fk;
use rbitcoin_store::scripthash_head::{
    load_occ_sidecar, prefix_shard_of, store_occ_sidecar, LiveShardTable, ScriptHashHead,
    OCC_SCAN_BYTE_CAP,
};
use rbitcoin_store::scripthash_layout::{head_key_from_full, ShEntry, ShHeadKey, ShHeadValue};
use rbitcoin_store::scripthash_pack8::SH_HEAD_SLOT_SIZE;
use rbitcoin_store::sharded_hashhead::{
    initial_slots_per_shard, order_shards, shard_count_for_role, shard_count_for_scale,
    shard_name, ShardName, ShardedHashHead, SHARD_COUNT_TX_SH,
};
use rbitcoin_store::sharded_scripthash_head::{HeadShardFile, ShardedScriptHashHead};

fn one(fk: u64) -> ShHeadValue {
    ShHeadValue::inline_one(ShEntry::new(Fk(fk)))
}

fn shard_file(name: &[u8], s: &ScriptHashHead) -> HeadShardFile {
    HeadShardFile {
        name: name.to_vec(),
        slots: s.image(),
        used: s.used(),
    }
}

fn names(list: &[&[u8]]) -> Vec<ShardName> {
    list.iter().map(|n| shard_name(n).unwrap()).collect()
}

#[test]
fn prefix_shard_of_high_bits_contiguous() {
    // 16 shards: first nibble of byte 0.
    assert_eq!(prefix_shard_of(&[0x00; 32], 16), 0);
    assert_eq!(prefix_shard_of(&[0x0f; 32], 16), 0);
    let mut k = [0u8; 32];
    k[0] = 0x10;
    assert_eq!(prefix_shard_of(&k, 16), 1);
    k[0] = 0x1f;
    assert_eq!(prefix_shard_of(&k, 16), 1);
    k[0] = 0xf0;
    assert_eq!(prefix_shard_of(&k, 16), 15);
    k[0] = 0xff;
    assert_eq!(prefix_shard_of(&k, 16), 15);
    // Lex order of first byte maps to non-decreasing shard ids.
    let mut prev = 0usize;
    for b in 0u16..=255 {
        k[0] = b as u8;
        let s = prefix_shard_of(&k, 16);
        assert!(s >= prev, "b={b:#x} shard={s} prev={prev}");
        prev = s;
    }
    assert_eq!(prefix_shard_of(&[0xab; 32], 1), 0);
}

#[test]
fn head_insert_get_clear() {
    let mut h = ScriptHashHead::create_with_slots(64);
    let mut key = [0u8; 32];
    key[0] = 7;
    let val = one(42);
    h.insert(&key, &val).unwrap();
    assert_eq!(h.get(&key).unwrap().unwrap(), val);
    assert!(h.clear_key(&key));
    assert!(h.get(&key).unwrap().is_none());
    // Reopen with the stored count.
    let count = load_occ_sidecar(&store_occ_sidecar(h.occupied()));
    let h2 = ScriptHashHead::open(&h.image(), count).unwrap();
    assert!(h2.is_known_empty() || h2.occupied() >= 1); // soft-clear keeps slot
    assert!(h2.get(&key).unwrap().is_none());
}

#[test]
fn get_many_matches_serial_get() {
    let mut h = ScriptHashHead::create_with_slots(4096);
    let mut keys = Vec::new();
    for i in 0u32..200 {
        let mut k = [0u8; 32];
        k[0..4].copy_from_slice(&i.to_le_bytes());
        k[4] = 0x5a;
        h.insert(&k, &one(u64::from(i) + 1)).unwrap();
        keys.push(k);
    }
    // Mix in missing keys.
    let mut probe = keys.clone();
    for i in 1000u32..1100 {
        let mut k = [0u8; 32];
        k[0..4].copy_from_slice(&i.to_le_bytes());
        probe.push(k);
    }
    let batch = h.get_many(&probe).unwrap();
    assert_eq!(batch.len(), probe.len());
    for (k, got) in probe.iter().zip(batch.iter()) {
        let serial = h.get(k).unwrap();
        assert_eq!(got, &serial, "key mismatch");
    }
    assert_eq!(batch[3], Some(one(4)));
    assert_eq!(batch[250], None);
}

#[test]
fn open_large_without_occ_skips_scan_not_empty() {
    // Slots just over the scan cap: no full scan without a count.
    let min_slots = (OCC_SCAN_BYTE_CAP / SH_HEAD_SLOT_SIZE as u64) + 1;
    let slots = min_slots.next_power_of_two();
    assert!(slots * SH_HEAD_SLOT_SIZE as u64 > OCC_SCAN_BYTE_CAP);
    let mut h = ScriptHashHead::create_with_slots(slots);
    assert!(h.is_known_empty());
    let mut key = [0u8; 32];
    key[0] = 0xab;
    h.insert(&key, &one(1)).unwrap();
    assert_eq!(h.occupied(), 1);
    let mut h2 = ScriptHashHead::open(&h.image(), None).unwrap();
    assert!(
        !h2.is_known_empty(),
        "missing count on large head must not report empty"
    );
    // Lookups still work (probe, not occupancy).
    assert_eq!(h2.get(&key).unwrap().unwrap().inline_fks(), vec![Fk(1)]);
    h2.reinit_empty();
    assert!(h2.is_known_empty());
    assert_eq!(h2.used(), Some(0));
}

/// No-rehash batch returns remainder for new keys after full; still applies
/// later in-place updates (update-only mode) without a get-scan.
#[test]
fn insert_many_no_rehash_remainder_keeps_updates() {
    // Tiny table: 8 slots. Seed via no_rehash so `insert` does not rehash to 64.
    let mut h = ScriptHashHead::create_with_slots(8);
    let mut existing = Vec::new();
    let mut seed = Vec::new();
    for i in 0..6u8 {
        let mut full = [0u8; 32];
        full[0] = i;
        full[1] = 0x11;
        seed.push((head_key_from_full(&full), one(u64::from(i) + 1)));
        existing.push(full);
    }
    assert!(h.insert_many_no_rehash(&seed, true).unwrap().is_empty());
    assert_eq!(h.slots(), 8);
    assert_eq!(h.occupied(), 6);
    // Batch: update first existing key + 6 brand-new keys (more than free slots).
    let mut batch: Vec<(ShHeadKey, ShHeadValue)> = Vec::new();
    batch.push((
        head_key_from_full(&existing[0]),
        ShHeadValue::slab(0, 2, 4096),
    ));
    for i in 0..6u8 {
        let mut full = [0u8; 32];
        full[0] = 0xa0 + i;
        full[1] = 0x22;
        batch.push((head_key_from_full(&full), one(100 + u64::from(i))));
    }
    let rem = h.insert_many_no_rehash(&batch, true).unwrap();
    assert!(
        !rem.is_empty(),
        "some new keys must remainder; occupied={} slots={} rem={} batch={}",
        h.occupied(),
        h.slots(),
        rem.len(),
        batch.len(),
    );
    assert_eq!(h.slots(), 8, "no-rehash must not grow");
    // Update applied on the existing key.
    let v = h.get(&existing[0]).unwrap().unwrap();
    match v {
        ShHeadValue::Slab { used: 2, .. } => {}
        other => panic!("expected 2-fk slab update, got {other:?}"),
    }
    // Remainder keys are not on this head.
    for (hk, _) in &rem {
        let mut full = [0u8; 32];
        full[..16].copy_from_slice(hk);
        assert!(
            h.get(&full).unwrap().is_none(),
            "remainder key must not be on head"
        );
    }
    // Update key must not appear in remainder.
    let upd_hk = head_key_from_full(&existing[0]);
    assert!(!rem.iter().any(|(k, _)| k == &upd_hk));

    // Update-only (allow_new=false): free slots must not take brand-new keys.
    let mut brand = [0u8; 32];
    brand[0] = 0xfe;
    brand[1] = 0x99;
    let only_new = vec![(head_key_from_full(&brand), one(555))];
    let rem2 = h.insert_many_no_rehash(&only_new, false).unwrap();
    assert_eq!(rem2.len(), 1, "update-only must remainder all new keys");
    assert!(h.get(&brand).unwrap().is_none());
    assert_eq!(h.slots(), 8);
}

/// Rehash, live install, out of range.
#[test]
fn scripthash_head_reserve_and_bulk_errors() {
    let mut h = ScriptHashHead::create_with_slots(8);
    h.reserve_additional(0);
    h.reserve_additional(200); // cold grow empty
    let mut k = [0u8; 32];
    k[0] = 9;
    h.insert(&k, &one(1)).unwrap();
    h.reserve_additional(50); // rehash when occupied
    assert_eq!(h.get(&k).unwrap(), Some(one(1)));

    // Sharded facade: live install + OOB.
    let mut sh = ShardedScriptHashHead::create_sharded(4, 16);
    assert!(sh.is_empty());
    let mut live = LiveShardTable::with_key_budget(8);
    let mut k0 = [0u8; 32];
    k0[0] = 0x00;
    live.insert(&k0, &one(3)).unwrap();
    sh.install_live_shard(0, live).unwrap();
    assert!(!sh.is_empty());
    assert!(matches!(
        sh.install_live_shard(9999, LiveShardTable::with_key_budget(1)),
        Err(StoreError::Corrupt(_))
    ));
}

#[test]
fn scripthash_head_rehash_bulk_and_for_each() {
    let mut h = ScriptHashHead::create_with_slots(8); // tiny: force rehash
    h.insert_many(&[]).unwrap();
    // Empty values clear path
    let mut k0 = [0u8; 32];
    k0[0] = 1;
    h.insert(&k0, &ShHeadValue::Empty).unwrap();
    assert!(!h.clear_key(&k0)); // miss

    let mut batch = Vec::new();
    for i in 0u64..40 {
        let mut key = [0u8; 32];
        key[0..8].copy_from_slice(&i.to_le_bytes());
        let val = if i % 3 == 0 {
            ShHeadValue::slab(0, 2, 4096 + i)
        } else if i % 3 == 1 {
            one(i + 1)
        } else {
            ShHeadValue::paged(4112 + i * 4096, 4112 + i * 4096)
        };
        batch.push((key, val));
    }
    h.insert_many(&batch).unwrap();
    // re-insert more for rehash
    let mut more = Vec::new();
    for i in 40u64..80 {
        let mut key = [0u8; 32];
        key[0..8].copy_from_slice(&i.to_le_bytes());
        more.push((key, one(i + 1)));
    }
    h.insert_many(&more).unwrap();
    let mut seen = 0u64;
    for (full, val) in h.for_each_occupied().unwrap() {
        assert!(!val.is_empty());
        assert!(full.iter().any(|&b| b != 0) || full == [0u8; 32]);
        seen += 1;
    }
    assert!(seen >= 70);
    let image = h.image();
    let h2 = ScriptHashHead::open(&image, None).unwrap();
    let mut key = [0u8; 32];
    key[0..8].copy_from_slice(&5u64.to_le_bytes());
    assert!(h2.get(&key).unwrap().is_some());
    // corrupt size open
    assert!(matches!(
        ScriptHashHead::open(&image[..3], None),
        Err(StoreError::Corrupt(_))
    ));
    // slots that are no power of two
    assert!(matches!(
        ScriptHashHead::open(&image[..3 * SH_HEAD_SLOT_SIZE], None),
        Err(StoreError::Corrupt(_))
    ));
}

/// Multi-shard create/open/insert/reinit + error arms.
#[test]
fn sharded_scripthash_head_create_open_and_errors() {
    let mut h1 = ShardedScriptHashHead::create_sharded(1, 32);
    assert_eq!(h1.shard_count(), 1);
    let mut k = [0u8; 32];
    k[0] = 0xab;
    h1.insert(&k, &one(9)).unwrap();
    assert!(h1.get(&k).unwrap().is_some());
    h1.clear_key(&k);
    h1.reinit_empty();
    assert!(h1.is_empty());

    let mut h = ShardedScriptHashHead::create_sharded(4, 16);
    assert_eq!(h.shard_count(), 4);
    assert_eq!(h.total_slots(), 64);
    // route inserts across shards
    for i in 0u8..16 {
        let mut key = [0u8; 32];
        key[0] = i.wrapping_mul(0x40); // spread high bits
        h.insert(&key, &one(i as u64 + 1)).unwrap();
        assert_eq!(h.shard_index(&key), prefix_shard_of(&key, 4));
    }
    let mut files: Vec<HeadShardFile> = [b"03", b"00", b"02", b"01"]
        .iter()
        .map(|n| {
            let s = &h.shards[usize::from(n[1] - b'0')];
            shard_file(*n, s)
        })
        .collect();
    files.push(shard_file(b"00.occ", &h.shards[0]));
    let role = HeadRole::ScriptHash;
    let mut h2 = ShardedScriptHashHead::open_for_role(role, HeadScale::Tiny, &files).unwrap();
    for i in 0u8..4 {
        let mut key = [0u8; 32];
        key[0] = i << 6;
        assert_eq!(h2.get(&key).unwrap(), h.get(&key).unwrap());
    }
    assert_eq!(h2.shard_count(), 4);
    let key0 = [0u8; 32];
    assert!(h2.get(&key0).unwrap().is_some());
    h2.reinit_empty();
    assert!(h2.get(&key0).unwrap().is_none());

    // open empty dir
    assert!(matches!(
        ShardedScriptHashHead::open_for_role(role, HeadScale::Tiny, &Vec::new()),
        Err(StoreError::Corrupt(_))
    ));
    // a head with one shard
    let single = vec![shard_file(b"00", &h1.shards[0])];
    let h3 = ShardedScriptHashHead::open_for_role(role, HeadScale::Tiny, &single).unwrap();
    assert_eq!(h3.shard_count(), 1);

    // unexpected shard name
    let bad = vec![shard_file(b"ff", &h1.shards[0])];
    assert!(matches!(
        ShardedScriptHashHead::open_for_role(role, HeadScale::Tiny, &bad),
        Err(StoreError::Corrupt(_))
    ));
    let other = vec![shard_file(b"zz", &h1.shards[0])];
    assert!(matches!(
        ShardedScriptHashHead::open_for_role(role, HeadScale::Tiny, &other),
        Err(StoreError::Corrupt(_))
    ));
    // a main network head with another number of shards
    assert!(matches!(
        ShardedScriptHashHead::open_for_role(role, HeadScale::Mainnet, &files),
        Err(StoreError::Corrupt(_))
    ));
}

#[test]
fn sharded_roundtrip_and_partition() {
    let mut h = ShardedHashHead::create_sharded(16, 256);
    assert_eq!(h.shards.len(), 16);
    let mut batch = Vec::new();
    for i in 0u64..1000 {
        let mut key = [0u8; 32];
        key[0] = (i % 256) as u8;
        key[1..9].copy_from_slice(&i.to_le_bytes());
        batch.push((key, Fk(i + 1)));
    }
    h.insert_many(&batch).unwrap();
    for (key, fk) in &batch {
        assert_eq!(h.get(key).unwrap(), Some(*fk));
    }
    assert_eq!(h.occupied(), 1000);
}

#[test]
fn get_all_prefix_collision() {
    let mut h = ShardedHashHead::create_sharded(16, 64);
    let mut k1 = [0u8; 32];
    k1[0] = 1;
    k1[15] = 1;
    let mut k2 = k1;
    k2[16] = 9;
    h.insert(&k1, Fk(10)).unwrap();
    h.insert(&k2, Fk(20)).unwrap();
    let all = h.get_all(&k1).unwrap();
    assert!(all.contains(&Fk(10)) && all.contains(&Fk(20)));
}

#[test]
fn shard_helpers_and_error_paths() {
    let tiny = HeadScale::Tiny;
    assert_eq!(shard_count_for_scale(tiny), 1);
    assert_eq!(shard_count_for_role(HeadRole::Header, tiny), 1);
    assert_eq!(shard_count_for_role(HeadRole::ScriptHash, tiny), 1);
    assert_eq!(initial_slots_per_shard(HeadRole::Header, tiny, None), 64);

    let mut h = ShardedHashHead::create_sharded(1, 32);
    assert_eq!(h.shards.len(), 1);
    h.insert_many(&[]).unwrap();

    // empty dir open
    assert!(matches!(
        order_shards(&Vec::new()),
        Err(StoreError::Corrupt(_))
    ));
    // Sorted names: "00", "ff"; index 1 expects "01"/"1", not "ff".
    assert!(matches!(
        order_shards(&names(&[b"00", b"ff"])),
        Err(StoreError::Corrupt(_))
    ));
    assert_eq!(
        order_shards(&names(&[b"01", b"00"])),
        Ok(names(&[b"00", b"01"]))
    );
    assert!(shard_name(b"zz").is_none());
    assert!(shard_name(b"000").is_none());

    // An override is raised to a power of two.
    assert_eq!(
        initial_slots_per_shard(HeadRole::Header, tiny, Some(100)),
        128
    );

    let mut h = ShardedHashHead::create_for_role(HeadRole::Header, tiny);
    assert_eq!(h.shards.len(), 1);
    assert_eq!(h.occupied(), 0);
    h.insert(&[1u8; 32], Fk(7)).unwrap();
    assert!(h.occupied() >= 1);
    // single-shard insert_many path
    h.insert_many(&[([2u8; 32], Fk(8))]).unwrap();
    assert!(h.occupied() >= 2);

    let main = HeadScale::Mainnet;
    assert_eq!(shard_count_for_role(HeadRole::Header, main), 1);
    assert_eq!(
        shard_count_for_role(HeadRole::ScriptHash, main),
        SHARD_COUNT_TX_SH
    );
    assert_eq!(initial_slots_per_shard(HeadRole::Header, main, None), 1 << 20);
    assert_eq!(
        initial_slots_per_shard(HeadRole::ScriptHash, main, None),
        1 << 16
    );
}

#[test]
fn new_and_emptied_shards_have_their_slots() {
    let h = ShardedScriptHashHead::create_for_role(HeadRole::ScriptHash, HeadScale::Tiny);
    assert!(h.shards.iter().all(|s| s.slots() == 64 && s.occupied() == 0));
    let mut e = ShardedScriptHashHead::create_sharded(4, 16);
    e.reinit_empty();
    assert!(e.shards.iter().all(|s| s.slots() == 16 && s.occupied() == 0));
}

#[test]
fn every_key_takes_one_slot() {
    let mut h = ScriptHashHead::create_with_slots(16);
    let a = [1u8; 32];
    let b = [2u8; 32];
    h.insert(&a, &one(5)).unwrap();
    h.insert(&a, &one(6)).unwrap();
    assert_eq!(h.occupied(), 1);
    assert!(h.clear_key(&a));
    assert_eq!(h.occupied(), 1);
    h.insert_many(&[(b, one(7)), (a, one(8)), (b, one(9))]).unwrap();
    assert_eq!(h.occupied(), 2);
    assert_eq!(h.get(&b).unwrap(), Some(one(9)));
    let mut shares = [1u8; 32];
    shares[31] = 0;
    assert!(h.insert_many_full_no_rehash(&[(shares, one(3)), ([4u8; 32], one(4))], true)
        .unwrap()
        .is_empty());
    assert_eq!(h.occupied(), 3);
}
