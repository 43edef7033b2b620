use rbitcoin_store::compact::{read_uleb128, uleb128_len, write_uleb128};
use rbitcoin_store::error::StoreError;
use rbitcoin_store::hashhead::HeadScale;
use rbitcoin_store::mlock::{MlockRange, MlockTable};
use rbitcoin_store::primitives::Fk;
use rbitcoin_store::scripthash::{script_hash, ScriptHashRecord, ScriptHashTable, ShBodyLayout};
use rbitcoin_store::scripthash_head::{LiveShardTable, ScriptHashHead};
use rbitcoin_store::scripthash_layout::{head_key_from_full, ShEntry, ShHeadValue};
use rbitcoin_store::segmented_head::{HeadLayout, SegmentedTxHead};
use rbitcoin_store::spender_table::SpenderTable;

fn key(shard: u8, i: u8) -> [u8; 32] {
    let mut k = [0u8; 32];
    k[0] = shard << 6 | (i & 0x3f);
    k
}

fn one(fk: u64) -> ShHeadValue {
    ShHeadValue::inline_one(ShEntry::new(Fk(fk)))
}

fn fks(t: &ScriptHashTable, k: &[u8; 32]) -> Vec<u64> {
    t.entries(k).unwrap().iter().map(|(fk, _)| fk.0).collect()
}

#[test]
fn crate_and_table_codes() {
    assert_eq!(rbitcoin_store::crate_name(), "rbitcoin-store");
    assert_eq!(MlockTable::TxBody.as_u8(), 0);
    assert_eq!(MlockTable::Confirmed.as_u8(), 10);
    assert!(MlockRange::empty(MlockTable::Spenders).is_empty());
}

#[test]
fn varints_have_their_known_bytes() {
    let mut out = Vec::new();
    write_uleb128(&mut out, 624_485);
    assert_eq!(out, vec![0xe5, 0x8e, 0x26]);
    assert_eq!(uleb128_len(624_485), 3);
    assert_eq!(read_uleb128(&out), Ok((624_485, 3)));
    assert!(read_uleb128(&[0x80]).is_err());
}

#[test]
fn sessions_count_what_they_load() {
    let mut t = ScriptHashTable::create_with_layout(HeadScale::Tiny, ShBodyLayout::Sharded, 4);
    assert_eq!(t.unsealed_main_shards(), vec![0, 1, 2, 3]);
    let mut s = t.bulk_session(4).unwrap();
    s.push_sorted_fk(&mut t, key(0, 1), Fk(5)).unwrap();
    s.push_sorted_fk(&mut t, key(0, 1), Fk(7)).unwrap();
    assert_eq!(s.creates_written(), 0);
    assert_eq!(s.stream_creates_written(), 2);
    s.push_sorted_fk(&mut t, key(1, 1), Fk(6)).unwrap();
    assert_eq!(s.creates_written(), 2);
    assert_eq!(s.shards_flushed(), 1);
    assert_eq!(s.finish(&mut t).unwrap(), (3, 2));
    assert_eq!(t.unsealed_main_shards(), vec![2, 3]);
    let p = t.store_sharded_cold_progress(2, 3);
    assert_eq!((p.next_shard, p.live_count, p.keys_written), (2, 3, 2));
}

#[test]
fn keys_must_come_in_order() {
    let mut t = ScriptHashTable::create_with_layout(HeadScale::Tiny, ShBodyLayout::Sharded, 4);
    let mut s = t.bulk_session(4).unwrap();
    s.push_sorted_fk(&mut t, key(2, 1), Fk(5)).unwrap();
    assert!(matches!(
        s.push_sorted_fk(&mut t, key(1, 1), Fk(6)),
        Err(StoreError::Corrupt(_))
    ));
    let mut t = ScriptHashTable::create_with_layout(HeadScale::Tiny, ShBodyLayout::Sharded, 4);
    let mut s = t.bulk_session(4).unwrap();
    s.push_sorted_fk(&mut t, key(2, 1), Fk(5)).unwrap();
    assert!(matches!(
        s.push_sorted_fk(&mut t, key(2, 1), Fk(4)),
        Err(StoreError::Corrupt(_))
    ));
    assert!(matches!(
        s.push_sorted_fk(&mut t, key(2, 1), Fk(1 << 63)),
        Err(StoreError::Corrupt(_))
    ));
}

#[test]
fn packed_records_can_be_published_by_hand() {
    let mut t = ScriptHashTable::create_with_layout(HeadScale::Tiny, ShBodyLayout::Sharded, 4);
    let mut s = t.pack_shard_session(1).unwrap();
    for i in 0..3u8 {
        s.push_sorted_fk(&mut t, key(1, i), Fk(10 + u64::from(i)))
            .unwrap();
    }
    let pack = s.finish_pack(&mut t).unwrap();
    assert_eq!((pack.keys, pack.creates, pack.max_fk), (3, 3, 12));
    t.publish_sorted_shard(1, &pack.recs, pack.creates, pack.bump)
        .unwrap();
    assert!(t.contains_create(&key(1, 2), Fk(12)).unwrap());
    assert_eq!(t.entry_count(), 3);
}

#[test]
fn pack_sessions_refuse_other_shards() {
    let mut t = ScriptHashTable::create_with_layout(HeadScale::Tiny, ShBodyLayout::Sharded, 4);
    let mut s = t.pack_shard_session(1).unwrap();
    assert!(matches!(
        s.push_sorted_fk(&mut t, key(2, 0), Fk(1)),
        Err(StoreError::Corrupt(_))
    ));
    let s = t.bulk_session(1).unwrap();
    assert!(matches!(s.finish_pack(&mut t), Err(StoreError::Corrupt(_))));
}

#[test]
fn bad_creates_are_refused() {
    let mut t = ScriptHashTable::create(HeadScale::Tiny);
    let sh = script_hash(&[1]);
    assert_eq!(
        t.put_create(&ScriptHashRecord::from_fk(sh, Fk(0))),
        Err(StoreError::InvalidFk)
    );
    assert!(matches!(
        t.put_create(&ScriptHashRecord::from_fk(sh, Fk(1 << 63))),
        Err(StoreError::Corrupt(_))
    ));
    assert!(!t.unlink_create(&sh, Fk(3), 0).unwrap());
    t.put_create(&ScriptHashRecord::from_fk(sh, Fk(5))).unwrap();
    t.put_create(&ScriptHashRecord::from_fk(sh, Fk(3))).unwrap();
    assert!(!t.contains_create(&sh, Fk(3)).unwrap(), "a lower create is skipped");
    t.note_include_hwm(9);
    t.note_include_hwm(4);
    assert_eq!(t.include_hwm(), 9);
}

#[test]
fn full_heads_hand_entries_back() {
    let mut h = ScriptHashHead::create_with_slots(8);
    let entries: Vec<([u8; 32], ShHeadValue)> =
        (1..=8u8).map(|i| (key(0, i), one(u64::from(i)))).collect();
    assert!(h
        .insert_many_full_no_rehash(&entries[..4], true)
        .unwrap()
        .is_empty());
    let back = h.insert_many_full_no_rehash(&entries, false).unwrap();
    assert_eq!(back.len(), 4);
    assert_eq!(h.get(&key(0, 2)).unwrap(), Some(one(2)));
    assert_eq!(h.get(&key(0, 7)).unwrap(), None);
}

#[test]
fn live_shards_come_out_sorted() {
    let mut live = LiveShardTable::with_key_budget(4);
    for i in [9u8, 2, 5] {
        live.insert(&key(0, i), &one(u64::from(i))).unwrap();
    }
    assert_eq!(live.keys(), 3);
    let keys: Vec<[u8; 16]> = live.collect_sorted_recs().iter().map(|s| s.key).collect();
    assert_eq!(
        keys,
        vec![
            head_key_from_full(&key(0, 2)),
            head_key_from_full(&key(0, 5)),
            head_key_from_full(&key(0, 9))
        ]
    );
}

#[test]
fn open_tail_of_a_segmented_head() {
    let mut h = SegmentedTxHead::create(HeadLayout::with_entry_bytes(10, 4).unwrap()).unwrap();
    assert_eq!(h.open_tail_range(), None);
    let entries: Vec<([u8; 32], Fk)> = (1..=5u64).map(|i| ([i as u8; 32], Fk(i))).collect();
    h.insert_many(&entries, false).unwrap();
    assert_eq!(h.open_tail_range(), Some((1, 5)));
    assert_eq!(h.open_keys_len(), 5);
    assert!(h.replace_open_keys(vec![1, 2, 3, 4, 5]).is_ok());
    assert_eq!(h.open_keys_len(), 5);
    assert_eq!(h.open_tail_range(), Some((1, 5)));
    assert_eq!(h.segs[0].open_keys, vec![1, 2, 3, 4, 5]);
    assert_eq!((h.segs[0].file_id, h.segs[0].sealed, h.next_file_id), (0, false, 1));
    assert!(matches!(
        h.replace_open_keys(vec![1]),
        Err(StoreError::Corrupt(_))
    ));
}

#[test]
fn spender_records_have_fixed_places() {
    assert_eq!(SpenderTable::record_range(Fk(1)), Ok((16, 16)));
    assert_eq!(SpenderTable::record_range(Fk(3)), Ok((48, 16)));
    assert_eq!(
        SpenderTable::record_range(Fk(0)),
        Err(StoreError::InvalidFk)
    );
}

#[test]
fn the_overflow_masks_what_is_loaded() {
    let mut t = ScriptHashTable::create_with_layout(HeadScale::Tiny, ShBodyLayout::Sharded, 4);
    t.put_create(&ScriptHashRecord::from_fk(key(1, 7), Fk(3))).unwrap();
    let mut s = t.pack_shard_session(1).unwrap();
    s.push_sorted_fk(&mut t, key(1, 1), Fk(10)).unwrap();
    s.push_sorted_fk(&mut t, key(1, 7), Fk(11)).unwrap();
    let pack = s.finish_pack(&mut t).unwrap();
    assert_eq!(pack.recs.len(), 2);
    assert_eq!(t.publish_packed_shard(1, &pack), Ok(pack.bump));
    assert!(t.contains_create(&key(1, 1), Fk(10)).unwrap());
    assert!(t.contains_create(&key(1, 7), Fk(3)).unwrap());
    assert!(!t.contains_create(&key(1, 7), Fk(11)).unwrap());
    t.put_create(&ScriptHashRecord::from_fk(key(1, 7), Fk(12))).unwrap();
    assert!(t.contains_create(&key(1, 7), Fk(3)).unwrap());
    assert!(t.contains_create(&key(1, 7), Fk(12)).unwrap());
}

#[test]
fn later_puts_mask_a_pack() {
    let mut t = ScriptHashTable::create_with_layout(HeadScale::Tiny, ShBodyLayout::Sharded, 4);
    let mut s = t.pack_shard_session(1).unwrap();
    s.push_sorted_fk(&mut t, key(1, 1), Fk(10)).unwrap();
    s.push_sorted_fk(&mut t, key(1, 2), Fk(11)).unwrap();
    let pack = s.finish_pack(&mut t).unwrap();
    t.put_create(&ScriptHashRecord::from_fk(key(1, 1), Fk(4))).unwrap();
    assert_eq!(t.publish_packed_shard(1, &pack), Ok(pack.bump));
    assert_eq!(fks(&t, &key(1, 1)), vec![4]);
    assert_eq!(fks(&t, &key(1, 2)), vec![11]);
    assert_eq!(t.publish_sorted_shard(1, &pack.recs, pack.creates, pack.bump), Ok(()));
    assert_eq!(fks(&t, &key(1, 1)), vec![4]);
    assert_eq!(fks(&t, &key(1, 2)), vec![11]);
}

#[test]
fn a_load_over_the_overflow_keeps_its_keys() {
    let mut t = ScriptHashTable::create(HeadScale::Tiny);
    let mut s = t.bulk_session(0).unwrap();
    t.put_create(&ScriptHashRecord::from_fk(key(1, 7), Fk(3))).unwrap();
    s.push_sorted_fk(&mut t, key(1, 1), Fk(10)).unwrap();
    s.push_sorted_fk(&mut t, key(1, 7), Fk(11)).unwrap();
    s.push_sorted_fk(&mut t, key(1, 9), Fk(12)).unwrap();
    s.finish(&mut t).unwrap();
    assert_eq!(fks(&t, &key(1, 1)), vec![10]);
    assert_eq!(fks(&t, &key(1, 7)), vec![3]);
    assert_eq!(fks(&t, &key(1, 9)), vec![12]);
}

#[test]
fn a_cleared_zero_key_keeps_the_keys_behind_it() {
    let mut h = ScriptHashHead::create_with_slots(2);
    let zero = [0u8; 32];
    let mut other = [0u8; 32];
    for b in 1..=255u8 {
        other[0] = b;
        h = ScriptHashHead::create_with_slots(2);
        h.insert(&zero, &one(1)).unwrap();
        h.insert(&other, &one(2)).unwrap();
        let used = h.occupied();
        assert!(h.clear_key(&zero));
        assert_eq!(h.get(&zero), Ok(None));
        assert_eq!(h.get(&other), Ok(Some(one(2))));
        assert_eq!(h.occupied(), used);
    }
    h.insert(&zero, &one(5)).unwrap();
    assert_eq!(h.get(&zero), Ok(Some(one(5))));
    assert_eq!(h.get(&other), Ok(Some(one(2))));
}

#[test]
fn the_last_create_of_the_zero_key_can_be_unlinked() {
    let mut t = ScriptHashTable::create(HeadScale::Tiny);
    let zero = [0u8; 32];
    t.put_create(&ScriptHashRecord::from_fk(zero, Fk(3))).unwrap();
    assert_eq!(t.unlink_create(&zero, Fk(3), 0), Ok(true));
    assert_eq!(t.entries(&zero).unwrap().len(), 0);
    assert_eq!(t.entry_count(), 0);
    t.put_create(&ScriptHashRecord::from_fk(zero, Fk(4))).unwrap();
    assert_eq!(t.contains_create(&zero, Fk(4)), Ok(true));
    assert_eq!(t.contains_create(&zero, Fk(3)), Ok(false));
}

#[test]
fn live_shards_count_unique_keys() {
    let mut t = LiveShardTable::with_key_budget(8);
    let slots = t.slots();
    let mut k = [0u8; 32];
    k[0] = 7;
    t.insert(&k, &one(3)).unwrap();
    t.insert(&k, &one(3)).unwrap();
    assert_eq!((t.keys(), t.occupied()), (1, 1));
    for i in 0..7u8 {
        k[1] = i + 1;
        t.insert(&k, &one(4)).unwrap();
    }
    assert_eq!((t.keys(), t.occupied(), t.slots()), (8, 8, slots));
    let recs = t.collect_sorted_recs();
    assert_eq!(recs.len(), 8);
    assert!(recs.windows(2).all(|w| w[0].key < w[1].key));
}

#[test]
fn heads_stay_under_their_load_limit() {
    let mut h = ScriptHashHead::create_with_slots(2);
    let mut n = 0u64;
    for round in 0..20u8 {
        let mut batch = Vec::new();
        for i in 0..25u8 {
            let mut k = [0u8; 32];
            k[0] = round;
            k[1] = i;
            batch.push((k, one(u64::from(i) + 1)));
        }
        let before = h.slots();
        h.insert_many(&batch).unwrap();
        n += 25;
        assert_eq!(h.occupied(), n);
        assert!(h.slots() >= before);
        assert!(8 * h.occupied() <= 7 * h.slots());
    }
}

#[test]
fn creates_up_to_the_last_bit_are_taken() {
    let mut t = ScriptHashTable::create(HeadScale::Tiny);
    let k = key(2, 3);
    let high = [1u64 << 62, (1 << 62) + 5, (1 << 63) - 1];
    for fk in high {
        t.put_create(&ScriptHashRecord::from_fk(k, Fk(fk))).unwrap();
    }
    assert_eq!(fks(&t, &k), high.to_vec());
    let one = key(2, 4);
    t.put_create(&ScriptHashRecord::from_fk(one, Fk((1 << 63) - 1))).unwrap();
    assert_eq!(fks(&t, &one), vec![(1 << 63) - 1]);
    assert_eq!(
        t.put_create(&ScriptHashRecord::from_fk(one, Fk(1 << 63))),
        Err(StoreError::Corrupt("scripthash: create_fk must be below 2^63"))
    );
}

#[test]
fn the_counter_counts_the_live_creates() {
    let mut t = ScriptHashTable::create(HeadScale::Tiny);
    for i in 0..40u8 {
        for fk in 1..=u64::from(i % 5) + 1 {
            t.put_create(&ScriptHashRecord::from_fk(key(i % 4, i), Fk(fk))).unwrap();
        }
    }
    let live = t.for_each_live_create().unwrap();
    assert_eq!(live.len(), 8 * (1 + 2 + 3 + 4 + 5));
    assert_eq!(t.entry_count(), live.len() as u64);
    assert_eq!(t.unlink_create(&key(0, 4), Fk(2), 0), Ok(true));
    assert_eq!(t.entry_count(), live.len() as u64 - 1);
    assert_eq!(t.for_each_live_create().unwrap().len(), live.len() - 1);
}

#[test]
fn puts_and_unlinks_leave_the_include_mark() {
    let mut t = ScriptHashTable::create(HeadScale::Tiny);
    t.note_include_hwm(9);
    let k = key(1, 1);
    for fk in 1..=300u64 {
        t.put_create(&ScriptHashRecord::from_fk(k, Fk(fk))).unwrap();
        match t.head_value(&k).unwrap().unwrap() {
            ShHeadValue::Inline { used, .. } => assert_eq!((fk, used), (1, 1)),
            ShHeadValue::Slab { used, .. } => {
                assert_eq!(u64::from(used), fk);
                assert!((2..257).contains(&fk));
            }
            ShHeadValue::Extent { .. } => assert!(fk >= 257),
            other => panic!("{other:?}"),
        }
    }
    assert_eq!(t.unlink_create(&k, Fk(300), 0), Ok(true));
    assert_eq!(t.include_hwm(), 9);
    let one = key(1, 2);
    t.put_create(&ScriptHashRecord::from_fk(one, Fk(4))).unwrap();
    assert_eq!(t.unlink_create(&one, Fk(4), 0), Ok(true));
    assert_eq!(t.head_value(&one), Ok(None));
}
