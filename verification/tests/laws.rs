use rbitcoin_store::crc::{crc32, crc32_table, crc_step};
use rbitcoin_store::hashhead::HeadScale;
use rbitcoin_store::mlock::MlockTable;
use rbitcoin_store::primitives::Fk;
use rbitcoin_store::scripthash::{ScriptHashRecord, ScriptHashTable, ShBodyLayout};
use rbitcoin_store::scripthash_layout::{ShEntry, ShHeadValue};
use rbitcoin_store::scripthash_materialize::materialize_sh_shards;
use rbitcoin_store::scripthash_open::{head_file_bytes, is_sorted_head, read_head_file, HeadFile};
use rbitcoin_store::scripthash_pack8::{pack8_word, unpack8_word};
use rbitcoin_store::segmented_head::{HeadLayout, SegmentedTxHead};
use rbitcoin_store::slot_table::Slot;
use rbitcoin_store::sorted_run::{open_run, read_run_body, write_sorted_run_file, SortedRun};
use rbitcoin_store::sp_tweaks::SpTweaksTable;
use rbitcoin_store::text::{next_run_path, seq_from_path};

fn key(b: u8) -> [u8; 32] {
    let mut k = [7u8; 32];
    k[0] = b;
    k
}

fn rec(b: u8, fk: u64) -> ScriptHashRecord {
    ScriptHashRecord::from_fk(key(b), Fk(fk))
}

fn creates(t: &ScriptHashTable, b: u8) -> Vec<u64> {
    t.entries(&key(b))
        .unwrap()
        .iter()
        .map(|(fk, _)| fk.0)
        .collect()
}

fn run(seq: u64, recs: &[ScriptHashRecord]) -> SortedRun {
    let mut bytes = Vec::new();
    for r in recs {
        bytes.extend_from_slice(&r.scripthash);
        bytes.extend_from_slice(&r.create_tx_fk.0.to_le_bytes());
    }
    let (_, file) = write_sorted_run_file(Some(seq), 40, 40, &bytes).unwrap();
    let head = open_run(Some(seq), &file).unwrap();
    let body = read_run_body(&head, &file).unwrap();
    SortedRun { head, body }
}

#[test]
fn puts_loads_and_runs_agree() {
    let recs = vec![rec(1, 4), rec(1, 9), rec(1, 9), rec(70, 2), rec(200, 5), rec(200, 6)];
    let mut put = ScriptHashTable::create(HeadScale::Tiny);
    assert_eq!(put.put_create_batch(&recs).unwrap(), 5);
    let mut cold = ScriptHashTable::create(HeadScale::Tiny);
    let mut s = cold.bulk_session(3).unwrap();
    assert_eq!(s.put_sorted_creates(&mut cold, &recs).unwrap(), 5);
    assert_eq!(s.finish(&mut cold).unwrap(), (5, 3));
    let mut one = ScriptHashTable::create_with_layout(HeadScale::Tiny, ShBodyLayout::Sharded, 4);
    let runs = vec![
        run(1, &[rec(1, 4), rec(1, 9), rec(200, 6)]),
        run(2, &[rec(1, 9), rec(70, 2), rec(200, 5)]),
    ];
    let (totals, _) = materialize_sh_shards(&mut one, &runs, 0, None).unwrap();
    assert_eq!((totals.creates, totals.keys, totals.max_fk), (5, 3, 9));
    let mut other = ScriptHashTable::create_with_layout(HeadScale::Tiny, ShBodyLayout::Sharded, 4);
    let runs = vec![run(
        1,
        &[rec(1, 4), rec(1, 9), rec(70, 2), rec(200, 5), rec(200, 6)],
    )];
    materialize_sh_shards(&mut other, &runs, 0, None).unwrap();
    for b in [1u8, 70, 200, 201] {
        let want = creates(&put, b);
        assert_eq!(creates(&cold, b), want);
        assert_eq!(creates(&one, b), want);
        assert_eq!(creates(&other, b), want);
    }
    assert_eq!(creates(&put, 1), vec![4, 9]);
}

#[test]
fn unlinking_undoes_a_put() {
    let mut t = ScriptHashTable::create(HeadScale::Tiny);
    for fk in [3u64, 8, 12] {
        t.put_create(&rec(5, fk)).unwrap();
    }
    t.put_create(&rec(5, 20)).unwrap();
    assert!(t.unlink_create(&key(5), Fk(20), 0).unwrap());
    assert_eq!(creates(&t, 5), vec![3, 8, 12]);
    assert!(t.unlink_create(&key(5), Fk(8), 0).unwrap());
    assert_eq!(creates(&t, 5), vec![3, 12]);
    assert_eq!(t.entry_count(), 2);
}

#[test]
fn a_sealed_shard_without_records_stays() {
    let mut t = ScriptHashTable::create_with_layout(HeadScale::Tiny, ShBodyLayout::Sharded, 4);
    materialize_sh_shards(&mut t, &vec![run(1, &[rec(1, 4), rec(70, 2)])], 0, None).unwrap();
    materialize_sh_shards(&mut t, &vec![run(2, &[rec(70, 9)])], 0, None).unwrap();
    assert_eq!(creates(&t, 1), vec![4]);
    assert_eq!(creates(&t, 70), vec![9]);
}

#[test]
fn checksum_goes_byte_by_byte() {
    let table = crc32_table();
    let mut c = 0xffff_ffffu32;
    for b in b"123456789" {
        // A step takes the low byte of the state out of the table.
        c = crc_step(&table, c, *b);
    }
    assert_eq!(c ^ 0xffff_ffff, crc32(b"123456789"));
}

#[test]
fn run_names_give_back_their_number() {
    for n in [0u64, 7, 999_999, 1_234_567] {
        assert_eq!(seq_from_path(&next_run_path(n)), Some(n));
    }
    assert_eq!(seq_from_path(b"MANIFEST"), None);
}

#[test]
fn table_codes_differ() {
    assert_ne!(MlockTable::TxIdx.as_u8(), MlockTable::TxHead.as_u8());
}

#[test]
fn packed_words_give_back_their_value() {
    let values = [
        ShHeadValue::Empty,
        ShHeadValue::inline_one(ShEntry::new(Fk(42))),
        ShHeadValue::slab(3, 40, 8192),
        ShHeadValue::paged(0, 4096),
        ShHeadValue::extent(12288),
    ];
    for v in values {
        assert_eq!(unpack8_word(pack8_word(&v).unwrap()).unwrap(), v);
    }
    let two = ShHeadValue::inline_two(ShEntry::new(Fk(1)), ShEntry::new(Fk(2)));
    assert!(pack8_word(&two).is_err());
}

#[test]
fn head_files_give_back_their_records() {
    let f = HeadFile {
        id: 4,
        recs: vec![
            Slot { key: [1; 16], word: 9 },
            Slot { key: [2; 16], word: 11 },
        ],
    };
    let bytes = head_file_bytes(&f);
    assert!(is_sorted_head(&bytes));
    let back = read_head_file(4, &bytes).unwrap();
    assert_eq!(back.recs, f.recs);
    assert!(read_head_file(4, &bytes[..10]).is_err());
    assert!(read_head_file(4, b"none").is_err());
}

#[test]
fn dense_inserts_leave_no_gap() {
    let mut h = SegmentedTxHead::create(HeadLayout::with_entry_bytes(4, 4).unwrap()).unwrap();
    let entries: Vec<([u8; 32], Fk)> = (1..=40u64).map(|i| ([i as u8; 32], Fk(i))).collect();
    h.insert_many(&entries, false).unwrap();
    for w in h.segs.windows(2) {
        assert_eq!(w[1].first_fk, w[0].first_fk + w[0].count);
    }
    assert!(h.segment_count() >= 3);
}

#[test]
fn tweak_records_decode_to_what_was_encoded() {
    let recs = [None, Some([9u8; 33]), None];
    let bytes = SpTweaksTable::encode_records(&recs);
    assert_eq!(
        SpTweaksTable::decode_records(&bytes, 3).unwrap(),
        recs.to_vec()
    );
    assert_eq!(
        SpTweaksTable::decode_eligible(&bytes, 3).unwrap(),
        vec![(1, [9u8; 33])]
    );
    assert!(SpTweaksTable::decode_records(&bytes, 2).is_err());
}
