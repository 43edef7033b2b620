use rbitcoin_store::cold_progress::ColdProgress;
use rbitcoin_store::error::StoreError;
use rbitcoin_store::hashhead::HeadScale;
use rbitcoin_store::primitives::Fk;
use rbitcoin_store::scripthash::{ScriptHashTable, ShBodyLayout};
use rbitcoin_store::scripthash_layout::{payload_start, ShHeadValue};
use rbitcoin_store::scripthash_materialize::{
    decode_sh_run_rec, materialize_sh_shards, materialize_status_creates,
    materialize_status_should_emit, resolve_workers, MATERIALIZE_STATUS_CHECK_EVERY,
    MATERIALIZE_STATUS_INTERVAL_SECS,
};
use rbitcoin_store::scripthash_pages::{
    sh_page_as_array, sh_page_extent, SH_PAGE_SIZE, SH_PAGE_STREAM_MAX,
};
use rbitcoin_store::sorted_run::{open_run, read_run_body, write_sorted_run_file, SortedRun};

fn key(shard: u8, i: u8) -> [u8; 32] {
    let mut k = [0u8; 32];
    k[0] = shard << 6 | (i & 0x3f);
    k
}

fn rec(shard: u8, i: u8, fk: u64) -> [u8; 40] {
    let mut r = [0u8; 40];
    r[..32].copy_from_slice(&key(shard, i));
    r[32..40].copy_from_slice(&fk.to_le_bytes());
    r
}

fn run(seq: u64, records: &[u8]) -> SortedRun {
    let (_, file) = write_sorted_run_file(Some(seq), 40, 40, records).unwrap();
    let head = open_run(Some(seq), &file).unwrap();
    let body = read_run_body(&head, &file).unwrap();
    SortedRun { head, body }
}

fn four_shard_table() -> ScriptHashTable {
    ScriptHashTable::create_with_layout(HeadScale::Tiny, ShBodyLayout::Sharded, 4)
}

fn four_keys() -> Vec<SortedRun> {
    let mut body = Vec::new();
    for shard in 0..4u8 {
        body.extend_from_slice(&rec(shard, 0, u64::from(shard) + 1));
    }
    vec![run(1, &body)]
}

fn publish_one(t: &mut ScriptHashTable, shard: usize) -> u64 {
    let mut session = t.pack_shard_session(shard).unwrap();
    session
        .push_sorted_fk(t, key(shard as u8, 0), Fk(shard as u64 + 1))
        .unwrap();
    let pack = session.finish_pack(t).unwrap();
    t.publish_packed_shard(shard, &pack).unwrap()
}

#[test]
fn materialize_parallel_matches_serial() {
    let mut a = Vec::new();
    let mut b = Vec::new();
    for shard in 0..4u8 {
        for i in 0..3u8 {
            let fk = u64::from(shard) * 10 + u64::from(i) + 1;
            if i % 2 == 0 {
                a.extend_from_slice(&rec(shard, i, fk));
            } else {
                b.extend_from_slice(&rec(shard, i, fk));
            }
        }
    }
    let inputs = vec![run(1, &a), run(2, &b)];
    let mut all = four_shard_table();
    let (s, done) = materialize_sh_shards(&mut all, &inputs, 0, None).unwrap();
    assert_eq!(done.unwrap().next_shard, 4);

    // Shard by shard gives the same table.
    let mut one = four_shard_table();
    assert_eq!(one.body_layout(), ShBodyLayout::Sharded);
    let mut keys = 0u64;
    for shard in 0..4usize {
        let mut session = one.pack_shard_session(shard).unwrap();
        for i in 0..3u8 {
            let fk = shard as u64 * 10 + u64::from(i) + 1;
            session
                .push_sorted_fk(&mut one, key(shard as u8, i), Fk(fk))
                .unwrap();
        }
        let pack = session.finish_pack(&mut one).unwrap();
        keys += pack.keys;
        one.publish_packed_shard(shard, &pack).unwrap();
    }
    assert_eq!(s.creates, 12);
    assert_eq!(s.keys, keys);
    assert_eq!(s.max_fk, 33);
    assert_eq!(all.entry_count(), one.entry_count());
    for shard in 0..4u8 {
        for i in 0..3u8 {
            let k = key(shard, i);
            assert_eq!(
                all.entries(&k).unwrap(),
                one.entries(&k).unwrap(),
                "shard={shard} i={i}"
            );
        }
    }
}

#[test]
fn materialize_parallel_resume() {
    let inputs = four_keys();
    let mut t = four_shard_table();
    let bump = publish_one(&mut t, 0);
    let k0 = key(0, 0);
    assert_eq!(t.entries(&k0).unwrap().len(), 1);
    let prior = ColdProgress {
        next_shard: 1,
        body_bump: bump,
        live_count: 1,
        keys_written: 1,
    };
    materialize_sh_shards(&mut t, &inputs, 1, Some(prior)).unwrap();
    assert_eq!(t.entries(&k0).unwrap()[0].1.create_tx_fk, Fk(1));
    assert_eq!(t.entries(&key(3, 0)).unwrap().len(), 1);
}

#[test]
fn materialize_sharded_resume_keeps_sealed_holes() {
    let inputs = four_keys();
    let mut t = four_shard_table();
    for shard in [0usize, 2] {
        publish_one(&mut t, shard);
    }
    assert_eq!(t.entries(&key(0, 0)).unwrap().len(), 1);
    assert_eq!(t.entries(&key(2, 0)).unwrap().len(), 1);
    assert!(t.main[2].is_some());
    let p = ColdProgress {
        next_shard: 1,
        body_bump: 0,
        live_count: 2,
        keys_written: 2,
    };
    t.prepare_cold_resume(&ColdProgress::load(Some(&p.store())).unwrap())
        .unwrap();
    assert_eq!(
        t.entries(&key(2, 0)).unwrap().len(),
        1,
        "sealed shard 2 must survive a hole at shard 1"
    );
    materialize_sh_shards(&mut t, &inputs, 1, Some(p)).unwrap();
    for shard in 0..4u8 {
        assert_eq!(t.entries(&key(shard, 0)).unwrap().len(), 1, "shard {shard}");
    }
}

#[test]
fn materialize_no_temp_body() {
    let mut a = Vec::new();
    let mut b = Vec::new();
    let mega_key = key(0, 7);
    let n_mega = SH_PAGE_STREAM_MAX + 10;
    for shard in 0..4u8 {
        for i in 0..3u8 {
            let fk = u64::from(shard) * 10 + u64::from(i) + 1;
            if i % 2 == 0 {
                a.extend_from_slice(&rec(shard, i, fk));
            } else {
                b.extend_from_slice(&rec(shard, i, fk));
            }
        }
        if shard == 0 {
            for i in 1..=n_mega as u64 {
                a.extend_from_slice(&rec(0, 7, i));
            }
        }
    }
    let inputs = vec![run(1, &a), run(2, &b)];
    let mut t = four_shard_table();
    materialize_sh_shards(&mut t, &inputs, 0, None).unwrap();
    let payload0 = payload_start(16);
    let b0 = t.bodies[0].bump;
    let b1 = t.bodies[1].bump;
    assert!(
        b0 > b1.saturating_mul(2).max(payload0 + 4096),
        "megakey shard body must dwarf a small sibling, got {b0} vs {b1}"
    );
    assert_eq!(t.entries(&key(0, 0)).unwrap().len(), 1);
    assert_eq!(t.entries(&mega_key).unwrap().len(), n_mega);
    match t.head_value(&mega_key).unwrap().unwrap() {
        ShHeadValue::Extent { last_page } => {
            let page = t.bodies[0].read_at(last_page, SH_PAGE_SIZE).unwrap();
            let (base, n) =
                sh_page_extent(sh_page_as_array(&page).unwrap()).expect("ver=2 last page");
            assert_eq!(n, 2);
            assert_eq!(last_page, base + SH_PAGE_SIZE as u64);
        }
        other => panic!("expected extent megakey, got {other:?}"),
    }
}

#[test]
fn materialize_status_emits_mid_key_after_interval() {
    let interval = MATERIALIZE_STATUS_INTERVAL_SECS;
    assert!(
        !materialize_status_should_emit(Some(0), interval, MATERIALIZE_STATUS_CHECK_EVERY, false),
        "must not emit before the wall interval"
    );
    assert!(
        materialize_status_should_emit(Some(interval), interval, 1, true),
        "key close after interval still emits"
    );
    assert!(
        !materialize_status_should_emit(
            Some(interval),
            interval,
            MATERIALIZE_STATUS_CHECK_EVERY - 1,
            false
        ),
        "mid-key off-stride must not clock every rec"
    );
    assert!(
        materialize_status_should_emit(
            Some(interval),
            interval,
            MATERIALIZE_STATUS_CHECK_EVERY,
            false
        ),
        "mid-key megakey after interval must heartbeat on the rec stride"
    );
    assert_eq!(
        materialize_status_creates(92_697_818, 62_870_375),
        155_568_193
    );
    assert_eq!(materialize_status_creates(u64::MAX, 8), u64::MAX);
    assert!(materialize_status_should_emit(None, interval, 1, true));
}

#[test]
fn run_records_decode() {
    assert_eq!(
        decode_sh_run_rec(&rec(1, 2, 77)).unwrap(),
        (key(1, 2), Fk(77))
    );
    assert!(matches!(
        decode_sh_run_rec(&[0u8; 39]),
        Err(StoreError::Corrupt(_))
    ));
}

#[test]
fn workers_are_bounded() {
    assert_eq!(resolve_workers(8, 4, 2, ShBodyLayout::Sharded, 0), 4);
    assert_eq!(resolve_workers(8, 4, 2, ShBodyLayout::Shared, 0), 1);
    assert_eq!(resolve_workers(0, 4, 2, ShBodyLayout::Sharded, 0), 1);
}

#[test]
fn two_loads_of_the_same_runs_agree() {
    let mut body = Vec::new();
    for (shard, i, fk) in [(0, 1, 5), (0, 1, 9), (1, 2, 7), (3, 3, 2), (3, 4, 11)] {
        body.extend_from_slice(&rec(shard, i, fk));
    }
    let runs = vec![run(1, &body), run(2, &rec(1, 2, 8))];
    let mut a = four_shard_table();
    let mut b = ScriptHashTable::create_with_layout(HeadScale::Tiny, ShBodyLayout::Shared, 4);
    let (ta, pa) = materialize_sh_shards(&mut a, &runs, 0, None).unwrap();
    let (tb, pb) = materialize_sh_shards(&mut b, &runs, 0, None).unwrap();
    assert_eq!(ta, tb);
    assert_eq!((ta.creates, ta.keys, ta.max_fk), (6, 4, 11));
    for (shard, i) in [(0, 1), (1, 2), (2, 2), (3, 3), (3, 4)] {
        assert_eq!(a.entries(&key(shard, i)), b.entries(&key(shard, i)));
    }
    assert_eq!(a.entry_count(), 6);
    assert_eq!(a.for_each_live_create().unwrap().len(), 6);
    assert_eq!(b.entry_count(), 6);
    let (pa, pb) = (pa.unwrap(), pb.unwrap());
    assert_eq!((pa.next_shard, pb.next_shard), (4, 4));
    assert_eq!(pa.body_bump, a.bodies[3].bump);
    assert_eq!(pb.body_bump, b.bodies[0].bump);
}

#[test]
fn the_progress_ends_at_the_last_shard_with_creates() {
    let mut body = Vec::new();
    for fk in [5, 9, 12] {
        body.extend_from_slice(&rec(1, 1, fk));
    }
    let mut t = four_shard_table();
    let start = t.bodies[0].bump;
    let (_, p) = materialize_sh_shards(&mut t, &vec![run(1, &body)], 0, None).unwrap();
    assert!(t.bodies[1].bump > start);
    assert_eq!(p.unwrap().body_bump, t.bodies[1].bump);
    let mut e = four_shard_table();
    let (_, p) = materialize_sh_shards(&mut e, &Vec::new(), 0, None).unwrap();
    assert_eq!(p.unwrap().body_bump, start);
}

#[test]
fn hashes_that_share_their_key_load_alike() {
    let mut twin = rec(1, 2, 9);
    twin[31] = 1;
    let mut body = rec(1, 2, 5).to_vec();
    body.extend_from_slice(&rec(1, 2, 7));
    body.extend_from_slice(&twin);
    let runs = vec![run(1, &body)];
    let mut a = four_shard_table();
    let mut b = ScriptHashTable::create_with_layout(HeadScale::Tiny, ShBodyLayout::Shared, 4);
    let (ta, _) = materialize_sh_shards(&mut a, &runs, 0, None).unwrap();
    let (tb, _) = materialize_sh_shards(&mut b, &runs, 0, None).unwrap();
    assert_eq!(ta, tb);
    assert_eq!((ta.creates, ta.keys, ta.max_fk), (3, 2, 9));
    let fks: Vec<u64> =
        a.entries(&key(1, 2)).unwrap().iter().map(|(fk, _)| fk.0).collect();
    assert_eq!(fks, vec![5, 7]);
    assert_eq!(a.entries(&key(1, 2)), b.entries(&key(1, 2)));
}
