use rbitcoin_store::cold_progress::ColdProgress;
use rbitcoin_store::error::StoreError;
use rbitcoin_store::primitives::Fk;
use rbitcoin_store::scripthash::{
    script_hash, KeyHome, ScriptHashRecord, ScriptHashTable, ShBodyLayout,
};
use rbitcoin_store::scripthash_layout::{payload_start, ShEntry, ShHeadValue};
use rbitcoin_store::scripthash_pack8::pack8_word;
use rbitcoin_store::scripthash_pages::{
    sh_page_as_array, sh_page_extent, SH_PAGE_EXTENT_STREAM_MAX, SH_PAGE_SIZE, SH_PAGE_STREAM_MAX,
};
use rbitcoin_store::scripthash_remap::{
    copy_sh_body_range, remap_copied_page_chain, remap_sh_head_value,
};
use rbitcoin_store::hashhead::HeadScale;

const FILE_HEADER_LEN: usize = 16;

fn rec(sh: [u8; 32], tx: u64, _vout: u32) -> ScriptHashRecord {
    ScriptHashRecord::from_fk(sh, Fk(tx))
}

fn four_shard_table() -> ScriptHashTable {
    ScriptHashTable::create_with_layout(HeadScale::Tiny, ShBodyLayout::Sharded, 4)
}

fn shared_body_table() -> ScriptHashTable {
    ScriptHashTable::create_with_layout(HeadScale::Tiny, ShBodyLayout::Shared, 1)
}

fn sh_prefix_key(shard: u8, i: u8) -> [u8; 32] {
    let mut k = [0u8; 32];
    k[0] = shard << 6 | (i & 0x3f);
    k
}

fn shard0_key(i: u8) -> [u8; 32] {
    let mut k = [0u8; 32];
    k[0] = i & 0x3f;
    k
}

fn extent_meta(t: &ScriptHashTable, sh: &[u8; 32]) -> (u64, u64, u32) {
    match t.head_value(sh).unwrap().unwrap() {
        ShHeadValue::Extent { last_page } => {
            let mut page = [0u8; SH_PAGE_SIZE];
            page.copy_from_slice(&t.bodies[0].read_at(last_page, SH_PAGE_SIZE).unwrap());
            let (base, n) =
                sh_page_extent(sh_page_as_array(&page).unwrap()).expect("ver=2 last page");
            (base, last_page, n)
        }
        other => panic!("expected extent, got {other:?}"),
    }
}

#[test]
fn sh_bodies_are_split() {
    let mut t = four_shard_table();
    assert_eq!(t.head_shard_count(), 4);
    assert_eq!(t.body_layout(), ShBodyLayout::Sharded);
    let k0 = sh_prefix_key(0, 0);
    let k2 = sh_prefix_key(2, 0);
    let ents: Vec<ShEntry> = (1..=8).map(|i| ShEntry::new(Fk(i))).collect();
    {
        let mut s = t.bulk_session(16).unwrap();
        s.put_chain(&mut t, k0, &ents).unwrap();
        s.put_chain(&mut t, k2, &ents).unwrap();
        s.finish(&mut t).unwrap();
    }
    let payload0 = payload_start(FILE_HEADER_LEN);
    assert!(
        t.bodies[0].bump > payload0,
        "shard 0 body must grow"
    );
    assert_eq!(
        t.bodies[1].bump,
        payload0,
        "shard 1 body stays empty"
    );
    assert!(
        t.bodies[2].bump > payload0,
        "shard 2 body must grow"
    );
    assert_eq!(t.bodies[3].bump, payload0);
    let k_new = sh_prefix_key(1, 0);
    for i in 1..=8u64 {
        t.put_create(&rec(k_new, i, 0)).unwrap();
    }
    let ovf_len = t.bodies[4].bump;
    assert!(ovf_len > payload0, "ovf ingest slab must land in ovf/body");
    assert_eq!(
        t.bodies[1].bump,
        payload0,
        "ingest must not grow a main shard body"
    );
    assert_eq!(t.entries(&k0).unwrap().len(), 8);
    assert_eq!(t.entries(&k2).unwrap().len(), 8);
    assert_eq!(t.entries(&k_new).unwrap().len(), 8);

    let mut ft = shared_body_table();
    assert_eq!(ft.body_layout(), ShBodyLayout::Shared);
    {
        let mut s = ft.bulk_session(16).unwrap();
        s.put_chain(&mut ft, k0, &ents).unwrap();
        s.put_chain(&mut ft, k2, &ents).unwrap();
        s.finish(&mut ft).unwrap();
    }
    for i in 1..=8u64 {
        ft.put_create(&rec(k_new, i, 0)).unwrap();
    }
    assert!(ft.bodies[0].bump > payload0);
    assert_eq!(ft.bodies.len(), 1);
    assert_eq!(ft.entries(&k0).unwrap().len(), 8);
    assert_eq!(ft.entries(&k_new).unwrap().len(), 8);
}

#[test]
fn cold_install_sorted_main_and_global_ingest() {
    let mut t = ScriptHashTable::create(HeadScale::Tiny);
    let sh_main = script_hash(&[0x10]);
    let sh_new = script_hash(&[0x99]);
    let mut session = t.bulk_session(16).unwrap();
    session
        .put_chain(&mut t, sh_main, &[ShEntry::new(Fk(1)), ShEntry::new(Fk(2))])
        .unwrap();
    session.finish(&mut t).unwrap();
    assert!(
        t.main.iter().any(|m| m.is_some()),
        "bulk must emit a sealed sorted main shard"
    );
    assert!(t.main[0].is_some(), "bulk must seal main shard 0");

    t.put_create(&rec(sh_main, 3, 0)).unwrap();
    assert_eq!(t.entries(&sh_main).unwrap().len(), 3);
    assert!(matches!(t.key_home(&sh_main), KeyHome::Main));

    t.put_create(&rec(sh_new, 10, 0)).unwrap();
    assert_eq!(t.entries(&sh_new).unwrap().len(), 1);
    assert!(matches!(t.key_home(&sh_new), KeyHome::Ingest));
    t.put_create(&rec(sh_new, 11, 0)).unwrap();
    assert_eq!(t.entries(&sh_new).unwrap().len(), 2);
    assert!(matches!(t.key_home(&sh_new), KeyHome::Ingest));
    let mut t = ScriptHashTable::open(&t.save()).unwrap();
    assert_eq!(t.entries(&sh_main).unwrap().len(), 3);
    assert_eq!(t.entries(&sh_new).unwrap().len(), 2);
    assert!(matches!(t.key_home(&sh_main), KeyHome::Main));
    assert!(matches!(t.key_home(&sh_new), KeyHome::Ingest));
}

#[test]
fn reopen_after_ingest_seal_and_unlink_homes() {
    let mut t = ScriptHashTable::create(HeadScale::Tiny);
    let sh_main = script_hash(&[0x10]);
    let mut session = t.bulk_session(8).unwrap();
    session.put_chain(&mut t, sh_main, &[ShEntry::new(Fk(1))]).unwrap();
    session.finish(&mut t).unwrap();

    let mut first_new = [0u8; 32];
    for i in 0..210u32 {
        let sh = script_hash(&[0xa1, (i & 0xff) as u8, (i >> 8) as u8, 0x01]);
        if i == 0 {
            first_new = sh;
        }
        t.put_create(&rec(sh, 1000 + u64::from(i), 0)).unwrap();
    }
    assert_eq!(t.sealed_ovf.len(), 1);
    assert!(matches!(
        t.key_home(&first_new),
        KeyHome::SealedOvf
    ));

    t.unlink_create(&sh_main, Fk(1), 0).unwrap();
    assert!(t.entries(&sh_main).unwrap().is_empty());
    t.unlink_create(&first_new, Fk(1000), 0).unwrap();
    assert!(t.entries(&first_new).unwrap().is_empty());

    let mut t = ScriptHashTable::open(&t.save()).unwrap();
    assert!(t.entries(&sh_main).unwrap().is_empty());
    assert!(t.entries(&first_new).unwrap().is_empty());
    assert!(matches!(t.key_home(&sh_main), KeyHome::Main));
    assert!(matches!(
        t.key_home(&first_new),
        KeyHome::SealedOvf
    ));
}

#[test]
fn compact_merges_two_sealed_global_ovf_files() {
    let mut t = ScriptHashTable::create(HeadScale::Tiny);
    let sh_main = script_hash(&[0x10]);
    let mut session = t.bulk_session(8).unwrap();
    session.put_chain(&mut t, sh_main, &[ShEntry::new(Fk(1))]).unwrap();
    session.finish(&mut t).unwrap();

    let mut first_new = [0u8; 32];
    let mut second_new = [0u8; 32];
    for i in 0..210u32 {
        let sh = script_hash(&[0xa1, (i & 0xff) as u8, (i >> 8) as u8, 0x01]);
        if i == 0 {
            first_new = sh;
        }
        t.put_create(&rec(sh, 1000 + u64::from(i), 0)).unwrap();
    }
    assert_eq!(t.sealed_ovf.len(), 1, "first ingest seal");
    for i in 0..210u32 {
        let sh = script_hash(&[0xa2, (i & 0xff) as u8, (i >> 8) as u8, 0x02]);
        if i == 0 {
            second_new = sh;
        }
        t.put_create(&rec(sh, 2000 + u64::from(i), 0)).unwrap();
    }
    assert_eq!(t.sealed_ovf.len(), 2, "second ingest seal");

    t.compact_sealed_ovf().unwrap();
    assert_eq!(
        t.sealed_ovf.len(),
        0,
        "L0 unlinked after promote"
    );
    assert!(
        t.ovf_l1.is_some(),
        "compact promotes L1 MPHF"
    );
    assert_eq!(t.entries(&first_new).unwrap().len(), 1);
    assert_eq!(t.entries(&second_new).unwrap().len(), 1);
    assert_eq!(t.entries(&sh_main).unwrap().len(), 1);
    assert!(matches!(t.key_home(&sh_main), KeyHome::Main));
    assert!(matches!(
        t.key_home(&first_new),
        KeyHome::SealedOvf
    ));

    t.compact_sealed_ovf().unwrap();
    assert!(t.ovf_l1.is_some());
    assert_eq!(t.sealed_ovf.len(), 0);
    assert_eq!(t.entries(&first_new).unwrap().len(), 1);

    for i in 0..210u32 {
        let sh = script_hash(&[0xa3, (i & 0xff) as u8, (i >> 8) as u8, 0x03]);
        t.put_create(&rec(sh, 3000 + u64::from(i), 0)).unwrap();
    }
    assert_eq!(t.sealed_ovf.len(), 1);
    t.compact_sealed_ovf().unwrap();
    assert_eq!(t.sealed_ovf.len(), 1, "L1 frozen: L0 stays");
    assert_eq!(t.entries(&first_new).unwrap().len(), 1);
}

#[test]
fn bulk_session_packs_smallest_class_for_the_packed_length() {
    let mut t = ScriptHashTable::create(HeadScale::Tiny);
    let mut session = t.bulk_session(16).unwrap();
    let cases: &[(u8, u32)] = &[(0x01, 1), (0x02, 2), (0x06, 6), (0x14, 20), (0x60, 600)];
    for &(tag, n) in cases {
        let mut sh = [0u8; 32];
        sh[0] = tag;
        let ents: Vec<_> = (1..=u64::from(n)).map(|i| ShEntry::new(Fk(i))).collect();
        session.put_chain(&mut t, sh, &ents).unwrap();
    }
    let (creates, keys) = session.finish(&mut t).unwrap();
    assert_eq!(keys, 5);
    assert_eq!(creates, 1 + 2 + 6 + 20 + 600);

    let sh = |tag: u8| {
        let mut k = [0u8; 32];
        k[0] = tag;
        k
    };
    assert!(matches!(
        t.head_value(&sh(0x01)).unwrap().unwrap(),
        ShHeadValue::Inline { used: 1, .. }
    ));
    assert!(matches!(
        t.head_value(&sh(0x02)).unwrap().unwrap(),
        ShHeadValue::Slab { used: 2, .. }
    ));
    match t.head_value(&sh(0x06)).unwrap().unwrap() {
        ShHeadValue::Slab { class, used, .. } => {
            assert_eq!(class, 0, "6 tight deltas fit class 0 (32 B)");
            assert_eq!(used, 6);
        }
        other => panic!("expected class-0 slab, got {other:?}"),
    }
    match t.head_value(&sh(0x14)).unwrap().unwrap() {
        ShHeadValue::Slab { class, used, .. } => {
            assert_eq!(class, 0, "20 tight deltas fit class 0 (32 B)");
            assert_eq!(used, 20);
        }
        other => panic!("expected class-0 slab, got {other:?}"),
    }
    match t.head_value(&sh(0x60)).unwrap().unwrap() {
        ShHeadValue::Slab { class, used, .. } => {
            assert_eq!(used, 600);
            assert!(
                class <= 6,
                "600 1-byte deltas stay in a relocating slab, class={class}"
            );
        }
        other => panic!("expected slab for 600 tight deltas, got {other:?}"),
    }
    assert_eq!(t.entries(&sh(0x06)).unwrap().len(), 6);
    assert_eq!(t.entries(&sh(0x60)).unwrap().len(), 600);

    let payload = t.bodies[0].bump.saturating_sub(4096);
    let tight = 32 + 32 + 1024;
    assert!(
        payload <= 2 * tight,
        "cold body {payload} must stay within 2× packed {tight}"
    );
}

#[test]
fn bulk_session_put_chain_roundtrip() {
    let mut t = ScriptHashTable::create(HeadScale::Tiny);
    let mut session = t.bulk_session(100).unwrap();
    // Many distinct keys, mix of inline and slab.
    for i in 0..50u32 {
        let mut sh = [0u8; 32];
        sh[0] = i as u8;
        sh[1] = 0xab;
        let n = if i % 5 == 0 { 8 } else { 1 + (i % 2) };
        let ents: Vec<_> = (0..n)
            .map(|j| ShEntry::new(Fk(u64::from(i) * 100 + u64::from(j) + 1)))
            .collect();
        session.put_chain(&mut t, sh, &ents).unwrap();
    }
    let (creates, keys) = session.finish(&mut t).unwrap();
    assert_eq!(keys, 50);
    assert_eq!(creates, t.entry_count());
    assert!(creates > 50);
    // Spot-check a slab key (i=0 → 8 creates).
    let mut sh0 = [0u8; 32];
    sh0[1] = 0xab;
    assert_eq!(t.entries(&sh0).unwrap().len(), 8);
    // Spot-check inline.
    let mut sh1 = [0u8; 32];
    sh1[0] = 1;
    sh1[1] = 0xab;
    assert_eq!(t.entries(&sh1).unwrap().len(), 2);
    let mut t2 = ScriptHashTable::open(&t.save()).unwrap();
    assert_eq!(t2.entry_count(), creates);
    assert_eq!(t2.entries(&sh0).unwrap().len(), 8);
}

#[test]
fn bulk_session_stream_megakey_caps_buf_at_page() {
    let mut t = ScriptHashTable::create(HeadScale::Tiny);
    let n = SH_PAGE_STREAM_MAX + 10;
    let mut sh = [0u8; 32];
    sh[0] = 0x42;
    let mut session = t.bulk_session(1).unwrap();
    let mut peak = 0usize;
    for i in 1..=n as u64 {
        session.push_sorted_fk(&mut t, sh, Fk(i)).unwrap();
        peak = peak.max(session.buffered_fks());
        assert!(
            session.buffered_fks() <= SH_PAGE_STREAM_MAX,
            "buf={} after fk={i}",
            session.buffered_fks()
        );
    }
    session.finish_key(&mut t).unwrap();
    assert!(peak <= SH_PAGE_STREAM_MAX, "peak buf={peak}");
    let (creates, keys) = session.finish(&mut t).unwrap();
    assert_eq!(keys, 1);
    assert_eq!(creates, n as u64);
    assert_eq!(t.entries(&sh).unwrap().len(), n);
    match t.head_value(&sh).unwrap().unwrap() {
        ShHeadValue::Extent { last_page } => {
            let w = pack8_word(&ShHeadValue::extent(last_page)).unwrap();
            assert_eq!(w >> 62, 3);
            let mut page = [0u8; SH_PAGE_SIZE];
            page.copy_from_slice(&t.bodies[0].read_at(last_page, SH_PAGE_SIZE).unwrap());
            let (base, n) = sh_page_extent(sh_page_as_array(&page).unwrap())
                .expect("ver=2 last page");
            assert_eq!(n, 2);
            assert_eq!(last_page, base + SH_PAGE_SIZE as u64);
        }
        other => panic!("expected extent, got {other:?}"),
    }
}

#[test]
fn remap_sh_body() {
    let mut src = ScriptHashTable::create(HeadScale::Tiny);
    let mut slab_key = [0u8; 32];
    slab_key[0] = 0x11;
    let mut mega_key = [0u8; 32];
    mega_key[0] = 0x22;
    let n_mega = SH_PAGE_STREAM_MAX + 10;
    let mut session = src.bulk_session(2).unwrap();
    for i in 1..=8u64 {
        session.push_sorted_fk(&mut src, slab_key, Fk(i)).unwrap();
    }
    session.finish_key(&mut src).unwrap();
    for i in 1..=n_mega as u64 {
        session.push_sorted_fk(&mut src, mega_key, Fk(i)).unwrap();
    }
    session.finish_key(&mut src).unwrap();
    let _ = session.finish(&mut src).unwrap();
    let slab_val = src.head_value(&slab_key).unwrap().unwrap();
    let mega_val = src.head_value(&mega_key).unwrap().unwrap();
    assert!(matches!(slab_val, ShHeadValue::Slab { .. }));
    assert!(matches!(mega_val, ShHeadValue::Extent { .. }));
    let src_lo = payload_start(FILE_HEADER_LEN);
    let src_hi = src.alloc_bump();
    let delta = 3 * SH_PAGE_SIZE as u64;
    let mut dst = ScriptHashTable::create(HeadScale::Tiny);
    copy_sh_body_range(
        &src.bodies[0].bytes,
        src_lo,
        src_hi,
        &mut dst.bodies[0].bytes,
        src_lo + delta,
    )
    .unwrap();
    let slab_r = remap_sh_head_value(&slab_val, delta);
    let mega_r = remap_sh_head_value(&mega_val, delta);
    if let ShHeadValue::Extent { last_page } = mega_r {
        let mut page = [0u8; SH_PAGE_SIZE];
        page.copy_from_slice(&dst.bodies[0].read_at(last_page, SH_PAGE_SIZE).unwrap());
        let (base, _) =
            sh_page_extent(sh_page_as_array(&page).unwrap()).expect("ver=2 last page");
        remap_copied_page_chain(&mut dst.bodies[0].bytes, base.saturating_add(delta), delta)
            .unwrap();
    }
    let slab: Vec<u64> = dst.bodies[0]
        .collect_entries_from(&slab_r)
        .unwrap()
        .iter()
        .map(|f| f.0)
        .collect();
    assert_eq!(slab, (1..=8u64).collect::<Vec<u64>>());
    let mega: Vec<u64> = dst.bodies[0]
        .collect_entries_from(&mega_r)
        .unwrap()
        .iter()
        .map(|f| f.0)
        .collect();
    assert_eq!(mega.len(), n_mega);
    assert_eq!(mega, (1..=n_mega as u64).collect::<Vec<u64>>());
}

#[test]
fn pack_one_shard() {
    let mut t = four_shard_table();
    assert_eq!(t.head_shard_count(), 4);
    let key = |shard: u8, i: u8| {
        let mut k = [0u8; 32];
        k[0] = shard << 6 | (i & 0x3f);
        k
    };
    let k0 = key(0, 0);
    let k1 = key(0, 1);
    let mut session = t.pack_shard_session(0).unwrap();
    session.push_sorted_fk(&mut t, k0, Fk(1)).unwrap();
    session.push_sorted_fk(&mut t, k1, Fk(2)).unwrap();
    let pack = session.finish_pack(&mut t).unwrap();
    assert_eq!(pack.keys, 2);
    let bump0 = t.alloc_bump();
    let new_bump = t.publish_packed_shard(0, &pack).unwrap();
    assert!(new_bump >= bump0);
    assert_eq!(t.entries(&k0).unwrap().len(), 1);
    assert_eq!(t.entries(&k1).unwrap().len(), 1);
    assert!(t.head_value(&key(1, 0)).unwrap().is_none());
}

#[test]
fn bulk_dense_five_fks_use_class0_slab() {
    let mut t = four_shard_table();
    let k = shard0_key(1);
    let mut session = t.pack_shard_session(0).unwrap();
    for fk in 1..=5u64 {
        session.push_sorted_fk(&mut t, k, Fk(fk)).unwrap();
    }
    let pack = session.finish_pack(&mut t).unwrap();
    t.publish_packed_shard(0, &pack).unwrap();
    match t.head_value(&k).unwrap().unwrap() {
        ShHeadValue::Slab { class, used, .. } => {
            assert_eq!(used, 5);
            assert_eq!(class, 0, "5 tight deltas must fit a 32 B class-0 slab");
        }
        other => panic!("expected class-0 slab, got {other:?}"),
    }
    assert_eq!(t.entries(&k).unwrap().len(), 5);
}

#[test]
fn bulk_dense_over_cap_stays_slab_until_deltas_fill() {
    let mut t = four_shard_table();
    let k = shard0_key(2);
    let n = 300u64;
    let mut session = t.pack_shard_session(0).unwrap();
    for fk in 1..=n {
        session.push_sorted_fk(&mut t, k, Fk(fk)).unwrap();
    }
    let pack = session.finish_pack(&mut t).unwrap();
    t.publish_packed_shard(0, &pack).unwrap();
    match t.head_value(&k).unwrap().unwrap() {
        ShHeadValue::Slab { class, used, .. } => {
            assert_eq!(used, n as u16);
            assert!(
                class <= 5,
                "300 1-byte deltas (~302 B payload) must not jump to pages; class={class}"
            );
        }
        other => panic!("expected slab, got {other:?}"),
    }
    assert_eq!(t.entries(&k).unwrap().len(), n as usize);
}

#[test]
fn bulk_reuses_page_align_gap_for_later_slab() {
    let mut t = four_shard_table();
    let payload0 = payload_start(FILE_HEADER_LEN);
    let small_a = shard0_key(3);
    let mega = shard0_key(4);
    let small_b = shard0_key(5);
    let mut session = t.pack_shard_session(0).unwrap();
    for fk in 1..=5u64 {
        session.push_sorted_fk(&mut t, small_a, Fk(fk)).unwrap();
    }
    for fk in 1..=2100u64 {
        session.push_sorted_fk(&mut t, mega, Fk(fk)).unwrap();
    }
    for fk in 1..=5u64 {
        session.push_sorted_fk(&mut t, small_b, Fk(fk)).unwrap();
    }
    let pack = session.finish_pack(&mut t).unwrap();
    let bump = pack.bump;
    t.publish_packed_shard(0, &pack).unwrap();
    let page = SH_PAGE_SIZE as u64;
    let aligned_after_first_slab = (payload0 + 32 + page - 1) & !(page - 1);
    assert_eq!(
        bump,
        aligned_after_first_slab + page,
        "second class-0 slab must come from the align-gap freelist; bump={bump}"
    );
    match t.head_value(&small_b).unwrap().unwrap() {
        ShHeadValue::Slab { off, class, .. } => {
            assert_eq!(class, 0);
            assert!(
                off >= payload0 && off < aligned_after_first_slab,
                "reused slab off={off} must sit in the gap before the megakey page"
            );
        }
        other => panic!("expected reused slab, got {other:?}"),
    }
    assert_eq!(t.entries(&small_a).unwrap().len(), 5);
    assert_eq!(t.entries(&mega).unwrap().len(), 2100);
    assert_eq!(t.entries(&small_b).unwrap().len(), 5);
}

#[test]
fn bulk_session_stream_small_key_still_slab() {
    let mut t = ScriptHashTable::create(HeadScale::Tiny);
    let mut sh = [0u8; 32];
    sh[0] = 0x07;
    let mut session = t.bulk_session(1).unwrap();
    for i in 1..=8u64 {
        session.push_sorted_fk(&mut t, sh, Fk(i)).unwrap();
        assert_eq!(session.buffered_fks(), i as usize);
    }
    session.finish_key(&mut t).unwrap();
    let _ = session.finish(&mut t).unwrap();
    match t.head_value(&sh).unwrap().unwrap() {
        ShHeadValue::Slab { .. } => {}
        other => panic!("expected slab, got {other:?}"),
    }
    assert_eq!(t.entries(&sh).unwrap().len(), 8);
}

/// Delta stream in 4073..=4088 B fits `ver=1` but not `ver=2` last-page header.
#[test]
fn bulk_session_extent_last_page_splits_when_ver2_header_eats_stream() {
    let mut t = ScriptHashTable::create(HeadScale::Tiny);
    let n = SH_PAGE_EXTENT_STREAM_MAX + 8;
    let mut sh = [0u8; 32];
    sh[0] = 0x11;
    let ents: Vec<_> = (1..=n as u64).map(|i| ShEntry::new(Fk(i))).collect();
    let mut session = t.bulk_session(1).unwrap();
    session.put_chain(&mut t, sh, &ents).unwrap();
    let (creates, keys) = session.finish(&mut t).unwrap();
    assert_eq!(keys, 1);
    assert_eq!(creates, n as u64);
    assert_eq!(t.entries(&sh).unwrap().len(), n);
    match t.head_value(&sh).unwrap().unwrap() {
        ShHeadValue::Extent { last_page } => {
            let mut page = [0u8; SH_PAGE_SIZE];
            page.copy_from_slice(&t.bodies[0].read_at(last_page, SH_PAGE_SIZE).unwrap());
            let (base, n_ext) = sh_page_extent(sh_page_as_array(&page).unwrap())
                .expect("ver=2 last page");
            assert!(
                n_ext >= 2,
                "must not pack 4080-byte stream as one ver=2 page"
            );
            assert_ne!(base, last_page);
        }
        other => panic!("expected extent, got {other:?}"),
    }
}

/// Streamed megakey: last remainder can sit in 4073..=4088 B after `ver=1` flushes.
#[test]
fn bulk_session_streamed_last_remainder_fits_ver2() {
    let mut t = ScriptHashTable::create(HeadScale::Tiny);
    let n = SH_PAGE_STREAM_MAX + SH_PAGE_EXTENT_STREAM_MAX + 8;
    let mut sh = [0u8; 32];
    sh[0] = 0x12;
    let ents: Vec<_> = (1..=n as u64).map(|i| ShEntry::new(Fk(i))).collect();
    let mut session = t.bulk_session(1).unwrap();
    session.put_chain(&mut t, sh, &ents).unwrap();
    let (creates, keys) = session.finish(&mut t).unwrap();
    assert_eq!(keys, 1);
    assert_eq!(creates, n as u64);
    assert_eq!(t.entries(&sh).unwrap().len(), n);
    match t.head_value(&sh).unwrap().unwrap() {
        ShHeadValue::Extent { last_page } => {
            let mut page = [0u8; SH_PAGE_SIZE];
            page.copy_from_slice(&t.bodies[0].read_at(last_page, SH_PAGE_SIZE).unwrap());
            assert!(sh_page_extent(sh_page_as_array(&page).unwrap())
                .is_some());
        }
        other => panic!("expected extent, got {other:?}"),
    }
}

/// Cold bulk megakey: multi-page chain is contiguous at bump (single-pass pack
/// writes next links on first write — no previous-page RMW).
#[test]
fn bulk_session_megakey_page_chain_contiguous_once() {
    let mut t = ScriptHashTable::create(HeadScale::Tiny);
    // Sequential FKs fill ~4080/page; this n spans two pages.
    let n = SH_PAGE_STREAM_MAX + 10;
    let mut sh = [0u8; 32];
    sh[0] = 0x10;
    sh[1] = 0xee;
    let ents: Vec<_> = (1..=n as u64).map(|i| ShEntry::new(Fk(i))).collect();
    let mut sh_next = [0u8; 32];
    sh_next[0] = 0x10;
    sh_next[1] = 0xef;
    let next_ents = vec![ShEntry::new(Fk(1)), ShEntry::new(Fk(2))];
    let mut session = t.bulk_session(2).unwrap();
    session.put_chain(&mut t, sh, &ents).unwrap();
    session.put_chain(&mut t, sh_next, &next_ents).unwrap();
    let (creates, keys) = session.finish(&mut t).unwrap();
    assert_eq!(keys, 2);
    assert_eq!(creates, n as u64 + 2);
    let got = t.entries(&sh).unwrap();
    assert_eq!(got.len(), n);
    for (i, (_, e)) in got.iter().enumerate() {
        assert_eq!(e.create_tx_fk, Fk(i as u64 + 1));
    }
    let got2 = t.entries(&sh).unwrap();
    assert_eq!(got2.len(), n);
    let (first, last, extent_n) = match t.head_value(&sh).unwrap().unwrap() {
        ShHeadValue::Extent { last_page } => {
            let w = pack8_word(&ShHeadValue::extent(last_page)).unwrap();
            assert_eq!(w >> 62, 3, "pack8 mode 11");
            let mut page = [0u8; SH_PAGE_SIZE];
            page.copy_from_slice(&t.bodies[0].read_at(last_page, SH_PAGE_SIZE).unwrap());
            let (base, n) = sh_page_extent(sh_page_as_array(&page).unwrap())
                .expect("ver=2 last page");
            (base, last_page, n)
        }
        other => panic!("expected extent, got {other:?}"),
    };
    assert_eq!(extent_n, 2);
    assert_eq!(
        last,
        first + SH_PAGE_SIZE as u64,
        "tight extent: last = base + (n-1)*4096"
    );
    assert!(first > 0 && first % (SH_PAGE_SIZE as u64) == 0);
    match t.head_value(&sh_next).unwrap().unwrap() {
        ShHeadValue::Slab { off, .. } => {
            assert_eq!(
                off,
                last + SH_PAGE_SIZE as u64,
                "next key must pack at extent_end (no slack hole)"
            );
        }
        other => panic!("expected slab after megakey, got {other:?}"),
    }
    // Tip-path multi-page (write_new_page_chain) also round-trips same size.
    let sh2 = script_hash(&[0xef]);
    let recs: Vec<_> = (1..=n as u32).map(|v| rec(sh2, u64::from(v), v)).collect();
    assert_eq!(t.put_create_batch(&recs).unwrap(), n);
    assert_eq!(t.entries(&sh2).unwrap().len(), n);
    match t.head_value(&sh2).unwrap().unwrap() {
        ShHeadValue::Extent { last_page } => {
            let mut page = [0u8; SH_PAGE_SIZE];
            page.copy_from_slice(&t.bodies[1].read_at(last_page, SH_PAGE_SIZE).unwrap());
            let (base, n_ext) = sh_page_extent(sh_page_as_array(&page).unwrap())
                .expect("ver=2 last page");
            assert_eq!(n_ext, 2);
            assert_ne!(base, last_page);
        }
        other => panic!("expected extent, got {other:?}"),
    }
}

#[test]
fn extent_append_links_tail_when_bump_moved() {
    let mut t = ScriptHashTable::create(HeadScale::Tiny);
    let n = SH_PAGE_STREAM_MAX + SH_PAGE_EXTENT_STREAM_MAX - 1;
    let mut sh = [0u8; 32];
    sh[0] = 0x21;
    sh[1] = 0xaa;
    let ents: Vec<_> = (1..=n as u64).map(|i| ShEntry::new(Fk(i))).collect();
    let mut sh_gap = [0u8; 32];
    sh_gap[0] = 0x21;
    sh_gap[1] = 0xab;
    let mut session = t.bulk_session(2).unwrap();
    session.put_chain(&mut t, sh, &ents).unwrap();
    session
        .put_chain(&mut t, sh_gap, &[ShEntry::new(Fk(1)), ShEntry::new(Fk(2))])
        .unwrap();
    let _ = session.finish(&mut t).unwrap();
    let (base, last0, n0) = extent_meta(&t, &sh);
    assert_eq!(n0, 2);
    t.put_create(&rec(sh, n as u64 + 1, 0)).unwrap();
    let (base2, last1, n1) = extent_meta(&t, &sh);
    assert_eq!(base2, base);
    assert_eq!(n1, 2, "tail must not bump extent_n");
    assert_ne!(
        last1,
        base + (u64::from(n1) - 1) * SH_PAGE_SIZE as u64,
        "overflow last_page is a linked tail"
    );
    assert_ne!(last1, last0);
    assert_eq!(t.entries(&sh).unwrap().len(), n + 1);
    assert_eq!(t.entries(&sh).unwrap().len(), n + 1);
    let extra2: Vec<_> = ((n as u64 + 2)..=(n as u64 + 1 + SH_PAGE_EXTENT_STREAM_MAX as u64))
        .map(|i| rec(sh, i, 0))
        .collect();
    assert_eq!(t.put_create_batch(&extra2).unwrap(), extra2.len());
    let (_, last2, n2) = extent_meta(&t, &sh);
    assert_eq!(n2, 2);
    assert_ne!(last2, last1, "second overflow adds another linked page");
    assert_eq!(t.entries(&sh).unwrap().len(), n + 1 + extra2.len());
}

#[test]
fn extent_append_glued_bumps_extent_n() {
    let mut t = ScriptHashTable::create(HeadScale::Tiny);
    let n = SH_PAGE_STREAM_MAX + SH_PAGE_EXTENT_STREAM_MAX - 1;
    let mut sh = [0u8; 32];
    sh[0] = 0x22;
    let ents: Vec<_> = (1..=n as u64).map(|i| ShEntry::new(Fk(i))).collect();
    let mut session = t.bulk_session(1).unwrap();
    session.put_chain(&mut t, sh, &ents).unwrap();
    let _ = session.finish(&mut t).unwrap();
    let (base, _, n0) = extent_meta(&t, &sh);
    assert_eq!(n0, 2);
    t.put_create(&rec(sh, n as u64 + 1, 0)).unwrap();
    let (_, last, n1) = extent_meta(&t, &sh);
    assert_eq!(n1, 3, "glued HWM grows extent_n in place");
    assert_eq!(last, base + 2 * SH_PAGE_SIZE as u64);
    assert_eq!(t.entries(&sh).unwrap().len(), n + 1);
    assert_eq!(t.entries(&sh).unwrap().len(), n + 1);
}

#[test]
fn bulk_session_put_sorted_creates_dedups() {
    let mut t = ScriptHashTable::create(HeadScale::Tiny);
    let sh = script_hash(&[0x99]);
    let recs = vec![
        rec(sh, 1, 0),
        rec(sh, 1, 0), // dup
        rec(sh, 2, 0),
        rec(sh, 3, 0),
    ];
    let mut session = t.bulk_session(1).unwrap();
    let n = session.put_sorted_creates(&mut t, &recs).unwrap();
    let _ = session.finish(&mut t).unwrap();
    assert_eq!(n, 3);
    assert_eq!(t.entries(&sh).unwrap().len(), 3);
    assert_eq!(t.entry_count(), 3);
}

#[test]
fn reinit_clears_head_when_live_count_already_zero() {
    // Crash mid-finish: heads durable, alloc live_count still 0.
    // bulk_session must not hard-error; reinit then cold load.
    let mut t = ScriptHashTable::create(HeadScale::Tiny);
    let mut sh = [0u8; 32];
    sh[0] = 0x7e;
    let mut session = t.bulk_session(1).unwrap();
    session.put_chain(&mut t, sh, &[ShEntry::new(Fk(42))]).unwrap();
    let _ = session.finish(&mut t).unwrap();
    assert!(!t.head_is_empty());
    t.test_zero_live_count_keep_head();
    assert_eq!(t.entry_count(), 0);
    assert!(!t.head_is_empty());
    // A count of zero does not make the heads empty.
    assert!(t.bulk_session(1).is_err());
    t.reinit_empty_for_cold_materialize();
    assert!(t.head_is_empty());
    assert_eq!(t.entry_count(), 0);
    let mut session = t.bulk_session(2).unwrap();
    session.put_chain(&mut t, sh, &[ShEntry::new(Fk(1))]).unwrap();
    let (n, _) = session.finish(&mut t).unwrap();
    assert_eq!(n, 1);
    assert_eq!(t.entries(&sh).unwrap()[0].1.create_tx_fk, Fk(1));
}

#[test]
fn bulk_session_flushes_head_on_prefix_shard_boundary() {
    // Live OA image stays off-disk until shard boundary / finish.
    let mut t = ScriptHashTable::create(HeadScale::Tiny);
    const N: u32 = 80_000;
    // Unique 16 B head prefixes (head truncates full 32 B to 16 B).
    let key = |i: u32| {
        let mut sh = [0u8; 32];
        sh[0..4].copy_from_slice(&i.to_le_bytes());
        sh[4] = (i >> 8) as u8; // spread across shard byte for multi-shard
        sh
    };
    let mut session = t.bulk_session(u64::from(N)).unwrap();
    assert!(t.head_value(&key(0)).unwrap().is_none());
    for i in 0..N {
        let sh = key(i);
        session
            .put_chain(&mut t, sh, &[ShEntry::new(Fk(u64::from(i) + 1))])
            .unwrap();
        // Active shard not yet installed: this key is only in the live image.
        if i == 70_000 {
            assert!(
                t.head_value(&sh).unwrap().is_none(),
                "active-shard heads must not land until shard boundary"
            );
        }
    }
    let peak = session.peak_table_bytes;
    let (creates, keys) = session.finish(&mut t).unwrap();
    assert_eq!(creates, u64::from(N));
    assert_eq!(keys, u64::from(N));
    assert_eq!(t.entry_count(), u64::from(N));
    // Peak is packed recs (32 B/key), not a 2 GiB OA slot table.
    assert_eq!(peak, (N as usize) * 24);
    // Spot-check a few keys survive live install.
    for i in [0u32, 1, 65_535, 70_000, N - 1] {
        let ents = t.entries(&key(i)).unwrap();
        assert_eq!(ents.len(), 1, "i={i}");
        assert_eq!(ents[0].1.create_tx_fk, Fk(u64::from(i) + 1));
    }
}

#[test]
fn cold_progress_and_resume_skips_complete_shards() {
    // 4-way head: fill shard 0, abandon, resume from progress, fill rest.
    let mut t = four_shard_table();
    assert_eq!(t.head_shard_count(), 4);

    // Keys: shard = full[0] >> 6 for n=4 (top 2 bits).
    let key = |shard: u8, i: u8| {
        let mut k = [0u8; 32];
        k[0] = shard << 6 | (i & 0x3f);
        k
    };
    let mut session = t.bulk_session(64).unwrap();
    for i in 0..8u8 {
        session
            .put_chain(&mut t, key(0, i), &[ShEntry::new(Fk(u64::from(i) + 1))])
            .unwrap();
    }
    // Cross into shard 1 so shard 0 is installed + checkpointed.
    session
        .put_chain(&mut t, key(1, 0), &[ShEntry::new(Fk(100))])
        .unwrap();
    let saved = session.progress.unwrap().store();
    let p = ColdProgress::load(Some(&saved)).unwrap();
    assert_eq!(p.next_shard, 1);
    session.abandon_incomplete(&mut t);

    // Resume: skip shard 0 keys, fill 1..3.
    let p = ColdProgress::load(Some(&saved)).unwrap();
    t.prepare_cold_resume(&p).unwrap();
    let mut session = t.bulk_session_resume(64, &p).unwrap();
    // Re-deliver shard 0 keys (must be ignored).
    for i in 0..8u8 {
        session
            .put_chain(&mut t, key(0, i), &[ShEntry::new(Fk(u64::from(i) + 1))])
            .unwrap();
    }
    for shard in 1u8..4 {
        for i in 0..4u8 {
            session
                .put_chain(&mut t, 
                    key(shard, i),
                    &[ShEntry::new(Fk(u64::from(shard) * 100 + u64::from(i)))],
                )
                .unwrap();
        }
    }
    let (creates, keys) = session.finish(&mut t).unwrap();
    // Shard0 kept (8). Resume fills shards 1..3 × 4 keys (the mid-shard1 key was abandoned).
    assert_eq!(keys, 8 + 12);
    assert_eq!(creates, 8 + 12);
    assert_eq!(t.entries(&key(0, 0)).unwrap().len(), 1);
    assert_eq!(t.entries(&key(3, 3)).unwrap().len(), 1);
}

#[test]
fn live_session_does_not_size_from_create_count() {
    // A load sized by creates would allocate create-count-sized
    // OA images. unique_hint=1000 must not allocate a multi-GiB table.
    let mut t = ScriptHashTable::create(HeadScale::Tiny);
    let mut session = t.bulk_session(1_000).unwrap();
    let mut sh = [0u8; 32];
    sh[0] = 1;
    session.put_chain(&mut t, sh, &[ShEntry::new(Fk(1))]).unwrap();
    let peak = session.peak_table_bytes;
    let _ = session.finish(&mut t).unwrap();
    assert_eq!(peak, 24, "one streamed rec is 24 B, not an OA image");
    assert!(
        peak < 16 * 1024 * 1024,
        "peak {peak} looks like create-count sizing"
    );
}

#[test]
fn a_chain_that_breaks_off_is_shifted_up_to_the_break() {
    let mut body = vec![0u8; 3 * 4096];
    body[4096..4104].copy_from_slice(&8192u64.to_le_bytes());
    body[8192..8200].copy_from_slice(&12288u64.to_le_bytes());
    let r = remap_copied_page_chain(&mut body, 4096, 0);
    assert!(matches!(r, Err(StoreError::Corrupt("pread past logical end"))));
    assert_eq!(body[8192..8200], 12288u64.to_le_bytes());
    let mut moved = vec![0u8; 3 * 4096];
    moved[4096..4104].copy_from_slice(&4096u64.to_le_bytes());
    moved[8192..8200].copy_from_slice(&8192u64.to_le_bytes());
    let r = remap_copied_page_chain(&mut moved, 4096, 4096);
    assert!(matches!(r, Err(StoreError::Corrupt("pread past logical end"))));
    assert_eq!(moved[4096..4104], 8192u64.to_le_bytes());
    assert_eq!(moved[8192..8200], 12288u64.to_le_bytes());
}
