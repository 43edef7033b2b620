use rbitcoin_store::error::StoreError;
use rbitcoin_store::hashing::{block_header_hash, sha256d};
use rbitcoin_store::primitives::Fk;
use rbitcoin_store::rebuild_headers::{
    prev_matches_hash, rebuild_headers, resume_walk_len, HeaderRecord, HeaderStore,
};
use rbitcoin_store::scripthash::script_hash;

fn bytes(hex: &str) -> Vec<u8> {
    (0..hex.len() / 2)
        .map(|i| u8::from_str_radix(&hex[2 * i..2 * i + 2], 16).unwrap())
        .collect()
}

fn genesis() -> HeaderRecord {
    HeaderRecord {
        prev_fk: Fk::null(),
        version: 1,
        timestamp: 1_234_567,
        bits: 0x207fffff,
        nonce: 0,
        merkle_root: [1u8; 32],
        hash: [0xaa; 32],
    }
}

fn child(parent: &HeaderRecord, parent_fk: Fk, salt: u32) -> HeaderRecord {
    let version = 1;
    let timestamp = 1_700_000_000 + salt;
    let bits = 0x207fffff;
    let nonce = salt;
    let mut merkle = [0u8; 32];
    merkle[0] = salt as u8;
    let hash = block_header_hash(version, &parent.hash, &merkle, timestamp, bits, nonce);
    HeaderRecord {
        prev_fk: parent_fk,
        version,
        timestamp,
        bits,
        nonce,
        merkle_root: merkle,
        hash,
    }
}

fn put(store: &mut HeaderStore, rec: HeaderRecord) -> Fk {
    store.rows.push(rec);
    Fk(store.rows.len() as u64)
}

#[test]
fn rebuild_nulls_false_prev_edge_after_tip() {
    let mut store = HeaderStore {
        rows: Vec::new(),
        confirmed: Vec::new(),
    };
    let g = genesis();
    let g_fk = put(&mut store, g);
    let a = child(&g, g_fk, 1);
    let a_fk = put(&mut store, a);
    let b = child(&a, a_fk, 2);
    let b_fk = put(&mut store, b);

    // Confirm through A (tip = A).
    store.confirmed.push(g_fk);
    store.confirmed.push(a_fk);

    // Plant poison: old block G fields/hash, prev_fk = B (false).
    let mut poison = g;
    poison.prev_fk = b_fk;
    let p_fk = put(&mut store, poison);
    assert_eq!(store.get_header(p_fk).unwrap().prev_fk, b_fk);

    let before = resume_walk_len(&store, a_fk, 100);
    assert!(
        before >= 1,
        "tip A should reach B then poison or at least B; walk={before}"
    );

    let report = rebuild_headers(&mut store, true).unwrap();
    assert!(report.false_prev_nulled >= 1);
    assert_eq!(store.get_header(p_fk).unwrap().prev_fk, Fk::null());

    let after = resume_walk_len(&store, a_fk, 100);
    // B remains a real child of A; poison no longer extends past B via false edge.
    assert!(
        after <= before,
        "repair must not lengthen resume walk: before={before} after={after}"
    );
    // Poison must not be a child of B anymore.
    let mut kids_b = 0u32;
    for id in 1..=store.rows.len() as u64 {
        if store.get_header(Fk(id)).unwrap().prev_fk == b_fk {
            kids_b += 1;
        }
    }
    assert_eq!(kids_b, 0);
}

#[test]
fn dry_run_reports_and_changes_nothing() {
    let g = genesis();
    let mut poison = g;
    poison.prev_fk = Fk(1);
    let mut store = HeaderStore {
        rows: vec![g, poison],
        confirmed: vec![Fk(1)],
    };
    let report = rebuild_headers(&mut store, false).unwrap();
    assert_eq!(report.false_prev_nulled, 1);
    assert!(!report.wrote);
    assert_eq!(store.rows[1].prev_fk, Fk(1));
    assert!(!prev_matches_hash(&store, &store.rows[1]));
    assert_eq!(store.get_header(Fk(0)), Err(StoreError::InvalidFk));
    assert_eq!(store.get_header(Fk(9)), Err(StoreError::NotFound));
}

#[test]
fn confirmed_rows_are_linked_again() {
    let g = genesis();
    let mut a = child(&g, Fk(1), 1);
    a.prev_fk = Fk::null();
    let mut store = HeaderStore {
        rows: vec![g, a],
        confirmed: vec![Fk(1), Fk(2)],
    };
    let report = rebuild_headers(&mut store, true).unwrap();
    assert_eq!(report.confirmed_relinked, 1);
    assert_eq!(store.rows[1].prev_fk, Fk(1));
    assert_eq!(report.tip_height, Some(1));
}

#[test]
fn script_hash_is_sha256() {
    assert_eq!(
        script_hash(b"abc").to_vec(),
        bytes("ba7816bf8f01cfea414140de5dae2223b00361a396177a9cb410ff61f20015ad")
    );
    assert_eq!(
        script_hash(b"").to_vec(),
        bytes("e3b0c44298fc1c149afbf4c8996fb92427ae41e4649b934ca495991b7852b855")
    );
}

#[test]
fn double_digest_of_hello() {
    assert_eq!(
        sha256d(b"hello").to_vec(),
        bytes("9595c9df90075148eb06860365df33584b75bff782a510c6cd4883a419833d50")
    );
}

#[test]
fn hash_of_the_first_block() {
    let mut merkle = [0u8; 32];
    merkle.copy_from_slice(&bytes(
        "3ba3edfd7a7b12b27ac72c3e67768f617fc81bc3888a51323a9fb8aa4b1e5e4a",
    ));
    let h = block_header_hash(1, &[0u8; 32], &merkle, 1_231_006_505, 0x1d00ffff, 2_083_236_893);
    assert_eq!(
        h.to_vec(),
        bytes("6fe28c0ab6f1b372c1a6a246ae63f74f931e8365e15a089c68d6190000000000")
    );
}

#[test]
fn a_second_repair_finds_nothing() {
    let mut store = HeaderStore {
        rows: Vec::new(),
        confirmed: Vec::new(),
    };
    let g = genesis();
    let g_fk = put(&mut store, g);
    let mut a = child(&g, g_fk, 1);
    a.prev_fk = Fk::null();
    let a_fk = put(&mut store, a);
    let mut b = child(&a, a_fk, 2);
    b.prev_fk = g_fk;
    let b_fk = put(&mut store, b);
    let mut c = child(&b, b_fk, 3);
    c.prev_fk = g_fk;
    put(&mut store, c);
    store.confirmed = vec![g_fk, a_fk, b_fk];
    let first = rebuild_headers(&mut store, true).unwrap();
    assert_eq!((first.confirmed_relinked, first.false_prev_nulled), (2, 1));
    let rows = store.rows.clone();
    let second = rebuild_headers(&mut store, true).unwrap();
    assert_eq!((second.confirmed_relinked, second.false_prev_nulled), (0, 0));
    assert_eq!(store.rows, rows);
}
