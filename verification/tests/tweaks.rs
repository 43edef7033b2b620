use rbitcoin_store::error::StoreError;
use rbitcoin_store::primitives::{Fk, Height};
use rbitcoin_store::sp_tweaks::{SpTweaksTable, FILE_HEADER_LEN};

/// The two files of a table.
fn save(t: &SpTweaksTable) -> (Vec<u8>, Vec<u8>) {
    let mut idx = vec![0u8; FILE_HEADER_LEN];
    idx.extend_from_slice(&t.idx_bytes());
    let mut body = vec![0u8; FILE_HEADER_LEN];
    body.extend_from_slice(&t.body);
    (idx, body)
}

#[test]
fn put_get_len_tweak_no_txid() {
    let mut t = SpTweaksTable::create(Height(0));
    let mut tweak = [0u8; 33];
    tweak[0] = 0x02;
    tweak[32] = 0xab;
    t.put_block(Height(0), Fk(7), &[None, Some(tweak), None])
        .unwrap();

    let got = t.get_block(Height(0), Fk(7), 3).unwrap().expect("present");
    assert_eq!(got, vec![None, Some(tweak), None]);

    // Body is `00 21 <33> 00`: no txid, no outs.
    let want = SpTweaksTable::encode_records(&[None, Some(tweak), None]);
    assert_eq!(want.len(), 1 + 1 + 33 + 1);
    assert_eq!(want[0], 0);
    assert_eq!(want[1], 33);
    let (_, raw) = save(&t);
    let pub_len = t.body_logical_len() as usize;
    assert_eq!(pub_len, FILE_HEADER_LEN + want.len());
    assert_eq!(&raw[FILE_HEADER_LEN..pub_len], want.as_slice());
}

#[test]
fn hole_vs_empty_eligible() {
    let mut t = SpTweaksTable::create(Height(10));
    t.put_block(Height(10), Fk(1), &[None, None]).unwrap();
    let empty = t.get_block(Height(10), Fk(1), 2).unwrap().expect("present");
    assert_eq!(empty, vec![None, None]);
    assert!(t.get_block(Height(11), Fk(1), 1).unwrap().is_none());
    assert!(t.get_block(Height(9), Fk(1), 1).unwrap().is_none());
}

#[test]
fn block_fk_mismatch_is_hole() {
    let mut t = SpTweaksTable::create(Height(0));
    t.put_block(Height(0), Fk(3), &[None]).unwrap();
    assert!(t.get_block(Height(0), Fk(99), 1).unwrap().is_none());
    assert!(t.get_block(Height(0), Fk(3), 1).unwrap().is_some());
}

#[test]
fn truncate_above_and_reopen() {
    let mut t = SpTweaksTable::create(Height(0));
    let mut a = [0u8; 33];
    a[0] = 0x03;
    t.put_block(Height(0), Fk(1), &[Some(a)]).unwrap();
    t.put_block(Height(1), Fk(2), &[None]).unwrap();
    t.put_block(Height(2), Fk(3), &[None, None]).unwrap();
    assert_eq!(t.next_height(), Height(3));
    t.truncate_above(Height(0));
    assert_eq!(t.next_height(), Height(1));
    assert!(t.get_block(Height(1), Fk(2), 1).unwrap().is_none());
    let got = t.get_block(Height(0), Fk(1), 1).unwrap().unwrap();
    assert_eq!(got, vec![Some(a)]);

    let (idx, body) = save(&t);
    let t = SpTweaksTable::open(&idx, &body).unwrap();
    assert_eq!(t.origin_height(), Height(0));
    assert_eq!(t.next_height(), Height(1));
    assert_eq!(
        t.get_block(Height(0), Fk(1), 1).unwrap().unwrap(),
        vec![Some(a)]
    );
}

#[test]
fn missing_files_open_or_create_not_corrupt() {
    let t = SpTweaksTable::open_or_create(None, None, Height(5)).unwrap();
    assert_eq!(t.origin_height(), Height(5));
    assert_eq!(t.slot_count(), 0);
}

#[test]
fn refuse_fat_len() {
    let mut t = SpTweaksTable::create(Height(0));
    t.put_block(Height(0), Fk(1), &[None]).unwrap();
    let (idx, mut raw) = save(&t);
    // Corrupt the body record to a fat length.
    raw[FILE_HEADER_LEN] = 32; // not 0 or 33
    let t = SpTweaksTable::open(&idx, &raw).unwrap();
    let err = t.get_block(Height(0), Fk(1), 1).unwrap_err();
    assert!(
        matches!(err, StoreError::Corrupt(m) if m.contains("bad len")),
        "got {err:?}"
    );
}

#[test]
fn put_not_next_height_errors() {
    let mut t = SpTweaksTable::create(Height(0));
    let err = t.put_block(Height(2), Fk(1), &[None]).unwrap_err();
    assert!(matches!(err, StoreError::Corrupt(_)));
}

#[test]
fn open_or_create_repairs_incomplete_and_checks_origin() {
    let t = SpTweaksTable::open_or_create(Some(b"partial"), None, Height(3)).unwrap();
    assert_eq!(t.origin_height(), Height(3));
    let (idx, body) = save(&t);
    let Err(err) = SpTweaksTable::open_or_create(Some(&idx), Some(&body), Height(9)) else {
        panic!("expected origin mismatch");
    };
    assert!(
        matches!(err, StoreError::Corrupt(m) if m.contains("origin")),
        "{err:?}"
    );
}

#[test]
fn open_rejects_truncated_idx() {
    let t = SpTweaksTable::create(Height(0));
    let (mut idx, body) = save(&t);
    // Keep header but wipe origin prefix.
    idx.truncate(FILE_HEADER_LEN);
    let Err(err) = SpTweaksTable::open(&idx, &body) else {
        panic!("expected truncated idx");
    };
    assert!(matches!(err, StoreError::Corrupt(_)), "{err:?}");
}

#[test]
fn put_null_fk_and_below_origin() {
    let mut t = SpTweaksTable::create(Height(5));
    assert!(matches!(
        t.put_block(Height(5), Fk::null(), &[None]),
        Err(StoreError::InvalidFk)
    ));
    assert!(matches!(
        t.put_block(Height(4), Fk(1), &[None]),
        Err(StoreError::Corrupt(_))
    ));
    t.put_block(Height(5), Fk(1), &[None]).unwrap();
    // Wrong n_tx vs stored bytes.
    let err = t.get_block(Height(5), Fk(1), 2).unwrap_err();
    assert!(matches!(err, StoreError::Corrupt(_)), "{err:?}");
    t.truncate_through_tip(None);
    assert_eq!(t.slot_count(), 0);
    t.truncate_above(Height(99));
}

#[test]
fn decode_short_tweak_and_n_tx_mismatch() {
    let mut t = SpTweaksTable::create(Height(0));
    let mut tw = [0u8; 33];
    tw[0] = 0x02;
    t.put_block(Height(0), Fk(1), &[Some(tw)]).unwrap();
    let (idx, mut raw) = save(&t);
    // Truncate payload so 33-byte tweak is short.
    raw.truncate(FILE_HEADER_LEN + 1 + 8);
    let t = SpTweaksTable::open(&idx, &raw).unwrap();
    let err = t.get_block(Height(0), Fk(1), 1).unwrap_err();
    assert!(matches!(err, StoreError::Corrupt(_)), "{err:?}");
}

#[test]
fn get_two_heights_uses_next_slot_off() {
    let mut t = SpTweaksTable::create(Height(0));
    t.put_block(Height(0), Fk(1), &[None]).unwrap();
    t.put_block(Height(1), Fk(2), &[None, None]).unwrap();
    assert_eq!(
        t.get_block(Height(0), Fk(1), 1).unwrap().unwrap(),
        vec![None]
    );
    assert_eq!(
        t.get_block(Height(1), Fk(2), 2).unwrap().unwrap(),
        vec![None, None]
    );
}

#[test]
fn eligible_lists_the_positions_of_tweaks() {
    let mut t = SpTweaksTable::create(Height(0));
    let tw = [3u8; 33];
    t.put_block(Height(0), Fk(1), &[None, Some(tw), None, Some(tw)])
        .unwrap();
    assert_eq!(
        t.get_eligible(Height(0), Fk(1), 4).unwrap().unwrap(),
        vec![(1, tw), (3, tw)]
    );
    assert!(t.get_eligible(Height(0), Fk(2), 4).unwrap().is_none());
}
