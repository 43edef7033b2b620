use rbitcoin_store::open_address::{
    fnv1a_64, primary_slot, primary_slot_32, FNV_OFFSET, FNV_PRIME, MAX_LOAD_DEN, MAX_LOAD_NUM,
};

#[test]
fn primary_slot_stable_and_in_range() {
    let k = [0xabu8; 16];
    let s = primary_slot(&k, 1024);
    assert!(s < 1024);
    assert_eq!(s, primary_slot(&k, 1024));
}

#[test]
fn fnv1a_and_primary_slot_32_match_legacy_overflow() {
    // Same FNV stream as historical head_overflow::primary (32-byte key).
    let k = [9u8; 32];
    let slots = 64usize;
    let mut h = FNV_OFFSET;
    for b in &k {
        h ^= u64::from(*b);
        h = h.wrapping_mul(FNV_PRIME);
    }
    assert_eq!(fnv1a_64(&k), h);
    assert_eq!(primary_slot_32(&k, slots), (h as usize) & (slots - 1));
    assert_eq!(primary_slot_32(&k, slots), primary_slot_32(&k, slots));
}

#[test]
fn load_constants() {
    assert_eq!(MAX_LOAD_NUM, 7);
    assert_eq!(MAX_LOAD_DEN, 8);
}
