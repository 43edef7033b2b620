use rbitcoin_store::primitives::Fk;
use rbitcoin_store::scripthash_pages::SH_FLAG_BIT;
use rbitcoin_store::scripthash_slabs::{
    decode_fk_delta_stream, decode_slab_payload, encode_fk_delta_stream, encode_slab_payload,
    page_alloc_bytes_for_n_fks, slab_alloc_bytes_for_n_fks, slab_class_for_n_fks,
    slab_class_for_n_fks_with_slack, slab_class_for_packed_len,
};

/// Measured mainnet page histogram (share of 4 KiB pages, per 1000).
///
/// Representative `n_fks` sits in the middle of each bucket from the live
/// `scripthash.body` sample (61.8 % pages hold 3–7 fks, …).
const MAINNET_PAGE_MIX: &[(u32, u32)] = &[
    (5, 618),  // 3–7
    (11, 172), // 8–15
    (23, 92),  // 16–31
    (47, 50),  // 32–63
    (95, 27),  // 64–127
    (191, 15), // 128–255
    (380, 6),  // 256–509
    (510, 20), // full page
];

#[test]
fn slab_pack_beats_pages_on_mainnet_mix() {
    let mut page_bytes = 0u64;
    let mut slab_bytes_tot = 0u64;
    for &(n, weight) in MAINNET_PAGE_MIX {
        page_bytes += page_alloc_bytes_for_n_fks(n) * u64::from(weight);
        slab_bytes_tot += slab_alloc_bytes_for_n_fks(n) * u64::from(weight);
    }
    assert!(page_bytes > 0, "page packer must charge body bytes");
    let ratio = slab_bytes_tot as f64 / page_bytes as f64;
    assert!(
        ratio < 0.12,
        "slab packer must use <12% of page bytes on the measured mix; \
         got {ratio:.4} (slab={slab_bytes_tot} page={page_bytes})"
    );
}

#[test]
fn slab_class_picks_smallest_fit_and_slack() {
    assert_eq!(slab_class_for_n_fks(0), None);
    assert_eq!(slab_class_for_n_fks(1), None);
    assert_eq!(slab_class_for_n_fks(2), None);
    assert_eq!(slab_class_for_n_fks(3), Some(0));
    assert_eq!(slab_class_for_n_fks(4), Some(0));
    assert_eq!(slab_class_for_n_fks(5), Some(1));
    assert_eq!(slab_class_for_n_fks(8), Some(1));
    assert_eq!(slab_class_for_n_fks(9), Some(2));
    assert_eq!(slab_class_for_n_fks(256), Some(6));
    assert_eq!(slab_class_for_n_fks(257), None);
    assert_eq!(slab_class_for_n_fks_with_slack(4), Some(1));
    assert_eq!(slab_class_for_n_fks_with_slack(256), Some(6));
    assert_eq!(slab_alloc_bytes_for_n_fks(1), 0);
    assert_eq!(page_alloc_bytes_for_n_fks(1), 0);
    assert_eq!(slab_alloc_bytes_for_n_fks(5), 64);
    assert_eq!(slab_alloc_bytes_for_n_fks(257), 4096);
    assert_eq!(page_alloc_bytes_for_n_fks(5), 4096);
}

#[test]
fn fk_delta_stream_roundtrip_and_packed_len() {
    let cases: &[&[u64]] = &[
        &[],
        &[1],
        &[3, 4, 5, 7],
        &[1_000_000_000, 1_000_000_003, 1_000_000_010],
        &[10, 11, 12, 13, 14, 15, 16, 20],
    ];
    for raw in cases {
        let fks: Vec<Fk> = raw.iter().copied().map(Fk).collect();
        let stream = encode_fk_delta_stream(&fks).unwrap();
        assert!(
            stream.len() <= 8 * fks.len() || fks.is_empty(),
            "packed length {} > 8×n={}",
            stream.len(),
            fks.len()
        );
        let got = decode_fk_delta_stream(&stream, fks.len()).unwrap();
        assert_eq!(got, fks);
        let slab = encode_slab_payload(&fks).unwrap();
        assert_eq!(decode_slab_payload(&slab).unwrap(), fks);
        assert_eq!(slab.len(), 2 + stream.len());
    }
    assert!(encode_fk_delta_stream(&[Fk(5), Fk(5)]).is_err());
    assert!(encode_fk_delta_stream(&[Fk(0)]).is_err());
    assert!(encode_fk_delta_stream(&[Fk(SH_FLAG_BIT | 1)]).is_err());
    assert!(encode_fk_delta_stream(&[Fk(1), Fk(SH_FLAG_BIT | 2)]).is_err());
    assert!(decode_fk_delta_stream(&[0x00], 1).is_err());
    let mut flagged = Vec::new();
    rbitcoin_store::compact::write_uleb128(&mut flagged, SH_FLAG_BIT);
    assert!(decode_fk_delta_stream(&flagged, 1).is_err());
    assert!(decode_fk_delta_stream(&[0x01, 0x00], 2).is_err());
    assert!(decode_slab_payload(&[0]).is_err());
    assert!(decode_fk_delta_stream(&[], 0).unwrap().is_empty());
}

#[test]
fn packed_length_picks_the_smallest_class() {
    assert_eq!(slab_class_for_packed_len(32), Some(0));
    assert_eq!(slab_class_for_packed_len(33), Some(1));
    assert_eq!(slab_class_for_packed_len(2048), Some(6));
    assert_eq!(slab_class_for_packed_len(2049), None);
}
