use rbitcoin_store::error::StoreError;
use rbitcoin_store::primitives::Fk;
use rbitcoin_store::scripthash_layout::ShEntry;
use rbitcoin_store::scripthash_pages::{
    sh_decode_paged_head, sh_decode_slab_head, sh_encode_paged_head, sh_encode_slab_head,
    sh_head_value_mode, sh_pack_clear, sh_pack_flagged, sh_page_as_array, sh_page_as_array_mut,
    sh_page_chunk_ranges, sh_page_count_for_entries, sh_page_decode_slice, sh_page_entries,
    sh_page_extent, sh_page_init_empty, sh_page_last_fk, sh_page_n_fks, sh_page_next, sh_page_pack,
    sh_page_pack_extent_last, sh_page_set_next, sh_page_try_append, sh_page_try_append_entry,
    sh_word_flagged, sh_word_payload, ShHeadValueMode, SH_FLAG_BIT, SH_PAGE_DELTA_VER,
    SH_PAGE_EXTENT_STREAM_MAX, SH_PAGE_FK_CAP, SH_PAGE_OFF_FKS, SH_PAGE_OFF_NEXT,
    SH_PAGE_OFF_N_FKS, SH_PAGE_OFF_VER, SH_PAGE_SIZE, SH_PAGE_STREAM_MAX, SH_PAYLOAD_MASK,
};

#[test]
fn sh_page_delta_packs_600_sequential_in_one_page() {
    let ents: Vec<_> = (1u64..=600).map(|i| ShEntry::new(Fk(i))).collect();
    let mut page = [0u8; SH_PAGE_SIZE];
    sh_page_pack(&mut page, &ents, 0).unwrap();
    assert_eq!(sh_page_n_fks(&page).unwrap(), 600);
    assert_eq!(sh_page_last_fk(&page).unwrap(), Some(Fk(600)));
    assert_eq!(sh_page_entries(&page).unwrap(), ents);
    assert_eq!(page[SH_PAGE_OFF_VER], SH_PAGE_DELTA_VER);
}

#[test]
fn sh_page_delta_append_opens_second_page_when_stream_full() {
    let mut page = [0u8; SH_PAGE_SIZE];
    sh_page_init_empty(&mut page);
    let mut n = 0u64;
    loop {
        n += 1;
        if !sh_page_try_append(&mut page, Fk(n)).unwrap() {
            break;
        }
    }
    assert!(
        n > SH_PAGE_FK_CAP as u64,
        "delta must beat 510 raw slots, n={n}"
    );
    assert!(sh_page_n_fks(&page).unwrap() as u64 >= SH_PAGE_FK_CAP as u64);
    assert_eq!(sh_page_last_fk(&page).unwrap(), Some(Fk(n - 1)));
    assert!(!sh_page_try_append(&mut page, Fk(n)).unwrap());
}

#[test]
fn sh_page_delta_refuses_raw_u64_leftover() {
    let mut page = [0u8; SH_PAGE_SIZE];
    sh_page_init_empty(&mut page);
    page[SH_PAGE_OFF_VER] = 0;
    page[SH_PAGE_OFF_N_FKS..SH_PAGE_OFF_N_FKS + 2].copy_from_slice(&1u16.to_le_bytes());
    page[SH_PAGE_OFF_FKS..SH_PAGE_OFF_FKS + 8].copy_from_slice(&1u64.to_le_bytes());
    match sh_page_entries(&page) {
        Err(StoreError::Corrupt(m)) => {
            assert!(m.contains("rematerialize") || m.contains("raw"), "{m}");
        }
        other => panic!("expected leftover Corrupt, got {other:?}"),
    }
}

#[test]
fn layout_constants_pin_32b_slot_and_4k_page() {
    // Full OA slot stays 32 B (documented contract; head module owns key len).
    assert_eq!(rbitcoin_store::scripthash_layout::SH_HEAD_SLOT_SIZE, 32);
    assert_eq!(rbitcoin_store::scripthash_layout::SH_HEAD_VALUE_LEN, 16);
    assert_eq!(SH_PAGE_SIZE, 4096);
    assert_eq!(SH_PAGE_FK_CAP, 510);
    assert_eq!(SH_FLAG_BIT, 1u64 << 63);
    assert_eq!(SH_PAYLOAD_MASK, u64::MAX >> 1);
    // Flag bit matches historical slab marker bit position.
    assert_eq!(SH_FLAG_BIT, rbitcoin_store::scripthash_layout::SH_SLAB_MARKER);
}

#[test]
fn pack_flag_roundtrip_and_reject_high_bit_payload() {
    assert_eq!(sh_pack_clear(0x1234).unwrap(), 0x1234);
    assert_eq!(sh_pack_flagged(0x1234).unwrap(), 0x1234 | SH_FLAG_BIT);
    assert!(sh_word_flagged(sh_pack_flagged(1).unwrap()));
    assert!(!sh_word_flagged(sh_pack_clear(1).unwrap()));
    assert_eq!(sh_word_payload(SH_FLAG_BIT | 99), 99);
    assert!(sh_pack_clear(SH_FLAG_BIT).is_err());
    assert!(sh_pack_flagged(SH_FLAG_BIT | 1).is_err());
}

#[test]
fn head_mode_empty_inline_paged() {
    assert_eq!(sh_head_value_mode(0, 0).unwrap(), ShHeadValueMode::Empty);
    assert_eq!(sh_head_value_mode(3, 0).unwrap(), ShHeadValueMode::Inline);
    assert_eq!(sh_head_value_mode(3, 4).unwrap(), ShHeadValueMode::Inline);
    let enc = sh_encode_paged_head(4096, 8192).unwrap();
    let (f, l) = sh_decode_paged_head(&enc).unwrap();
    assert_eq!((f, l), (4096, 8192));
    let w0 = u64::from_le_bytes(enc[0..8].try_into().unwrap());
    let w1 = u64::from_le_bytes(enc[8..16].try_into().unwrap());
    assert_eq!(sh_head_value_mode(w0, w1).unwrap(), ShHeadValueMode::Paged);
    assert!(sh_word_flagged(w0));
    assert!(!sh_word_flagged(w1));
    // w1 flagged illegal (inline)
    assert!(sh_head_value_mode(3, SH_FLAG_BIT | 1).is_err());
    // null first inline
    assert!(sh_head_value_mode(0, 5).is_err());
    // Both words flagged → slab mode (payloads checked on encode/decode).
    assert_eq!(
        sh_head_value_mode(SH_FLAG_BIT | 4096, SH_FLAG_BIT | 5 | (1u64 << 16)).unwrap(),
        ShHeadValueMode::Slab
    );
    let slab = sh_encode_slab_head(1, 5, 4096).unwrap();
    assert_eq!(sh_decode_slab_head(&slab).unwrap(), (1, 5, 4096));
    assert!(sh_encode_slab_head(1, 5, 0).is_err());
    assert!(sh_encode_slab_head(1, 2, 4096).is_err());
    assert!(sh_head_value_mode(SH_FLAG_BIT | 0, SH_FLAG_BIT | 5).is_err());
    // Paged: null first or last payload
    assert!(sh_head_value_mode(SH_FLAG_BIT | 0, 8192).is_err());
    assert!(sh_head_value_mode(SH_FLAG_BIT | 4096, 0).is_err());
    // encode rejects null page offs (after pack)
    assert!(sh_encode_paged_head(0, 8192).is_err());
    assert!(sh_encode_paged_head(4096, 0).is_err());
    // decode non-paged → error
    let inline = {
        let mut b = [0u8; 16];
        b[0..8].copy_from_slice(&3u64.to_le_bytes());
        b
    };
    assert!(sh_decode_paged_head(&inline).is_err());
    // page next with flag bit
    let mut page = [0u8; SH_PAGE_SIZE];
    sh_page_init_empty(&mut page);
    page[SH_PAGE_OFF_NEXT..SH_PAGE_OFF_NEXT + 8]
        .copy_from_slice(&(SH_FLAG_BIT | 100).to_le_bytes());
    assert!(sh_page_next(&page).is_err());
}

#[test]
fn page_append_fill_and_next_link() {
    let mut page = [0u8; SH_PAGE_SIZE];
    sh_page_init_empty(&mut page);
    assert_eq!(sh_page_n_fks(&page).unwrap(), 0);
    assert_eq!(sh_page_next(&page).unwrap(), 0);
    assert!(sh_page_try_append(&mut page, Fk(1)).unwrap());
    assert!(sh_page_try_append_entry(&mut page, ShEntry::new(Fk(2))).unwrap());
    assert_eq!(
        sh_page_entries(&page).unwrap(),
        vec![ShEntry::new(Fk(1)), ShEntry::new(Fk(2))]
    );
    sh_page_set_next(&mut page, 8192).unwrap();
    assert_eq!(sh_page_next(&page).unwrap(), 8192);

    // Fill until the next sequential fk does not fit.
    let mut full = [0u8; SH_PAGE_SIZE];
    sh_page_init_empty(&mut full);
    let mut i = 1u64;
    while sh_page_try_append(&mut full, Fk(i)).unwrap() {
        i += 1;
    }
    assert!(i > SH_PAGE_FK_CAP as u64);
    assert!(!sh_page_try_append(&mut full, Fk(i)).unwrap());
    assert_eq!(sh_page_entries(&full).unwrap().len() as u64, i - 1);
    // ShEntry bytes match layout encode.
    let e = ShEntry::new(Fk(0xabc));
    assert_eq!(e.encode(), e.create_tx_fk.0.to_le_bytes());
}

#[test]
fn page_rejects_flagged_fk_and_null() {
    let mut page = [0u8; SH_PAGE_SIZE];
    sh_page_init_empty(&mut page);
    assert!(sh_page_try_append(&mut page, Fk::null()).is_err());
    assert!(sh_page_try_append(&mut page, Fk(SH_FLAG_BIT | 1)).is_err());
}

#[test]
fn page_count_for_entries_and_pack_sets_next_before_write() {
    assert_eq!(sh_page_count_for_entries(0), 0);
    assert_eq!(sh_page_count_for_entries(1), 1);
    let n = SH_PAGE_STREAM_MAX + 200;
    let ents: Vec<_> = (1..=n as u64).map(|i| ShEntry::new(Fk(i))).collect();
    let fks: Vec<Fk> = ents.iter().map(|e| e.create_tx_fk).collect();
    let chunks = sh_page_chunk_ranges(&fks).unwrap();
    assert!(chunks.len() >= 2, "stream overflow must split pages");
    let base = 4096u64;
    let mut pages = Vec::new();
    for (pi, &(start, end)) in chunks.iter().enumerate() {
        let off = base + (pi as u64) * (SH_PAGE_SIZE as u64);
        let next = if pi + 1 < chunks.len() {
            off + SH_PAGE_SIZE as u64
        } else {
            0
        };
        let mut page = [0u8; SH_PAGE_SIZE];
        sh_page_pack(&mut page, &ents[start..end], next).unwrap();
        assert_eq!(sh_page_next(&page).unwrap(), next);
        assert_eq!(sh_page_n_fks(&page).unwrap() as usize, end - start);
        pages.push(page);
    }
    assert_eq!(sh_page_next(&pages[0]).unwrap(), base + SH_PAGE_SIZE as u64);
    assert_eq!(sh_page_next(pages.last().unwrap()).unwrap(), 0);
    let mut got = Vec::new();
    for p in &pages {
        got.extend(sh_page_entries(p).unwrap());
    }
    assert_eq!(got, ents);
    // One page cannot hold STREAM_MAX+1 one-byte deltas (first fk + N gaps).
    let too_many: Vec<_> = (1..=SH_PAGE_STREAM_MAX as u64 + 2)
        .map(|i| ShEntry::new(Fk(i)))
        .collect();
    let mut page = [0u8; SH_PAGE_SIZE];
    assert!(sh_page_pack(&mut page, &too_many, 0).is_err());
}

#[test]
fn page_fks_must_be_strictly_increasing() {
    let mut page = [0u8; SH_PAGE_SIZE];
    sh_page_init_empty(&mut page);
    assert!(sh_page_try_append(&mut page, Fk(10)).unwrap());
    assert!(sh_page_try_append(&mut page, Fk(20)).unwrap());
    // Equal / lower rejected at append (encode bug), not silent.
    assert!(sh_page_try_append(&mut page, Fk(20)).is_err());
    assert!(sh_page_try_append(&mut page, Fk(5)).is_err());
    assert_eq!(sh_page_last_fk(&page).unwrap(), Some(Fk(20)));

    // Pack rejects unsorted input.
    let unsorted = vec![
        ShEntry::new(Fk(3)),
        ShEntry::new(Fk(1)),
        ShEntry::new(Fk(2)),
    ];
    assert!(sh_page_pack(&mut page, &unsorted, 0).is_err());

    // Decode refuses durable unsorted bytes (plant equal consecutive).
    sh_page_init_empty(&mut page);
    sh_page_try_append(&mut page, Fk(1)).unwrap();
    sh_page_try_append(&mut page, Fk(2)).unwrap();
    // Zero the second-stream uleb (delta) without going through append.
    page[SH_PAGE_OFF_FKS + 1] = 0;
    assert!(sh_page_entries(&page).is_err());
}

#[test]
fn page_slice_must_be_exactly_4k() {
    let short = [0u8; 100];
    assert!(sh_page_as_array(&short).is_err());
    assert!(sh_page_decode_slice(&short).is_err());
    let mut long = vec![0u8; SH_PAGE_SIZE + 1];
    assert!(sh_page_as_array(&long).is_err());
    assert!(sh_page_as_array_mut(&mut long[..SH_PAGE_SIZE - 1]).is_err());

    let mut page = [0u8; SH_PAGE_SIZE];
    sh_page_init_empty(&mut page);
    sh_page_try_append(&mut page, Fk(7)).unwrap();
    let (next, ents) = sh_page_decode_slice(&page).unwrap();
    assert_eq!(next, 0);
    assert_eq!(ents, vec![ShEntry::new(Fk(7))]);
}

#[test]
fn page_corrupt_n_fks_over_capacity() {
    let mut page = [0u8; SH_PAGE_SIZE];
    sh_page_init_empty(&mut page);
    // Force illegal n_fks
    page[SH_PAGE_OFF_N_FKS..SH_PAGE_OFF_N_FKS + 2]
        .copy_from_slice(&((SH_PAGE_STREAM_MAX + 1) as u16).to_le_bytes());
    assert!(sh_page_n_fks(&page).is_err());
    assert!(sh_page_entries(&page).is_err());
}

#[test]
fn page_entries_reject_null_and_flagged_fk_bytes() {
    let mut page = [0u8; SH_PAGE_SIZE];
    sh_page_init_empty(&mut page);
    page[SH_PAGE_OFF_N_FKS..SH_PAGE_OFF_N_FKS + 2].copy_from_slice(&1u16.to_le_bytes());
    page[SH_PAGE_OFF_FKS] = 0;
    assert!(sh_page_entries(&page).is_err());
    let mut stream = Vec::new();
    rbitcoin_store::compact::write_uleb128(&mut stream, SH_FLAG_BIT | 9);
    page[SH_PAGE_OFF_FKS..SH_PAGE_OFF_FKS + stream.len()].copy_from_slice(&stream);
    assert!(sh_page_entries(&page).is_err());
}

#[test]
fn page_last_fk_rejects_null_and_flagged() {
    let mut page = [0u8; SH_PAGE_SIZE];
    sh_page_init_empty(&mut page);
    assert_eq!(sh_page_last_fk(&page).unwrap(), None);
    page[SH_PAGE_OFF_N_FKS..SH_PAGE_OFF_N_FKS + 2].copy_from_slice(&1u16.to_le_bytes());
    page[SH_PAGE_OFF_FKS] = 0;
    assert!(sh_page_last_fk(&page).is_err());
    let mut flagged = Vec::new();
    rbitcoin_store::compact::write_uleb128(&mut flagged, SH_FLAG_BIT | 42);
    page[SH_PAGE_OFF_FKS..SH_PAGE_OFF_FKS + flagged.len()].copy_from_slice(&flagged);
    assert!(sh_page_last_fk(&page).is_err());
    sh_page_init_empty(&mut page);
    assert!(sh_page_try_append(&mut page, Fk(42)).unwrap());
    assert_eq!(sh_page_last_fk(&page).unwrap(), Some(Fk(42)));
    assert_eq!(sh_page_count_for_entries(0), 0);
    assert_eq!(sh_page_count_for_entries(1), 1);
    assert_eq!(sh_page_count_for_entries(SH_PAGE_FK_CAP), 1);
    assert_eq!(sh_page_count_for_entries(SH_PAGE_FK_CAP + 1), 2);
}

#[test]
fn extent_page_reads_back_with_its_fields() {
    let ents: Vec<_> = (5u64..=90).map(|i| ShEntry::new(Fk(i))).collect();
    let mut page = [0u8; SH_PAGE_SIZE];
    sh_page_pack_extent_last(&mut page, &ents, 8192, 3, 0).unwrap();
    assert_eq!(sh_page_extent(&page), Some((8192, 3)));
    assert_eq!(sh_page_entries(&page).unwrap(), ents);
    assert_eq!(sh_page_next(&page).unwrap(), 0);
    let too_many: Vec<_> = (1..=SH_PAGE_EXTENT_STREAM_MAX as u64 + 1)
        .map(|i| ShEntry::new(Fk(i)))
        .collect();
    assert!(sh_page_pack_extent_last(&mut page, &too_many, 8192, 3, 0).is_err());
    let mut plain = [0u8; SH_PAGE_SIZE];
    sh_page_pack(&mut plain, &ents, 4096).unwrap();
    assert_eq!(sh_page_extent(&plain), None);
}
