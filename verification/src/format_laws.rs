//! Laws on the layout of the files: where each field stands.

use vstd::prelude::*;
use crate::bytes::{le16, le32, le64, lemma_le_nat_of_seq, lemma_le_seq_len, lemma_p256_values, u16_at, u32_at, u64_at};
use crate::cold_progress::{hwm_after, hwm_value, progress_bytes, ColdProgress};
use crate::compact::uleb;
use crate::crc::crc_of;
use crate::error::StoreError;
use crate::primitives::Fk;
use crate::run_catalog::{entries_in, law_manifest_roundtrip, manifest_bytes, ManifestEntry};
use crate::scripthash_body::ShBody;
use crate::scripthash_files::{alloc_bytes, alloc_part, head_at, law_alloc_roundtrip, AllocState};
use crate::scripthash_head::image_of;
use crate::scripthash_layout::{ShEntry, ShHeadValue};
use crate::scripthash_open::{body_image, head_file_of, state_of};
use crate::scripthash_pack8::{pack8, unpack8};
use crate::scripthash_pages::{extent_image, page_image, zeros};
use crate::scripthash_slabs::{fk_stream, fks_ok, slab_payload};
use crate::segment_meta::{desc_at, law_meta_roundtrip, meta_bytes, meta_value};
use crate::segmented_head::SegDesc;
use crate::slot_table::Slot;
use crate::sorted_run::{recs_of, run_file};
use crate::sp_tweaks::{idx_image, law_idx_roundtrip, slot_at, SpTweaksSlot};
use crate::spender_table::{law_nodes_roundtrip, node_at, nodes_image, SpenderNode};

verus! {

/// A run file: the magic `RBSORT02`, version 2, the lengths of a key and a record, the number
/// of records, the checksum of the records, and from byte 32 the records.
pub proof fn law_run_layout(key_len: u32, rec_len: u32, body: Seq<u8>)
    requires
        rec_len >= 1,
        body.len() <= u64::MAX,
    ensures
        ({
            let f = run_file(key_len, rec_len, body);
            &&& f.len() == 32 + body.len()
            &&& f.subrange(0, 8) == seq![
                0x52u8,
                0x42u8,
                0x53u8,
                0x4fu8,
                0x52u8,
                0x54u8,
                0x30u8,
                0x32u8,
            ]
            &&& u32_at(f, 8) == 2
            &&& u32_at(f, 12) == key_len
            &&& u32_at(f, 16) == rec_len
            &&& u64_at(f, 20) as int == body.len() as int / rec_len as int
            &&& u32_at(f, 28) == crc_of(body)
            &&& f.subrange(32, f.len() as int) == body
        }),
{
    let f = run_file(key_len, rec_len, body);
    let n = (body.len() as int / rec_len as int) as u64;
    let c = crc_of(body);
    assert(0 <= body.len() as int / rec_len as int <= body.len()) by (nonlinear_arith)
        requires
            rec_len >= 1,
    ;
    lemma_p256_values();
    lemma_le_nat_of_seq(2, 4);
    lemma_le_nat_of_seq(key_len as nat, 4);
    lemma_le_nat_of_seq(rec_len as nat, 4);
    lemma_le_nat_of_seq(n as nat, 8);
    lemma_le_nat_of_seq(c as nat, 4);
    assert(f.subrange(0, 8) =~= seq![
        0x52u8,
        0x42u8,
        0x53u8,
        0x4fu8,
        0x52u8,
        0x54u8,
        0x30u8,
        0x32u8,
    ]);
    assert(f.subrange(8, 12) =~= le32(2));
    assert(f.subrange(12, 16) =~= le32(key_len));
    assert(f.subrange(16, 20) =~= le32(rec_len));
    assert(f.subrange(20, 28) =~= le64(n));
    assert(f.subrange(28, 32) =~= le32(c));
    assert(f.subrange(32, f.len() as int) =~= body);
}

/// The records of a body stand one behind the other.
pub proof fn law_records_layout(body: Seq<u8>, rl: int, i: int)
    requires
        rl >= 1,
    ensures
        recs_of(body, rl).len() == body.len() as int / rl,
        0 <= i < recs_of(body, rl).len() ==> recs_of(body, rl)[i] == body.subrange(
            rl * i,
            rl * i + rl,
        ),
{
    assert(body.len() as int / rl >= 0) by (nonlinear_arith)
        requires
            rl >= 1,
    ;
    assert(i * rl == rl * i) by (nonlinear_arith);
}

/// A manifest: the magic `RBRUNMF1`, version 1, the number of entries, and 28 bytes for each
/// entry.
pub proof fn law_manifest_layout(es: Seq<ManifestEntry>, i: int)
    requires
        es.len() <= u32::MAX,
        0 <= i < es.len(),
    ensures
        ({
            let b = manifest_bytes(es);
            &&& b.len() == 16 + 28 * es.len()
            &&& b.subrange(0, 8) == seq![
                0x52u8,
                0x42u8,
                0x52u8,
                0x55u8,
                0x4eu8,
                0x4du8,
                0x46u8,
                0x31u8,
            ]
            &&& u32_at(b, 8) == 1
            &&& u32_at(b, 12) == es.len()
            &&& u64_at(b, 16 + 28 * i) == es[i].seq
            &&& u64_at(b, 16 + 28 * i + 8) == es[i].count
            &&& u32_at(b, 16 + 28 * i + 16) == es[i].key_len
            &&& u32_at(b, 16 + 28 * i + 20) == es[i].rec_len
            &&& u32_at(b, 16 + 28 * i + 24) == es[i].body_crc32
        }),
{
    law_manifest_roundtrip(es);
    let b = manifest_bytes(es);
    assert(entries_in(b)[i] == es[i]);
    lemma_p256_values();
    lemma_le_nat_of_seq(1, 4);
    assert(entries_in(b).len() == es.len());
    assert(b.subrange(0, 8) =~= seq![
        0x52u8,
        0x42u8,
        0x52u8,
        0x55u8,
        0x4eu8,
        0x4du8,
        0x46u8,
        0x31u8,
    ]);
}

/// A progress file: the magic `SHCOLDP1`, the next shard, the end of the body, the creates and
/// the keys.
pub proof fn law_progress_layout(p: ColdProgress)
    ensures
        ({
            let b = progress_bytes(p);
            &&& b.len() == 36
            &&& b.subrange(0, 8) == seq![
                0x53u8,
                0x48u8,
                0x43u8,
                0x4fu8,
                0x4cu8,
                0x44u8,
                0x50u8,
                0x31u8,
            ]
            &&& u32_at(b, 8) == p.next_shard
            &&& u64_at(b, 12) == p.body_bump
            &&& u64_at(b, 20) == p.live_count
            &&& u64_at(b, 28) == p.keys_written
        }),
{
    crate::cold_progress::law_progress_roundtrip(p);
    let b = progress_bytes(p);
    lemma_le_seq_len(p.next_shard as nat, 4);
    lemma_le_seq_len(p.body_bump as nat, 8);
    lemma_le_seq_len(p.live_count as nat, 8);
    lemma_le_seq_len(p.keys_written as nat, 8);
    assert(b.subrange(0, 8) =~= seq![
        0x53u8,
        0x48u8,
        0x43u8,
        0x4fu8,
        0x4cu8,
        0x44u8,
        0x50u8,
        0x31u8,
    ]);
}

/// The mark of what an index covers is the number in the first eight bytes of its file, and 0
/// without them; storing one keeps the higher of the two.
pub proof fn law_mark_layout(file: Option<Seq<u8>>, mark: u64)
    ensures
        file is None ==> hwm_value(file) == 0,
        file matches Some(b) ==> hwm_value(file) == (if b.len() < 8 {
            0
        } else {
            u64_at(b, 0)
        }),
        hwm_value(hwm_after(file, mark)) >= mark,
        hwm_value(hwm_after(file, mark)) >= hwm_value(file),
        hwm_value(hwm_after(file, mark)) == mark || hwm_value(hwm_after(file, mark)) == hwm_value(
            file,
        ),
{
    crate::cold_progress::law_hwm_rises(file, mark);
}

/// A table of spenders: for each node the spending transaction and the next node.
pub proof fn law_nodes_layout(nodes: Seq<SpenderNode>, i: int)
    requires
        0 <= i < nodes.len(),
    ensures
        nodes_image(nodes).len() == 16 * nodes.len(),
        u64_at(nodes_image(nodes), 16 * i) == nodes[i].spending_tx_fk.0,
        u64_at(nodes_image(nodes), 16 * i + 8) == nodes[i].next.0,
{
    law_nodes_roundtrip(nodes);
    assert(node_at(nodes_image(nodes), i) == nodes[i]);
}

/// The list of segments: the store's magic, version 1, the number of segments, the bits of a
/// head, and 32 bytes for each segment.
pub proof fn law_segments_layout(bits: u32, descs: Seq<SegDesc>, i: int)
    requires
        descs.len() <= u32::MAX,
        0 <= i < descs.len(),
    ensures
        ({
            let b = meta_bytes(bits, descs);
            &&& b.len() >= 24 + 32 * descs.len()
            &&& b.subrange(0, 4) == seq![0x52u8, 0x42u8, 0x54u8, 0x31u8]
            &&& u16_at(b, 4) == 17
            &&& u32_at(b, 8) == 1
            &&& u32_at(b, 12) == descs.len()
            &&& u32_at(b, 16) == bits
            &&& u64_at(b, 24 + 32 * i) == descs[i].first_fk
            &&& u64_at(b, 24 + 32 * i + 8) == descs[i].count
            &&& u32_at(b, 24 + 32 * i + 16) == descs[i].file_id
            &&& u32_at(b, 24 + 32 * i + 20) == descs[i].flags
        }),
{
    law_meta_roundtrip(bits, descs);
    let b = meta_bytes(bits, descs);
    let v = meta_value(b)->Ok_0.1;
    assert(v == descs);
    assert(v[i] == desc_at(b, 24 + 32 * i));
    assert(v.len() == u32_at(b, 12));
    lemma_p256_values();
    lemma_le_nat_of_seq(17, 2);
    assert(b.subrange(4, 6) =~= le16(17));
    assert(b.subrange(0, 4) =~= seq![0x52u8, 0x42u8, 0x54u8, 0x31u8]);
}

/// The index of tweaks behind its header: the origin, four bytes of padding, and for each
/// height the block's row and the start of its tweaks.
pub proof fn law_tweaks_index_layout(origin: u32, s: Seq<SpTweaksSlot>, i: int)
    requires
        0 <= i < s.len(),
    ensures
        idx_image(origin, s).len() == 8 + 12 * s.len(),
        u32_at(idx_image(origin, s), 0) == origin,
        u64_at(idx_image(origin, s), 8 + 12 * i) == s[i].block_fk.0,
        u32_at(idx_image(origin, s), 8 + 12 * i + 8) == s[i].off,
{
    let header = zeros(16);
    let img = idx_image(origin, s);
    let idx = header + img;
    law_idx_roundtrip(header, origin, s);
    assert(slot_at(idx, i) == s[i]);
    assert(idx.subrange(16, 20) =~= img.subrange(0, 4));
    assert(idx.subrange(24 + 12 * i, 24 + 12 * i + 8) =~= img.subrange(8 + 12 * i, 8 + 12 * i + 8));
    assert(idx.subrange(24 + 12 * i + 8, 24 + 12 * i + 12) =~= img.subrange(
        8 + 12 * i + 8,
        8 + 12 * i + 12,
    ));
}

/// The allocator header of a body: the magic `SHAL`, version 3, the creates, the end of the
/// body, and the first free block of each of the 25 classes.
pub proof fn law_alloc_layout(s: AllocState, i: int)
    requires
        0 <= i < 25,
    ensures
        ({
            let b = alloc_bytes(s);
            &&& b.len() == 4080
            &&& b.subrange(0, 4) == seq![0x53u8, 0x48u8, 0x41u8, 0x4cu8]
            &&& u16_at(b, 4) == 3
            &&& u64_at(b, 8) == s.live_count
            &&& u64_at(b, 16) == s.bump
            &&& u64_at(b, 24 + 8 * i) == s.free_head@[i]
        }),
{
    law_alloc_roundtrip(s, Seq::empty());
    let b = alloc_bytes(s);
    assert(b + Seq::<u8>::empty() =~= b);
    assert(alloc_part(b) == b);
    assert(head_at(b, i) == s.free_head@[i]);
    assert(b.subrange(0, 4) =~= seq![0x53u8, 0x48u8, 0x41u8, 0x4cu8]);
}

/// The slots of a head: 16 bytes of the key and the word, one slot behind the other. A sealed
/// head has the magic `SHSR` before them.
pub proof fn law_slots_layout(b: Seq<u8>, slots: Seq<Slot>, i: int)
    requires
        0 <= i < slots.len(),
    ensures
        image_of(b, slots) ==> b.len() == 24 * slots.len() && b.subrange(24 * i, 24 * i + 16)
            == slots[i].key@ && u64_at(b, 24 * i + 16) == slots[i].word,
        head_file_of(b, slots) ==> b.len() == 4 + 24 * slots.len() && b.subrange(0, 4) == seq![
            0x53u8,
            0x48u8,
            0x53u8,
            0x52u8,
        ] && b.subrange(4 + 24 * i, 4 + 24 * i + 16) == slots[i].key@ && u64_at(b, 4 + 24 * i + 16)
            == slots[i].word,
{
    if head_file_of(b, slots) {
        let c = b.subrange(4, b.len() as int);
        assert(c.subrange(24 * i, 24 * i + 16) =~= b.subrange(4 + 24 * i, 4 + 24 * i + 16));
        assert(c.subrange(24 * i + 16, 24 * i + 24) =~= b.subrange(
            4 + 24 * i + 16,
            4 + 24 * i + 24,
        ));
        assert(crate::scripthash_open::SORTED_HEAD_MAGIC@ =~= seq![0x53u8, 0x48u8, 0x53u8, 0x52u8]);
    }
}

/// A body's file: the allocator header from byte 16 to the end of the first page, and all else
/// as the body has it.
pub proof fn law_body_file(b: ShBody, file: Seq<u8>, i: int)
    requires
        body_image(b, file),
        b.bytes@.len() >= 4096,
        b.free_head@.len() == 25,
        0 <= i < 25,
    ensures
        file.len() == b.bytes@.len(),
        file.subrange(16, 20) == seq![0x53u8, 0x48u8, 0x41u8, 0x4cu8],
        u16_at(file, 20) == 3,
        u64_at(file, 24) == b.live_count,
        u64_at(file, 32) == b.bump,
        u64_at(file, 40 + 8 * i) == b.free_head@[i],
        file.subrange(4096, file.len() as int) == b.bytes@.subrange(4096, file.len() as int),
{
    let s = choose|s: AllocState| #[trigger]
        state_of(b, s) && file == crate::bytes::overlay(b.bytes@, 16, alloc_bytes(s));
    law_alloc_layout(s, i);
    let h = alloc_bytes(s);
    assert(file.subrange(16, 20) =~= h.subrange(0, 4));
    assert(file.subrange(20, 22) =~= h.subrange(4, 6));
    assert(file.subrange(24, 32) =~= h.subrange(8, 16));
    assert(file.subrange(32, 40) =~= h.subrange(16, 24));
    assert(file.subrange(40 + 8 * i, 48 + 8 * i) =~= h.subrange(24 + 8 * i, 32 + 8 * i));
    assert(file.subrange(4096, file.len() as int) =~= b.bytes@.subrange(
        4096,
        file.len() as int,
    ));
}

/// Cuts a stream of creates: the first number stands as it is, and each other one as its
/// distance to the one before.
pub open spec fn stream_cuts(b: Seq<u8>, fks: Seq<Fk>, offs: Seq<int>) -> bool {
    &&& offs.len() == fks.len() + 1
    &&& offs[0] == 0
    &&& offs[fks.len() as int] == b.len()
    &&& forall|i: int|
        0 <= i < fks.len() ==> 0 <= #[trigger] offs[i] < offs[i + 1] <= b.len() && b.subrange(
            offs[i],
            offs[i + 1],
        ) == uleb(
            (if i == 0 {
                fks[0].0 as int
            } else {
                fks[i].0 - fks[i - 1].0
            }) as nat,
        )
}

/// The stream of a list of creates has its numbers one behind the other: the first, and then
/// the distances.
pub proof fn law_stream_layout(fks: Seq<Fk>)
    requires
        fks_ok(fks),
    ensures
        exists|offs: Seq<int>| stream_cuts(fk_stream(fks), fks, offs),
{
    let offs = lemma_stream_cuts(fks);
}

proof fn lemma_stream_cuts(fks: Seq<Fk>) -> (offs: Seq<int>)
    ensures
        stream_cuts(fk_stream(fks), fks, offs),
    decreases fks.len(),
{
    let b = fk_stream(fks);
    if fks.len() == 0 {
        seq![0int]
    } else {
        let d = fks.drop_last();
        let o = lemma_stream_cuts(d);
        let c = fk_stream(d);
        let n = d.len() as int;
        let last = uleb(
            (if n == 0 {
                fks[0].0 as int
            } else {
                fks[n].0 - fks[n - 1].0
            }) as nat,
        );
        assert(b =~= c + last);
        crate::number_laws::law_uleb_digits(
            (if n == 0 {
                fks[0].0 as int
            } else {
                fks[n].0 - fks[n - 1].0
            }) as nat,
        );
        let offs = o.push(b.len() as int);
        assert forall|i: int| 0 <= i < fks.len() implies 0 <= #[trigger] offs[i] < offs[i + 1]
            <= b.len() && b.subrange(offs[i], offs[i + 1]) == uleb(
            (if i == 0 {
                fks[0].0 as int
            } else {
                fks[i].0 - fks[i - 1].0
            }) as nat,
        ) by {
            assert(offs[i] == o[i]);
            if i < n {
                assert(offs[i + 1] == o[i + 1]);
                assert(b.subrange(o[i], o[i + 1]) =~= c.subrange(o[i], o[i + 1]));
                assert(d[i] == fks[i]);
            } else {
                assert(b.subrange(offs[i], offs[i + 1]) =~= last);
            }
        }
        assert(stream_cuts(b, fks, offs));
        offs
    }
}

/// A slab: the number of creates in two bytes, and then their stream.
pub proof fn law_slab_layout(fks: Seq<Fk>)
    requires
        fks.len() <= u16::MAX,
    ensures
        u16_at(slab_payload(fks), 0) == fks.len(),
        slab_payload(fks).subrange(2, slab_payload(fks).len() as int) == fk_stream(fks),
{
    let b = slab_payload(fks);
    lemma_p256_values();
    lemma_le_nat_of_seq(fks.len(), 2);
    assert(b.subrange(0, 2) =~= le16(fks.len() as u16));
    assert(b.subrange(2, b.len() as int) =~= fk_stream(fks));
}

/// A page: the next page, the number of creates, a version byte, and from byte 16 the stream;
/// the rest is zero. In the last page of an extent the first page and the number of pages come
/// before the stream, which begins at byte 32.
pub proof fn law_page_layout(next: u64, base: u64, n: u32, fks: Seq<Fk>)
    requires
        fks.len() <= u16::MAX,
        fk_stream(fks).len() <= 4064,
    ensures
        ({
            let p = page_image(next, fks);
            let len = fk_stream(fks).len() as int;
            &&& p.len() == 4096
            &&& u64_at(p, 0) == next
            &&& u16_at(p, 8) == fks.len()
            &&& p[10] == 1
            &&& p.subrange(16, 16 + len) == fk_stream(fks)
            &&& forall|i: int| 16 + len <= i < 4096 || 11 <= i < 16 ==> #[trigger] p[i] == 0
        }),
        ({
            let p = extent_image(next, base, n, fks);
            let len = fk_stream(fks).len() as int;
            &&& p.len() == 4096
            &&& u64_at(p, 0) == next
            &&& u16_at(p, 8) == fks.len()
            &&& p[10] == 2
            &&& u64_at(p, 16) == base
            &&& u32_at(p, 24) == n
            &&& p.subrange(32, 32 + len) == fk_stream(fks)
            &&& forall|i: int|
                32 + len <= i < 4096 || 11 <= i < 16 || 28 <= i < 32 ==> #[trigger] p[i] == 0
        }),
{
    lemma_p256_values();
    lemma_le_nat_of_seq(next as nat, 8);
    lemma_le_nat_of_seq(fks.len(), 2);
    lemma_le_nat_of_seq(base as nat, 8);
    lemma_le_nat_of_seq(n as nat, 4);
    let p = page_image(next, fks);
    assert(p.subrange(0, 8) =~= le64(next));
    assert(p.subrange(8, 10) =~= le16(fks.len() as u16));
    assert(p.subrange(16, 16 + fk_stream(fks).len() as int) =~= fk_stream(fks));
    let q = extent_image(next, base, n, fks);
    assert(q.subrange(0, 8) =~= le64(next));
    assert(q.subrange(8, 10) =~= le16(fks.len() as u16));
    assert(q.subrange(16, 24) =~= le64(base));
    assert(q.subrange(24, 28) =~= le32(n));
    assert(q.subrange(32, 32 + fk_stream(fks).len() as int) =~= fk_stream(fks));
}

/// The word of a head value: a create stands for itself; a slab has the bits 10, three of its
/// class, 16 of its number of creates and 43 of its offset; a chain of pages has the bits 110
/// and an extent the bits 111, with 61 of the last page.
pub proof fn law_word_layout(class: u8, used: u16, off: u64, fk: u64)
    requires
        class <= 6,
        0 < off < 0x0000_0800_0000_0000,
        0 < fk < 0x8000_0000_0000_0000,
    ensures
        pack8(ShHeadValue::Empty) == Ok::<u64, StoreError>(0),
        pack8(
            ShHeadValue::Inline {
                entries: [ShEntry { create_tx_fk: Fk(fk) }, ShEntry { create_tx_fk: Fk(0) }],
                used: 1,
            },
        ) == Ok::<u64, StoreError>(fk),
        ({
            let r = pack8(ShHeadValue::Slab { class, used, off });
            let w = r->Ok_0;
            &&& r is Ok
            &&& w / 0x4000_0000_0000_0000 == 2
            &&& (w / 0x0800_0000_0000_0000) % 8 == class
            &&& (w / 0x0000_0800_0000_0000) % 0x1_0000 == used
            &&& w % 0x0000_0800_0000_0000 == off
        }),
        ({
            let r = pack8(ShHeadValue::Paged { first_page: 0, last_page: off });
            let w = r->Ok_0;
            r is Ok && w / 0x2000_0000_0000_0000 == 6 && w % 0x2000_0000_0000_0000 == off
        }),
        ({
            let r = pack8(ShHeadValue::Extent { last_page: off });
            let w = r->Ok_0;
            r is Ok && w / 0x2000_0000_0000_0000 == 7 && w % 0x2000_0000_0000_0000 == off
        }),
{
}

/// A word reads back as what it was made of, and no two forms share a word.
pub proof fn law_word_read(w: u64)
    ensures
        match unpack8(w) {
            Ok(ShHeadValue::Empty) => w == 0,
            Ok(ShHeadValue::Inline { entries, used }) => 0 < w < 0x8000_0000_0000_0000 && used == 1
                && entries@[0].create_tx_fk.0 == w,
            Ok(ShHeadValue::Slab { class, used, off }) => w / 0x4000_0000_0000_0000 == 2 && class
                == (w / 0x0800_0000_0000_0000) % 8 && class <= 6 && used == (w
                / 0x0000_0800_0000_0000) % 0x1_0000 && off == w % 0x0000_0800_0000_0000 && off > 0,
            Ok(ShHeadValue::Paged { last_page, .. }) => w / 0x2000_0000_0000_0000 == 6 && last_page
                == w % 0x2000_0000_0000_0000 && last_page > 0,
            Ok(ShHeadValue::Extent { last_page }) => w / 0x2000_0000_0000_0000 == 7 && last_page
                == w % 0x2000_0000_0000_0000 && last_page > 0,
            Err(_) => w >= 0x8000_0000_0000_0000 && ((w / 0x4000_0000_0000_0000 == 2 && ((w
                / 0x0800_0000_0000_0000) % 8 == 7 || w % 0x0000_0800_0000_0000 == 0)) || (w
                / 0x4000_0000_0000_0000 == 3 && w % 0x2000_0000_0000_0000 == 0)),
        },
{
}

} // verus!
