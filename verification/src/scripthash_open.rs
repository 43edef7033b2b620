//! Files of a scripthash table: what is stored, and how a table is opened again.

use vstd::prelude::*;
use crate::bytes::{bytes_at, copy_range, overlay, push_slice, put_bytes, u16_at};
use crate::error::StoreError;
use crate::hashhead::HeadScale;
use crate::scripthash::{lemma_body_index, lemma_pick, lemma_view_holds, sound_at, sum_live, ScriptHashTable, ShBodyLayout};
use crate::scripthash_body::{kept, list_ok, ShBody, SH_FREE_LISTS};
use crate::scripthash_bulk::same_creates;
use crate::scripthash_cold::is_new;
use crate::scripthash_files::{alloc_bytes, alloc_error, alloc_part, alloc_value, body_layout_error, law_alloc_roundtrip, read_alloc_header, write_alloc_header, AllocState};
use crate::scripthash_head::{image_of, law_image_unique, parse_slots, shard_count_ok, slots_bytes, slots_fault, ScriptHashHead, OCC_SCAN_BYTE_CAP};
use crate::scripthash_layout::{class_bytes, SH_ALLOC_VERSION};
use crate::scripthash_pack8::unpack8;
use crate::scripthash_values::{lemma_holds_frame, lemma_value_owned};
use crate::sealed_head::{keys_rise, SealedHead};
use crate::slot_table::{count_used, Slot};
use crate::sorting::Ranked;

verus! {

/// A sealed head as it is stored.
pub struct HeadFile {
    pub id: u32,
    pub recs: Vec<Slot>,
}

/// First bytes of the file of a sealed head.
pub const SORTED_HEAD_MAGIC: [u8; 4] = [0x53, 0x48, 0x53, 0x52];

/// The file holds these records behind the magic.
pub open spec fn head_file_of(b: Seq<u8>, recs: Seq<Slot>) -> bool {
    b.len() >= 4 && b.subrange(0, 4) == SORTED_HEAD_MAGIC@ && image_of(
        b.subrange(4, b.len() as int),
        recs,
    )
}

/// True if a file begins as that of a sealed head.
pub fn is_sorted_head(b: &[u8]) -> (r: bool)
    ensures
        r == (b@.len() >= 4 && b@.subrange(0, 4) == SORTED_HEAD_MAGIC@),
{
    b.len() >= 4 && bytes_at(b, 0, SORTED_HEAD_MAGIC.as_slice())
}

/// Contents of the file of a sealed head.
pub fn head_file_bytes(f: &HeadFile) -> (r: Vec<u8>)
    ensures
        head_file_of(r@, f.recs@),
{
    let mut out: Vec<u8> = Vec::new();
    push_slice(&mut out, SORTED_HEAD_MAGIC.as_slice());
    let image = slots_bytes(&f.recs);
    push_slice(&mut out, image.as_slice());
    proof {
        assert(out@.subrange(0, 4) =~= SORTED_HEAD_MAGIC@);
        assert(out@.subrange(4, out@.len() as int) =~= image@);
    }
    out
}

/// Reads the file of a sealed head.
pub fn read_head_file(id: u32, b: &[u8]) -> (r: Result<HeadFile, StoreError>)
    ensures
        match r {
            Ok(f) => f.id == id && head_file_of(b@, f.recs@),
            Err(e) => if b@.len() < 4 || b@.subrange(0, 4) != SORTED_HEAD_MAGIC@ {
                e == StoreError::Corrupt("scripthash sealed head magic")
            } else {
                (b@.len() - 4) % 24 != 0 && e == StoreError::Corrupt("scripthash sealed head size")
            },
        },
{
    if !is_sorted_head(b) {
        return Err(StoreError::Corrupt("scripthash sealed head magic"));
    }
    if (b.len() - 4) % 24 != 0 {
        return Err(StoreError::Corrupt("scripthash sealed head size"));
    }
    let rest = copy_range(b, 4, b.len());
    Ok(HeadFile { id, recs: parse_slots(rest.as_slice()) })
}

/// The file of a sealed head gives back its records.
pub proof fn law_head_file_roundtrip(b: Seq<u8>, s: Seq<Slot>, t: Seq<Slot>)
    requires
        head_file_of(b, s),
        head_file_of(b, t),
    ensures
        s == t,
{
    law_image_unique(b.subrange(4, b.len() as int), s, t);
}

/// The files of a table.
pub struct TableFiles {
    pub scale: HeadScale,
    pub layout: ShBodyLayout,
    pub n_shards: usize,
    /// Body files with their headers; the overflow body comes last.
    pub bodies: Vec<Vec<u8>>,
    pub main: Vec<Option<HeadFile>>,
    /// Slots of the ingest head, and the number that are in use.
    pub ingest: Vec<u8>,
    pub ingest_used: Option<u64>,
    pub sealed: Vec<HeadFile>,
    pub l1: Option<HeadFile>,
    pub include_hwm: u64,
}

/// The allocator state of a body.
pub open spec fn state_of(b: ShBody, s: AllocState) -> bool {
    s.live_count == b.live_count && s.bump == b.bump && s.free_head@ == b.free_head@
}

/// The file holds the body, with its allocator header in the first page.
pub open spec fn body_image(b: ShBody, file: Seq<u8>) -> bool {
    exists|s: AllocState| #[trigger]
        state_of(b, s) && file == overlay(b.bytes@, 16, alloc_bytes(s))
}

/// The stored head is this one.
pub open spec fn head_image(h: SealedHead, f: HeadFile) -> bool {
    h.file_id() == f.id && h.records() == f.recs@
}

/// The files are those of the table.
pub open spec fn files_of(t: &ScriptHashTable, f: &TableFiles) -> bool {
    &&& f.scale == t.scale
    &&& f.layout == t.layout
    &&& f.n_shards == t.n_shards
    &&& f.bodies@.len() == t.bodies@.len()
    &&& forall|i: int|
        0 <= i < f.bodies@.len() ==> body_image(t.bodies@[i], (#[trigger] f.bodies@[i])@)
    &&& f.main@.len() == t.main@.len()
    &&& forall|i: int|
        0 <= i < f.main@.len() ==> match ((#[trigger] f.main@[i]), t.main@[i]) {
            (Some(hf), Some(h)) => head_image(h, hf),
            (None, None) => true,
            _ => false,
        }
    &&& image_of(f.ingest@, t.ingest.table())
    &&& f.ingest_used == t.ingest.used_slots()
    &&& f.sealed@.len() == t.sealed_ovf@.len()
    &&& forall|i: int|
        0 <= i < f.sealed@.len() ==> head_image(t.sealed_ovf@[i], #[trigger] f.sealed@[i])
    &&& match (f.l1, t.ovf_l1) {
        (Some(hf), Some(h)) => head_image(h, hf),
        (None, None) => true,
        _ => false,
    }
    &&& f.include_hwm == t.include_hwm
}

impl ShBody {
    /// Contents of the body file.
    pub fn file_bytes(&self) -> (r: Vec<u8>)
        requires
            self.heap_ok(),
        ensures
            body_image(*self, r@),
    {
        let mut free_head: [u64; 25] = [0;25];
        let mut i: usize = 0;
        while i < SH_FREE_LISTS
            invariant
                i <= 25,
                self.free_head@.len() == 25,
                forall|j: int| 0 <= j < i ==> (#[trigger] free_head@[j]) == self.free_head@[j],
            decreases 25 - i,
        {
            free_head[i] = self.free_head[i];
            i += 1;
        }
        let state = AllocState { live_count: self.live_count, bump: self.bump, free_head };
        let header = write_alloc_header(&state);
        let mut out = copy_range(self.bytes.as_slice(), 0, self.bytes.len());
        proof {
            assert(free_head@ =~= self.free_head@);
            assert(out@ =~= self.bytes@);
            law_alloc_roundtrip(state, Seq::empty());
            assert(state_of(*self, state));
        }
        put_bytes(&mut out, 16, header.as_slice());
        out
    }

    /// Opens a body file; gives the version of its header too.
    fn open_file(file: &Vec<u8>, Ghost(template): Ghost<ShBody>) -> (r: Result<
        (ShBody, u16),
        StoreError,
    >)
        ensures
            match r {
                Ok((b, ver)) => {
                    let h = header_part(file@);
                    &&& alloc_error(h) is None
                    &&& ver == u16_at(h, 4)
                    &&& b.bytes@ == file@
                    &&& b.free_head@.len() == 25
                    &&& exists|s: AllocState| #[trigger] alloc_value(h, s) && state_of(b, s)
                    &&& b.blocks@ == template.blocks@
                    &&& b.lists@ == template.lists@
                },
                Err(e) => alloc_error(header_part(file@)) == Some(e),
            },
    {
        let n: usize = file.len();
        let tail = if n >= 16 {
            copy_range(file.as_slice(), 16, n)
        } else {
            Vec::new()
        };
        let (state, ver) = match read_alloc_header(tail.as_slice()) {
            Ok(v) => v,
            Err(e) => {
                return Err(e);
            },
        };
        let mut free_head: Vec<u64> = Vec::new();
        let mut i: usize = 0;
        while i < SH_FREE_LISTS
            invariant
                i <= 25,
                free_head@.len() == i,
                forall|j: int| 0 <= j < i ==> (#[trigger] free_head@[j]) == state.free_head@[j],
            decreases 25 - i,
        {
            free_head.push(state.free_head[i]);
            i += 1;
        }
        proof {
            assert(free_head@ =~= state.free_head@);
        }
        let bytes = copy_range(file.as_slice(), 0, n);
        proof {
            assert(bytes@ =~= file@);
        }
        let b = ShBody {
            bytes,
            live_count: state.live_count,
            bump: state.bump,
            free_head,
            blocks: Ghost(template.blocks@),
            lists: Ghost(template.lists@),
        };
        proof {
            assert(state_of(b, state));
        }
        Ok((b, ver))
    }
}

/// The part of a body file that the allocator header can be in.
pub open spec fn header_part(file: Seq<u8>) -> Seq<u8> {
    alloc_part(
        if file.len() >= 16 {
            file.subrange(16, file.len() as int)
        } else {
            Seq::empty()
        },
    )
}

/// A body that was stored opens with the same allocator, and the same bytes behind
/// the first page.
proof fn lemma_body_reopened(b: ShBody, file: Seq<u8>, r: ShBody)
    requires
        b.heap_ok(),
        body_image(b, file),
        r.bytes@ == file,
        exists|s: AllocState| #[trigger] alloc_value(header_part(file), s) && state_of(r, s),
    ensures
        alloc_error(header_part(file)) is None,
        u16_at(header_part(file), 4) == SH_ALLOC_VERSION,
        r.live_count == b.live_count,
        r.bump == b.bump,
        r.free_head@ == b.free_head@,
        r.bytes@.len() == b.bytes@.len(),
        forall|i: int| 4096 <= i < b.bytes@.len() ==> r.bytes@[i] == b.bytes@[i],
{
    let s = choose|s: AllocState| #[trigger]
        state_of(b, s) && file == overlay(b.bytes@, 16, alloc_bytes(s));
    lemma_image_header(b, file, s);
    let q = choose|q: AllocState| #[trigger] alloc_value(header_part(file), q) && state_of(r, q);
    assert(q.free_head@ =~= s.free_head@);
}

proof fn lemma_image_header(b: ShBody, file: Seq<u8>, s: AllocState)
    requires
        b.bytes@.len() >= 4096,
        file == overlay(b.bytes@, 16, alloc_bytes(s)),
    ensures
        file.len() == b.bytes@.len(),
        alloc_error(header_part(file)) is None,
        alloc_value(header_part(file), s),
        u16_at(header_part(file), 4) == SH_ALLOC_VERSION,
        forall|i: int| 4096 <= i < b.bytes@.len() ==> file[i] == b.bytes@[i],
{
    let rest = b.bytes@.subrange(4096, b.bytes@.len() as int);
    law_alloc_roundtrip(s, rest);
    assert(file.subrange(16, file.len() as int) =~= alloc_bytes(s) + rest);
}

/// The body with the blocks of another.
spec fn with_blocks(r: ShBody, b: ShBody) -> ShBody {
    ShBody { blocks: b.blocks, lists: b.lists, ..r }
}

/// A body that was opened again is sound with the blocks that it had.
proof fn lemma_reopened_sound(b: ShBody, r: ShBody)
    requires
        b.heap_ok(),
        r.bump == b.bump,
        r.free_head@ == b.free_head@,
        r.bytes@.len() == b.bytes@.len(),
        r.blocks@ == b.blocks@,
        r.lists@ == b.lists@,
        forall|i: int| 4096 <= i < b.bytes@.len() ==> r.bytes@[i] == b.bytes@[i],
    ensures
        r.heap_ok(),
        forall|o: int| #[trigger] b.blocks@.dom().contains(o) ==> kept(&b, &r, o),
{
    assert forall|o: int| #[trigger] b.blocks@.dom().contains(o) implies kept(&b, &r, o) && o + 32
        <= b.bytes@.len() && 4096 <= o by {
        crate::scripthash_body::lemma_class_small(b.blocks@[o].class);
        assert(r.bytes@.subrange(o, o + class_bytes(b.blocks@[o].class)) =~= b.bytes@.subrange(
            o,
            o + class_bytes(b.blocks@[o].class),
        ));
    }
    assert forall|c: int| 0 <= c < 25 implies list_ok(
        r.bytes@,
        r.blocks@,
        #[trigger] r.lists@[c],
        c as nat,
        r.free_head@[c],
    ) by {
        let list = b.lists@[c];
        assert(list_ok(b.bytes@, b.blocks@, list, c as nat, b.free_head@[c]));
        assert forall|i: int| 0 <= i < list.len() implies crate::bytes::u64_at(
            r.bytes@,
            #[trigger] list[i],
        ) == crate::bytes::u64_at(b.bytes@, list[i]) by {
            assert(b.blocks@.dom().contains(list[i]));
            assert(r.bytes@.subrange(list[i], list[i] + 8) =~= b.bytes@.subrange(
                list[i],
                list[i] + 8,
            ));
        }
    }
}

/// A table that was stored and opened again answers as it did.
proof fn lemma_reopened(t: &ScriptHashTable, f: &TableFiles, r: &ScriptHashTable)
    requires
        t.wf(),
        files_of(t, f),
        reads(f, r),
    ensures
        forall|k: Seq<u8>| #[trigger] r.located(k) == t.located(k),
        same_creates(t, r),
        r.live() == t.live(),
        (forall|i: int|
            0 <= i < t.bodies@.len() ==> (#[trigger] r.bodies@[i]).blocks@ == t.bodies@[i].blocks@
                && r.bodies@[i].lists@ == t.bodies@[i].lists@) ==> r.wf(),
{
    assert forall|i: int| 0 <= i < t.bodies@.len() implies ({
        let b = t.bodies@[i];
        let q = #[trigger] r.bodies@[i];
        &&& q.live_count == b.live_count
        &&& q.bump == b.bump
        &&& q.free_head@ == b.free_head@
        &&& q.bytes@.len() == b.bytes@.len()
        &&& forall|j: int| 4096 <= j < b.bytes@.len() ==> q.bytes@[j] == b.bytes@[j]
    }) by {
        assert(body_image(t.bodies@[i], f.bodies@[i]@));
        assert(reads_body(f.bodies@[i]@, r.bodies@[i]));
        lemma_body_reopened(t.bodies@[i], f.bodies@[i]@, r.bodies@[i]);
    }
    law_image_unique(f.ingest@, t.ingest.table(), r.ingest.table());
    assert forall|k: Seq<u8>| #[trigger] r.located(k) == t.located(k) by {
        lemma_newest_reopened(t, f, r, k, t.sealed_ovf@.len() as int);
        assert(t.sealed_ovf@.subrange(0, t.sealed_ovf@.len() as int) =~= t.sealed_ovf@);
        assert(r.sealed_ovf@.subrange(0, r.sealed_ovf@.len() as int) =~= r.sealed_ovf@);
        let si = crate::scripthash_head::prefix_shard(k, t.n_shards as int);
        if 0 <= si < t.main@.len() {
            assert(reads_head(f.main@[si], r.main@[si]));
        }
    }
    lemma_live_same(t.bodies@, r.bodies@);
    assert forall|k: Seq<u8>| k.len() == 16 implies #[trigger] r.creates(k) == t.creates(k) && (
    t.located(k) matches Some((w, h)) ==> sound_at(
        &with_blocks(r.body_at(k, h), t.body_at(k, h)),
        unpack8(w)->Ok_0,
        k,
    )) by {
        assert(t.key_sound(k));
        assert(r.located(k) == t.located(k));
        if let Some((w, h)) = t.located(k) {
            lemma_body_index(t, k, h);
            let v = unpack8(w)->Ok_0;
            let x = t.body_at(k, h);
            let y = with_blocks(r.body_at(k, h), x);
            lemma_reopened_sound(x, y);
            let (pages, fks) = lemma_pick(&x, v, k);
            assert forall|i: int| 0 <= i < pages.len() implies kept(&x, &y, #[trigger] pages[i]) by {
                lemma_value_owned(&x, v, k, pages, fks, i);
            }
            lemma_holds_frame(&x, &y, v, k, pages, fks);
            lemma_view_holds(&x, v, k, pages, fks);
            lemma_view_holds(&y, v, k, pages, fks);
        }
    }
    if forall|i: int|
        0 <= i < t.bodies@.len() ==> (#[trigger] r.bodies@[i]).blocks@ == t.bodies@[i].blocks@
            && r.bodies@[i].lists@ == t.bodies@[i].lists@ {
        lemma_reopened_wf(t, f, r);
    }
}

/// A body as it is read from a file.
pub open spec fn reads_body(file: Seq<u8>, b: ShBody) -> bool {
    &&& b.bytes@ == file
    &&& exists|s: AllocState| #[trigger] alloc_value(header_part(file), s) && state_of(b, s)
}

/// A head as it is read.
pub open spec fn reads_head(f: Option<HeadFile>, h: Option<SealedHead>) -> bool {
    match (f, h) {
        (Some(hf), Some(h)) => head_image(h, hf) && h.inv(),
        (None, None) => true,
        _ => false,
    }
}

/// The table is what the files say.
pub open spec fn reads(f: &TableFiles, r: &ScriptHashTable) -> bool {
    &&& r.scale == f.scale
    &&& r.layout == f.layout
    &&& r.n_shards == f.n_shards
    &&& r.include_hwm == f.include_hwm
    &&& r.bodies@.len() == f.bodies@.len()
    &&& forall|i: int|
        0 <= i < f.bodies@.len() ==> reads_body(f.bodies@[i]@, #[trigger] r.bodies@[i])
    &&& r.main@.len() == f.main@.len()
    &&& forall|i: int| 0 <= i < f.main@.len() ==> reads_head(f.main@[i], #[trigger] r.main@[i])
    &&& image_of(f.ingest@, r.ingest.table())
    &&& r.sealed_ovf@.len() == f.sealed@.len()
    &&& forall|i: int|
        0 <= i < f.sealed@.len() ==> head_image(#[trigger] r.sealed_ovf@[i], f.sealed@[i])
            && r.sealed_ovf@[i].inv()
    &&& reads_head(f.l1, r.ovf_l1)
    &&& f.ingest_used matches Some(n) ==> r.ingest.used_slots() == Some(n) && r.ingest.counter()
        == n
    &&& f.ingest_used is None ==> r.ingest.used_slots() == (if f.ingest@.len()
        <= OCC_SCAN_BYTE_CAP {
        Some(count_used(r.ingest.table()) as u64)
    } else {
        None
    })
}

proof fn lemma_newest_reopened(
    t: &ScriptHashTable,
    f: &TableFiles,
    r: &ScriptHashTable,
    k: Seq<u8>,
    n: int,
)
    requires
        files_of(t, f),
        reads(f, r),
        0 <= n <= t.sealed_ovf@.len(),
    ensures
        crate::sealed_head::newest_word(r.sealed_ovf@.subrange(0, n), k)
            == crate::sealed_head::newest_word(t.sealed_ovf@.subrange(0, n), k),
    decreases n,
{
    if n > 0 {
        lemma_newest_reopened(t, f, r, k, n - 1);
        let a = t.sealed_ovf@.subrange(0, n);
        let b = r.sealed_ovf@.subrange(0, n);
        assert(a.drop_last() =~= t.sealed_ovf@.subrange(0, n - 1));
        assert(b.drop_last() =~= r.sealed_ovf@.subrange(0, n - 1));
        assert(a.last() == t.sealed_ovf@[n - 1]);
        assert(b.last() == r.sealed_ovf@[n - 1]);
        assert(head_image(r.sealed_ovf@[n - 1], f.sealed@[n - 1]));
        assert(head_image(t.sealed_ovf@[n - 1], f.sealed@[n - 1]));
    }
}

proof fn lemma_live_same(a: Seq<ShBody>, b: Seq<ShBody>)
    requires
        a.len() == b.len(),
        forall|i: int| 0 <= i < a.len() ==> (#[trigger] b[i]).live_count == a[i].live_count,
    ensures
        sum_live(a) == sum_live(b),
    decreases a.len(),
{
    if a.len() > 0 {
        assert(b[b.len() - 1].live_count == a[a.len() - 1].live_count);
        assert forall|i: int| 0 <= i < a.drop_last().len() implies (
        #[trigger] b.drop_last()[i]).live_count == a.drop_last()[i].live_count by {
            assert(b[i].live_count == a[i].live_count);
        }
        lemma_live_same(a.drop_last(), b.drop_last());
    }
}

proof fn lemma_reopened_wf(t: &ScriptHashTable, f: &TableFiles, r: &ScriptHashTable)
    requires
        t.wf(),
        files_of(t, f),
        reads(f, r),
        forall|k: Seq<u8>| #[trigger] r.located(k) == t.located(k),
        forall|i: int|
            0 <= i < t.bodies@.len() ==> (#[trigger] r.bodies@[i]).blocks@ == t.bodies@[i].blocks@
                && r.bodies@[i].lists@ == t.bodies@[i].lists@,
        forall|i: int|
            0 <= i < t.bodies@.len() ==> ({
                let b = t.bodies@[i];
                let q = #[trigger] r.bodies@[i];
                &&& q.live_count == b.live_count
                &&& q.bump == b.bump
                &&& q.free_head@ == b.free_head@
                &&& q.bytes@.len() == b.bytes@.len()
                &&& forall|j: int| 4096 <= j < b.bytes@.len() ==> q.bytes@[j] == b.bytes@[j]
            }),
    ensures
        r.wf(),
{
    law_image_unique(f.ingest@, t.ingest.table(), r.ingest.table());
    assert forall|i: int| 0 <= i < r.bodies@.len() implies (#[trigger] r.bodies@[i]).heap_ok() by {
        lemma_reopened_sound(t.bodies@[i], r.bodies@[i]);
    }
    assert forall|i: int| 0 <= i < r.main@.len() implies ((#[trigger] r.main@[i]) matches Some(h)
        ==> h.inv()) by {
        assert(reads_head(f.main@[i], r.main@[i]));
    }
    crate::slot_table::lemma_count_bound(r.ingest.table());
    assert(r.ingest.inv());
    assert(crate::sealed_head::all_sealed(r.sealed_ovf@)) by {
        assert forall|i: int| 0 <= i < r.sealed_ovf@.len() implies (
        #[trigger] r.sealed_ovf@[i]).inv() by {
            assert(head_image(r.sealed_ovf@[i], f.sealed@[i]));
        }
    }
    assert(r.parts_ok());
    assert(r.homes_apart()) by {
        assert forall|k: Seq<u8>| #[trigger]
            r.ingest@.dom().contains(k) implies crate::sealed_head::newest_word(r.sealed_ovf@, k)
            is None && crate::scripthash::l1_word(r.ovf_l1, k) is None
            && crate::scripthash::main_word(r.main@, r.n_shards as int, k) is None by {
            assert(t.ingest@.dom().contains(k));
            lemma_newest_reopened(t, f, r, k, t.sealed_ovf@.len() as int);
            assert(t.sealed_ovf@.subrange(0, t.sealed_ovf@.len() as int) =~= t.sealed_ovf@);
            assert(r.sealed_ovf@.subrange(0, r.sealed_ovf@.len() as int) =~= r.sealed_ovf@);
            let si = crate::scripthash_head::prefix_shard(k, t.n_shards as int);
            if 0 <= si < t.main@.len() {
                assert(reads_head(f.main@[si], r.main@[si]));
            }
        }
        let heads = r.sealed_ovf@;
        assert forall|i: int, j: int, k: Seq<u8>|
            0 <= i < j < heads.len() && (#[trigger] heads[i].word(k)) is Some implies (
        #[trigger] heads[j].word(k)) is None by {
            assert(head_image(heads[i], f.sealed@[i]));
            assert(head_image(heads[j], f.sealed@[j]));
            assert(head_image(t.sealed_ovf@[i], f.sealed@[i]));
            assert(head_image(t.sealed_ovf@[j], f.sealed@[j]));
            assert(t.sealed_ovf@[i].word(k) is Some);
            assert(t.sealed_ovf@[j].word(k) is None);
        }
        assert forall|k: Seq<u8>| (#[trigger] crate::sealed_head::newest_word(r.sealed_ovf@, k))
            == crate::sealed_head::newest_word(t.sealed_ovf@, k) by {
            lemma_newest_reopened(t, f, r, k, t.sealed_ovf@.len() as int);
            assert(t.sealed_ovf@.subrange(0, t.sealed_ovf@.len() as int) =~= t.sealed_ovf@);
            assert(r.sealed_ovf@.subrange(0, r.sealed_ovf@.len() as int) =~= r.sealed_ovf@);
        }
        assert forall|s: int, k: Seq<u8>|
            0 <= s < t.main@.len() && #[trigger] crate::scripthash::head_word(r.main@[s], k)
                is Some implies crate::scripthash::head_word(t.main@[s], k) is Some by {
            assert(reads_head(f.main@[s], r.main@[s]));
        }
        assert forall|k: Seq<u8>| (#[trigger] crate::scripthash::l1_word(r.ovf_l1, k))
            == crate::scripthash::l1_word(t.ovf_l1, k) by {}
        crate::scripthash::lemma_apart_same(
            t.sealed_ovf@,
            t.ovf_l1,
            t.main@,
            r.sealed_ovf@,
            r.ovf_l1,
            r.main@,
            r.n_shards as int,
        );
    }
    assert forall|k: Seq<u8>| k.len() == 16 implies #[trigger] r.key_sound(k) by {
        assert(t.key_sound(k));
        assert(r.located(k) == t.located(k));
        if let Some((w, h)) = t.located(k) {
            lemma_body_index(t, k, h);
            let v = unpack8(w)->Ok_0;
            let x = t.body_at(k, h);
            let y = r.body_at(k, h);
            lemma_reopened_sound(x, y);
            let (pages, fks) = lemma_pick(&x, v, k);
            assert forall|i: int| 0 <= i < pages.len() implies kept(&x, &y, #[trigger] pages[i]) by {
                lemma_value_owned(&x, v, k, pages, fks, i);
            }
            lemma_holds_frame(&x, &y, v, k, pages, fks);
            assert(sound_at(&y, v, k));
        }
    }
}

/// Some sealed head is not in key order.
pub open spec fn unsorted_head(f: &TableFiles) -> bool {
    ||| exists|i: int|
        0 <= i < f.main@.len() && (#[trigger] f.main@[i]) is Some && !keys_rise(f.main@[i]->0.recs@)
    ||| exists|i: int| 0 <= i < f.sealed@.len() && !keys_rise((#[trigger] f.sealed@[i]).recs@)
    ||| f.l1 is Some && !keys_rise(f.l1->0.recs@)
}

/// The files do not go together.
pub open spec fn files_mixed(f: &TableFiles) -> bool {
    ||| f.n_shards < 1
    ||| !shard_count_ok(f.n_shards as int)
    ||| f.main@.len() != f.n_shards
    ||| f.bodies@.len() != (match f.layout {
        ShBodyLayout::Shared => 1int,
        ShBodyLayout::Sharded => f.n_shards + 1,
    })
}

/// Why the first body that cannot be read cannot be.
pub open spec fn bodies_fault(bodies: Seq<Vec<u8>>, i: int) -> Option<StoreError>
    decreases bodies.len() - i,
{
    if i < 0 || i >= bodies.len() {
        None
    } else if alloc_error(header_part(bodies[i]@)) is Some {
        alloc_error(header_part(bodies[i]@))
    } else {
        bodies_fault(bodies, i + 1)
    }
}

/// Why the files cannot be read.
pub open spec fn open_fault(f: &TableFiles) -> Option<StoreError> {
    if files_mixed(f) {
        Some(body_layout_error())
    } else if bodies_fault(f.bodies@, 0) is Some {
        bodies_fault(f.bodies@, 0)
    } else if unsorted_head(f) {
        Some(StoreError::Corrupt("scripthash sealed head not sorted"))
    } else {
        slots_fault(f.ingest@)
    }
}

/// The records are in strict key order.
fn recs_in_order(recs: &Vec<Slot>) -> (r: bool)
    ensures
        r == keys_rise(recs@),
{
    let mut i: usize = 1;
    while i < recs.len()
        invariant
            1 <= i,
            recs@.len() > 0 ==> i <= recs@.len(),
            forall|a: int, b: int|
                0 <= a < b < i && b < recs@.len() ==> (#[trigger] recs@[a]).rank() < (
                #[trigger] recs@[b]).rank(),
        decreases recs@.len() - i,
    {
        if recs[i].rank_le(&recs[i - 1]) {
            assert(recs@[i as int].rank() <= recs@[i - 1].rank());
            return false;
        }
        proof {
            assert forall|a: int, b: int| 0 <= a < b < i + 1 implies (#[trigger] recs@[a]).rank()
                < (#[trigger] recs@[b]).rank() by {
                if b == i && a < i - 1 {
                    assert(recs@[a].rank() < recs@[i - 1].rank());
                }
            }
        }
        i += 1;
    }
    true
}

/// A copy of the records.
fn copy_recs(recs: &Vec<Slot>) -> (r: Vec<Slot>)
    ensures
        r@ == recs@,
{
    let mut v: Vec<Slot> = Vec::new();
    let mut i: usize = 0;
    while i < recs.len()
        invariant
            i <= recs@.len(),
            v@ == recs@.subrange(0, i as int),
        decreases recs@.len() - i,
    {
        v.push(recs[i]);
        proof {
            assert(v@ =~= recs@.subrange(0, i + 1));
        }
        i += 1;
    }
    proof {
        assert(recs@.subrange(0, i as int) =~= recs@);
    }
    v
}

/// Opens a sealed head.
fn open_head(f: &HeadFile) -> (r: Result<SealedHead, StoreError>)
    ensures
        match r {
            Ok(h) => head_image(h, *f) && h.inv(),
            Err(e) => !keys_rise(f.recs@) && e == StoreError::Corrupt(
                "scripthash sealed head not sorted",
            ),
        },
{
    if !recs_in_order(&f.recs) {
        return Err(StoreError::Corrupt("scripthash sealed head not sorted"));
    }
    Ok(SealedHead::seal(f.id, copy_recs(&f.recs)))
}

/// The number is one that shards can have.
fn shard_count_good(n: usize) -> (r: bool)
    ensures
        r == (n >= 1 && shard_count_ok(n as int)),
{
    if n < 1 || n > 256 {
        return false;
    }
    let p: u64 = crate::hashhead::next_pow2(n as u64);
    proof {
        if vstd::arithmetic::power2::is_pow2(n as int) {
            crate::hashhead::lemma_least_pow2_unique(n as int, p as int, n as int);
        }
        assert(vstd::arithmetic::power2::is_pow2(1)) by {
            reveal_with_fuel(vstd::arithmetic::power2::is_pow2, 2);
        }
    }
    p == n as u64
}

impl ScriptHashTable {
    /// The files of a table.
    pub fn save(&self) -> (r: TableFiles)
        requires
            self.wf(),
        ensures
            files_of(self, &r),
    {
        let mut bodies: Vec<Vec<u8>> = Vec::new();
        let mut i: usize = 0;
        while i < self.bodies.len()
            invariant
                i <= self.bodies@.len(),
                self.wf(),
                bodies@.len() == i,
                forall|j: int|
                    0 <= j < i ==> body_image(self.bodies@[j], (#[trigger] bodies@[j])@),
            decreases self.bodies@.len() - i,
        {
            bodies.push(self.bodies[i].file_bytes());
            i += 1;
        }
        let mut main: Vec<Option<HeadFile>> = Vec::new();
        i = 0;
        while i < self.main.len()
            invariant
                i <= self.main@.len(),
                main@.len() == i,
                forall|j: int|
                    0 <= j < i ==> match ((#[trigger] main@[j]), self.main@[j]) {
                        (Some(hf), Some(h)) => head_image(h, hf),
                        (None, None) => true,
                        _ => false,
                    },
            decreases self.main@.len() - i,
        {
            match &self.main[i] {
                Some(h) => {
                    let recs = crate::scripthash_cold::head_recs(h);
                    main.push(Some(HeadFile { id: h.id(), recs }));
                },
                None => {
                    main.push(None);
                },
            }
            i += 1;
        }
        let mut sealed: Vec<HeadFile> = Vec::new();
        i = 0;
        while i < self.sealed_ovf.len()
            invariant
                i <= self.sealed_ovf@.len(),
                sealed@.len() == i,
                forall|j: int|
                    0 <= j < i ==> head_image(self.sealed_ovf@[j], #[trigger] sealed@[j]),
            decreases self.sealed_ovf@.len() - i,
        {
            let recs = crate::scripthash_cold::head_recs(&self.sealed_ovf[i]);
            sealed.push(HeadFile { id: self.sealed_ovf[i].id(), recs });
            i += 1;
        }
        let l1: Option<HeadFile> = match &self.ovf_l1 {
            Some(h) => {
                let recs = crate::scripthash_cold::head_recs(h);
                Some(HeadFile { id: h.id(), recs })
            },
            None => None,
        };
        TableFiles {
            scale: self.scale,
            layout: self.layout,
            n_shards: self.n_shards,
            bodies,
            main,
            ingest: self.ingest.image(),
            ingest_used: self.ingest.used(),
            sealed,
            l1,
            include_hwm: self.include_hwm,
        }
    }

    /// Opens a table from its files. A body of an older version is emptied if nothing
    /// is in the index, and refused otherwise.
    ///
    /// Files that were saved from a table give a table with the same keys and creates.
    pub fn open(f: &TableFiles) -> (r: Result<Self, StoreError>)
        ensures
            match open_fault(f) {
                Some(e) => r is Err && r->Err_0 == e,
                None => if u16_at(header_part(f.bodies@[0]@), 4) == SH_ALLOC_VERSION {
                    r is Ok && reads(f, &r->Ok_0) && (f.ingest@.len() >= 48
                        ==> r->Ok_0.readable())
                } else {
                    exists|t: ScriptHashTable| #[trigger]
                        reads(f, &t) && match r {
                            Ok(n) => {
                                &&& t.live() == 0
                                &&& t.heads_empty()
                                &&& is_new(&n)
                                &&& n.shape() == (f.scale, f.layout, f.n_shards)
                                &&& n.hwm() == f.include_hwm
                            },
                            Err(e) => {
                                &&& t.live() > 0 || !t.heads_empty()
                                &&& e == StoreError::Corrupt(
                                    "scripthash alloc is a pre-schema-15 body; wipe store/scripthash* (head, body, ovf, runs, include_hwm, cold_progress) and rematerialize",
                                )
                            },
                        }
                },
            },
            forall|t: ScriptHashTable|
                t.wf() && #[trigger] files_of(&t, f) ==> r is Ok && r->Ok_0.wf() && same_creates(
                    &t,
                    &r->Ok_0,
                ) && r->Ok_0.live() == t.live() && r->Ok_0.shape() == t.shape() && r->Ok_0.hwm()
                    == t.hwm(),
    {
        let ghost good = exists|t: ScriptHashTable| t.wf() && #[trigger] files_of(&t, f);
        let ghost t0 = choose|t: ScriptHashTable| t.wf() && #[trigger] files_of(&t, f);
        let want: usize = match f.layout {
            ShBodyLayout::Shared => 1,
            ShBodyLayout::Sharded => if f.n_shards < usize::MAX {
                f.n_shards + 1
            } else {
                0
            },
        };
        if !shard_count_good(f.n_shards) || f.main.len() != f.n_shards || f.bodies.len() != want {
            return Err(
                StoreError::Layout(
                    "scripthash body layout mixed or incomplete; wipe store/scripthash* (head, body, ovf, runs, include_hwm, cold_progress) and rematerialize",
                ),
            );
        }
        let (bodies, ver) = match open_bodies(f, Ghost(t0)) {
            Ok(v) => v,
            Err(e) => {
                proof {
                    if good {
                        lemma_headers_good(&t0, f);
                    }
                }
                return Err(e);
            },
        };
        let (main, sealed, l1) = match open_heads(f) {
            Ok(v) => v,
            Err(e) => {
                proof {
                    if good {
                        lemma_heads_good(&t0, f);
                    }
                }
                return Err(e);
            },
        };
        let ingest = match ScriptHashHead::open(f.ingest.as_slice(), f.ingest_used) {
            Ok(h) => h,
            Err(e) => {
                proof {
                    if good {
                        lemma_ingest_good(&t0, f);
                    }
                }
                return Err(e);
            },
        };
        let table = ScriptHashTable {
            scale: f.scale,
            layout: f.layout,
            n_shards: f.n_shards,
            bodies,
            main,
            ingest,
            sealed_ovf: sealed,
            ovf_l1: l1,
            include_hwm: f.include_hwm,
        };
        proof {
            assert(reads(f, &table));
            if good {
                lemma_headers_good(&t0, f);
                lemma_heads_good(&t0, f);
                lemma_reopened(&t0, f, &table);
            }
            assert forall|t: ScriptHashTable| t.wf() && #[trigger] files_of(&t, f) implies table.wf()
                && same_creates(&t, &table) && table.live() == t.live() && table.shape()
                == t.shape() && table.hwm() == t.hwm() && ver == SH_ALLOC_VERSION by {
                lemma_reopened(&t, f, &table);
                lemma_headers_good(&t, f);
            }
        }
        if ver != SH_ALLOC_VERSION {
            if table.has_durable_index() {
                return Err(
                    StoreError::Corrupt(
                        "scripthash alloc is a pre-schema-15 body; wipe store/scripthash* (head, body, ovf, runs, include_hwm, cold_progress) and rematerialize",
                    ),
                );
            }
            let mut fresh = ScriptHashTable::create_with_layout(f.scale, f.layout, f.n_shards);
            fresh.note_include_hwm(f.include_hwm);
            proof {
                assert(is_new(&fresh));
            }
            return Ok(fresh);
        }
        Ok(table)
    }
}

/// Opens the bodies; gives the version of the first one.
fn open_bodies(f: &TableFiles, Ghost(t): Ghost<ScriptHashTable>) -> (r: Result<
    (Vec<ShBody>, u16),
    StoreError,
>)
    requires
        f.bodies@.len() >= 1,
    ensures
        match r {
            Ok((v, ver)) => {
                &&& v@.len() == f.bodies@.len()
                &&& ver == u16_at(header_part(f.bodies@[0]@), 4)
                &&& forall|i: int|
                    0 <= i < v@.len() ==> reads_body(f.bodies@[i]@, #[trigger] v@[i])
                &&& t.bodies@.len() == f.bodies@.len() ==> forall|i: int|
                    0 <= i < v@.len() ==> (#[trigger] v@[i]).blocks@ == t.bodies@[i].blocks@
                        && v@[i].lists@ == t.bodies@[i].lists@
                &&& bodies_fault(f.bodies@, 0) is None
            },
            Err(e) => {
                &&& bodies_fault(f.bodies@, 0) == Some(e)
                &&& exists|i: int| {
                    &&& 0 <= i < f.bodies@.len()
                    &&& #[trigger] alloc_error(header_part(f.bodies@[i]@)) == Some(e)
                }
            },
        },
{
    let mut v: Vec<ShBody> = Vec::new();
    let mut first: u16 = 0;
    let mut i: usize = 0;
    while i < f.bodies.len()
        invariant
            i <= f.bodies@.len(),
            v@.len() == i,
            i > 0 ==> first == u16_at(header_part(f.bodies@[0]@), 4),
            bodies_fault(f.bodies@, 0) == bodies_fault(f.bodies@, i as int),
            forall|j: int| 0 <= j < i ==> reads_body(f.bodies@[j]@, #[trigger] v@[j]),
            t.bodies@.len() == f.bodies@.len() ==> forall|j: int|
                0 <= j < i ==> (#[trigger] v@[j]).blocks@ == t.bodies@[j].blocks@ && v@[j].lists@
                    == t.bodies@[j].lists@,
        decreases f.bodies@.len() - i,
    {
        let (b, ver) = match ShBody::open_file(&f.bodies[i], Ghost(t.bodies@[i as int])) {
            Ok(x) => x,
            Err(e) => {
                assert(alloc_error(header_part(f.bodies@[i as int]@)) == Some(e));
                return Err(e);
            },
        };
        if i == 0 {
            first = ver;
        }
        v.push(b);
        i += 1;
    }
    Ok((v, first))
}

/// Opens the sealed heads.
fn open_heads(f: &TableFiles) -> (r: Result<
    (Vec<Option<SealedHead>>, Vec<SealedHead>, Option<SealedHead>),
    StoreError,
>)
    ensures
        match r {
            Ok((main, sealed, l1)) => {
                &&& !unsorted_head(f)
                &&& main@.len() == f.main@.len()
                &&& forall|i: int|
                    0 <= i < main@.len() ==> reads_head(f.main@[i], #[trigger] main@[i])
                &&& sealed@.len() == f.sealed@.len()
                &&& forall|i: int|
                    0 <= i < sealed@.len() ==> head_image(#[trigger] sealed@[i], f.sealed@[i])
                        && sealed@[i].inv()
                &&& reads_head(f.l1, l1)
            },
            Err(e) => unsorted_head(f) && e == StoreError::Corrupt(
                "scripthash sealed head not sorted",
            ),
        },
{
    let mut main: Vec<Option<SealedHead>> = Vec::new();
    let mut i: usize = 0;
    while i < f.main.len()
        invariant
            i <= f.main@.len(),
            main@.len() == i,
            forall|j: int| 0 <= j < i ==> reads_head(f.main@[j], #[trigger] main@[j]),
        decreases f.main@.len() - i,
    {
        match &f.main[i] {
            None => {
                main.push(None);
            },
            Some(hf) => {
                match open_head(hf) {
                    Ok(h) => {
                        main.push(Some(h));
                    },
                    Err(e) => {
                        assert(f.main@[i as int] is Some);
                        return Err(e);
                    },
                }
            },
        }
        i += 1;
    }
    let mut sealed: Vec<SealedHead> = Vec::new();
    i = 0;
    while i < f.sealed.len()
        invariant
            i <= f.sealed@.len(),
            sealed@.len() == i,
            forall|j: int|
                0 <= j < i ==> head_image(#[trigger] sealed@[j], f.sealed@[j]) && sealed@[j].inv(),
        decreases f.sealed@.len() - i,
    {
        match open_head(&f.sealed[i]) {
            Ok(h) => {
                sealed.push(h);
            },
            Err(e) => {
                assert(!keys_rise(f.sealed@[i as int].recs@));
                return Err(e);
            },
        }
        i += 1;
    }
    let l1: Option<SealedHead> = match &f.l1 {
        None => None,
        Some(hf) => match open_head(hf) {
            Ok(h) => Some(h),
            Err(e) => {
                return Err(e);
            },
        },
    };
    proof {
        assert forall|j: int|
            0 <= j < f.main@.len() && (#[trigger] f.main@[j]) is Some implies keys_rise(
            f.main@[j]->0.recs@,
        ) by {
            assert(reads_head(f.main@[j], main@[j]));
        }
        assert forall|j: int| 0 <= j < f.sealed@.len() implies keys_rise(
            (#[trigger] f.sealed@[j]).recs@,
        ) by {
            assert(head_image(sealed@[j], f.sealed@[j]));
        }
    }
    Ok((main, sealed, l1))
}

/// The headers of a saved table are in order.
proof fn lemma_headers_good(t: &ScriptHashTable, f: &TableFiles)
    requires
        t.wf(),
        files_of(t, f),
    ensures
        forall|i: int|
            0 <= i < f.bodies@.len() ==> (#[trigger] alloc_error(header_part(f.bodies@[i]@)))
                is None,
        u16_at(header_part(f.bodies@[0]@), 4) == SH_ALLOC_VERSION,
        !files_mixed(f),
{
    assert forall|i: int| 0 <= i < f.bodies@.len() implies (#[trigger] alloc_error(
        header_part(f.bodies@[i]@),
    )) is None && u16_at(header_part(f.bodies@[i]@), 4) == SH_ALLOC_VERSION by {
        let b = t.bodies@[i];
        assert(body_image(b, f.bodies@[i]@));
        let s = choose|s: AllocState| #[trigger]
            state_of(b, s) && f.bodies@[i]@ == overlay(b.bytes@, 16, alloc_bytes(s));
        lemma_image_header(b, f.bodies@[i]@, s);
    }
    assert(alloc_error(header_part(f.bodies@[0]@)) is None);
}

/// The heads of a saved table are in order.
proof fn lemma_heads_good(t: &ScriptHashTable, f: &TableFiles)
    requires
        t.wf(),
        files_of(t, f),
    ensures
        !unsorted_head(f),
{
    assert forall|i: int| 0 <= i < f.sealed@.len() implies keys_rise(
        (#[trigger] f.sealed@[i]).recs@,
    ) by {
        assert(head_image(t.sealed_ovf@[i], f.sealed@[i]));
        assert(t.sealed_ovf@[i].inv());
    }
}

/// The ingest head of a saved table can be opened.
proof fn lemma_ingest_good(t: &ScriptHashTable, f: &TableFiles)
    requires
        t.wf(),
        files_of(t, f),
    ensures
        f.ingest@.len() % 24 == 0,
        f.ingest@.len() > 0,
        vstd::arithmetic::power2::is_pow2((f.ingest@.len() / 24) as int),
{
    assert(t.ingest.inv());
    assert(f.ingest@.len() == 24 * t.ingest.table().len());
}

} // verus!
