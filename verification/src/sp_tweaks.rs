//! Thin index of BIP-352 tweaks: for each height from an origin on, the tweaks of
//! the block's transactions and nothing else.
//!
//! ```text
//! idx slot i  = block_fk: u64, off: u32      height = origin + i
//! body record = len: u8, then len bytes      0 for none, 33 for a tweak
//! ```

use vstd::prelude::*;
use crate::bytes::{copy_range, get_u32, get_u64, le32, le64, lemma_le_nat_of_seq, lemma_p256_values, push_slice, push_u32, push_u64, u32_at, u64_at};
use crate::error::StoreError;
use crate::primitives::{Fk, Height};

verus! {

/// Bytes of a tweak.
pub const TWEAK_LEN: u8 = 33;

/// Header of a table file.
pub const FILE_HEADER_LEN: usize = 16;

/// Index bytes before the first slot: file header, origin, padding.
pub const IDX_PREFIX: usize = 24;

/// Bytes of an index slot.
pub const SLOT: usize = 12;

/// A transaction's tweak, if it has one.
pub type Tweak = Option<[u8; 33]>;

/// Header row of a block and the start of its tweaks in the body.
#[derive(Clone, Copy, Debug, PartialEq, Eq, Structural)]
pub struct SpTweaksSlot {
    pub block_fk: Fk,
    pub off: u32,
}

/// Body bytes of one transaction.
pub open spec fn record_bytes(t: Tweak) -> Seq<u8> {
    match t {
        None => seq![0u8],
        Some(b) => seq![33u8] + b@,
    }
}

/// Body bytes of a block.
pub open spec fn records_bytes(ts: Seq<Tweak>) -> Seq<u8>
    decreases ts.len(),
{
    if ts.len() == 0 {
        Seq::empty()
    } else {
        record_bytes(ts[0]) + records_bytes(ts.subrange(1, ts.len() as int))
    }
}

/// What the body bytes of a block say.
pub open spec fn records_value(b: Seq<u8>, n: nat) -> Result<Seq<Option<Seq<u8>>>, StoreError>
    decreases n,
{
    if n == 0 {
        if b.len() == 0 {
            Ok(Seq::empty())
        } else {
            Err(StoreError::Corrupt("sp_tweaks n_tx/body mismatch"))
        }
    } else if b.len() == 0 {
        Err(StoreError::Corrupt("sp_tweaks short body"))
    } else if b[0] == 0 {
        match records_value(b.subrange(1, b.len() as int), (n - 1) as nat) {
            Ok(v) => Ok(seq![None::<Seq<u8>>] + v),
            Err(e) => Err(e),
        }
    } else if b[0] == 33 {
        if b.len() < 34 {
            Err(StoreError::Corrupt("sp_tweaks short tweak"))
        } else {
            match records_value(b.subrange(34, b.len() as int), (n - 1) as nat) {
                Ok(v) => Ok(seq![Some(b.subrange(1, 34))] + v),
                Err(e) => Err(e),
            }
        }
    } else {
        Err(StoreError::Corrupt("sp_tweaks bad len (want 0 or 33)"))
    }
}

/// Bytes of the tweaks.
pub open spec fn tweaks_view(ts: Seq<Tweak>) -> Seq<Option<Seq<u8>>> {
    ts.map_values(
        |t: Tweak|
            match t {
                None => None::<Seq<u8>>,
                Some(b) => Some(b@),
            },
    )
}

/// The tweaks of a block read back as they were written.
pub proof fn law_records_roundtrip(ts: Seq<Tweak>)
    ensures
        records_value(records_bytes(ts), ts.len()) == Ok::<Seq<Option<Seq<u8>>>, StoreError>(
            tweaks_view(ts),
        ),
    decreases ts.len(),
{
    if ts.len() > 0 {
        let t = ts.subrange(1, ts.len() as int);
        law_records_roundtrip(t);
        let b = records_bytes(ts);
        match ts[0] {
            None => {
                assert(b.subrange(1, b.len() as int) =~= records_bytes(t));
                assert(tweaks_view(ts) =~= seq![None::<Seq<u8>>] + tweaks_view(t));
            },
            Some(x) => {
                assert(b.subrange(1, 34) =~= x@);
                assert(b.subrange(34, b.len() as int) =~= records_bytes(t));
                assert(tweaks_view(ts) =~= seq![Some(x@)] + tweaks_view(t));
            },
        }
    } else {
        assert(tweaks_view(ts) =~= Seq::empty());
    }
}

proof fn lemma_records_push(ts: Seq<Tweak>, t: Tweak)
    ensures
        records_bytes(ts.push(t)) == records_bytes(ts) + record_bytes(t),
    decreases ts.len(),
{
    let all = ts.push(t);
    if ts.len() == 0 {
        let e = all.subrange(1, all.len() as int);
        assert(e.len() == 0 && all[0] == t);
        assert(records_bytes(e) =~= Seq::empty());
        assert(records_bytes(ts) =~= Seq::empty());
        assert(records_bytes(all) =~= records_bytes(ts) + record_bytes(t));
    } else {
        let tail = ts.subrange(1, ts.len() as int);
        lemma_records_push(tail, t);
        assert(all.subrange(1, all.len() as int) =~= tail.push(t));
        assert(records_bytes(all) =~= records_bytes(ts) + record_bytes(t));
    }
}

/// Tweaks with the place of their transaction in the block.
pub open spec fn eligible(v: Seq<Option<Seq<u8>>>) -> Seq<(int, Seq<u8>)>
    decreases v.len(),
{
    if v.len() == 0 {
        Seq::empty()
    } else {
        let p = eligible(v.drop_last());
        match v.last() {
            Some(b) => p.push((v.len() - 1, b)),
            None => p,
        }
    }
}

/// The eligible list holds each transaction with a tweak, and no other, once and in the order
/// of the block.
pub proof fn law_eligible(v: Seq<Option<Seq<u8>>>)
    ensures
        forall|i: int, b: Seq<u8>| #[trigger]
            eligible(v).contains((i, b)) <==> 0 <= i < v.len() && v[i] == Some(b),
        forall|a: int, b: int|
            0 <= a < b < eligible(v).len() ==> (#[trigger] eligible(v)[a]).0 < (
            #[trigger] eligible(v)[b]).0,
        forall|a: int| 0 <= a < eligible(v).len() ==> 0 <= (#[trigger] eligible(v)[a]).0 < v.len(),
    decreases v.len(),
{
    let l = eligible(v);
    if v.len() > 0 {
        let d = v.drop_last();
        let p = eligible(d);
        let n = v.len() - 1;
        law_eligible(d);
        assert forall|i: int, b: Seq<u8>| #[trigger] l.contains((i, b)) <==> 0 <= i < v.len()
            && v[i] == Some(b) by {
            assert(p.contains((i, b)) <==> 0 <= i < d.len() && d[i] == Some(b));
            if l.contains((i, b)) {
                let a = choose|a: int| 0 <= a < l.len() && l[a] == (i, b);
                if a < p.len() {
                    assert(p[a] == (i, b));
                    assert(p.contains((i, b)));
                    assert(d[i] == v[i]);
                }
            }
            if 0 <= i < v.len() && v[i] == Some(b) {
                if i < n {
                    assert(d[i] == v[i]);
                    let a = choose|a: int| 0 <= a < p.len() && p[a] == (i, b);
                    assert(l[a] == (i, b));
                } else {
                    assert(l[l.len() - 1] == (i, b));
                }
            }
        }
        assert forall|a: int| 0 <= a < l.len() implies 0 <= (#[trigger] l[a]).0 < v.len() by {
            if a < p.len() {
                assert(l[a] == p[a]);
            }
        }
        assert forall|a: int, b: int| 0 <= a < b < l.len() implies (#[trigger] l[a]).0 < (
        #[trigger] l[b]).0 by {
            assert(l[a] == p[a]);
            if b < p.len() {
                assert(l[b] == p[b]);
            }
        }
    }
}

/// `offs` cuts bytes from the front into the records of `v`: a zero byte where there is no
/// tweak, and 33 with the 33 bytes behind it where there is one.
pub open spec fn cut_records(b: Seq<u8>, v: Seq<Option<Seq<u8>>>, offs: Seq<int>) -> bool {
    &&& offs.len() == v.len() + 1
    &&& offs[0] == 0
    &&& forall|i: int|
        0 <= i < v.len() ==> {
            let o = #[trigger] offs[i];
            &&& 0 <= o < b.len()
            &&& offs[i + 1] <= b.len()
            &&& match v[i] {
                None => b[o] == 0 && offs[i + 1] == o + 1,
                Some(t) => b[o] == 33 && offs[i + 1] == o + 34 && t == b.subrange(o + 1, o + 34),
            }
        }
}

/// How a block's bytes read, by where its records lie. Bytes that are cut whole into a record
/// for each transaction give those records. Where less is cut, what stands behind the cut
/// part says what is wrong: bytes behind the last record, no byte for a record, a marker that
/// is neither 0 nor 33, or fewer than 33 bytes behind a 33.
pub proof fn law_records_read(b: Seq<u8>, n: nat, v: Seq<Option<Seq<u8>>>, offs: Seq<int>)
    requires
        cut_records(b, v, offs),
        v.len() <= n,
    ensures
        ({
            let end = offs[v.len() as int];
            &&& 0 <= end <= b.len()
            &&& v.len() == n && end == b.len() ==> records_value(b, n) == Ok::<
                Seq<Option<Seq<u8>>>,
                StoreError,
            >(v)
            &&& v.len() == n && end < b.len() ==> records_value(b, n) == Err::<
                Seq<Option<Seq<u8>>>,
                StoreError,
            >(StoreError::Corrupt("sp_tweaks n_tx/body mismatch"))
            &&& v.len() < n && end == b.len() ==> records_value(b, n) == Err::<
                Seq<Option<Seq<u8>>>,
                StoreError,
            >(StoreError::Corrupt("sp_tweaks short body"))
            &&& v.len() < n && end < b.len() && b[end] != 0 && b[end] != 33 ==> records_value(b, n)
                == Err::<Seq<Option<Seq<u8>>>, StoreError>(
                StoreError::Corrupt("sp_tweaks bad len (want 0 or 33)"),
            )
            &&& v.len() < n && end < b.len() && b[end] == 33 && b.len() - end < 34
                ==> records_value(b, n) == Err::<Seq<Option<Seq<u8>>>, StoreError>(
                StoreError::Corrupt("sp_tweaks short tweak"),
            )
        }),
    decreases v.len(),
{
    if v.len() > 0 {
        let step = offs[1];
        let c = b.subrange(step, b.len() as int);
        let w = v.subrange(1, v.len() as int);
        let o2 = Seq::new((offs.len() - 1) as nat, |i: int| offs[i + 1] - step);
        assert(offs[0] == 0);
        assert forall|i: int| 0 <= i < w.len() implies {
            let o = #[trigger] o2[i];
            &&& 0 <= o < c.len()
            &&& o2[i + 1] <= c.len()
            &&& match w[i] {
                None => c[o] == 0 && o2[i + 1] == o + 1,
                Some(t) => c[o] == 33 && o2[i + 1] == o + 34 && t == c.subrange(o + 1, o + 34),
            }
        } by {
            let p = offs[i + 1];
            assert(0 <= p < b.len());
            lemma_offs_rise(b, v, offs, i + 1);
            assert(w[i] == v[i + 1]);
            assert(o2[i + 1] == offs[i + 2] - step);
            assert(c[p - step] == b[p]);
            if v[i + 1] is Some {
                assert(c.subrange(p - step + 1, p - step + 34) =~= b.subrange(p + 1, p + 34));
            }
        }
        law_records_read(c, (n - 1) as nat, w, o2);
        let end = offs[v.len() as int];
        assert(o2[w.len() as int] == end - step);
        if end < b.len() {
            assert(c[end - step] == b[end]);
        }
        assert(seq![v[0]] + w =~= v);
        if v[0] is Some {
            assert(v[0] == Some(b.subrange(1, 34)));
        }
    } else {
        assert(v =~= Seq::empty());
    }
}

proof fn lemma_offs_rise(b: Seq<u8>, v: Seq<Option<Seq<u8>>>, offs: Seq<int>, i: int)
    requires
        cut_records(b, v, offs),
        1 <= i <= v.len(),
    ensures
        offs[1] <= offs[i],
    decreases i,
{
    if i > 1 {
        lemma_offs_rise(b, v, offs, i - 1);
        assert(offs[i - 1] >= 0);
    }
}

/// A block's bytes are those of its records one behind the other: one zero byte for a
/// transaction without a tweak, else 33 and the tweak.
pub proof fn law_records_bytes(a: Seq<Tweak>, b: Seq<Tweak>, t: [u8; 33])
    ensures
        records_bytes(a + b) == records_bytes(a) + records_bytes(b),
        records_bytes(Seq::empty()) == Seq::<u8>::empty(),
        records_bytes(seq![None]) == seq![0u8],
        records_bytes(seq![Some(t)]) == seq![33u8] + t@,
    decreases b.len(),
{
    reveal_with_fuel(records_bytes, 2);
    assert(seq![None::<[u8; 33]>].subrange(1, 1) =~= Seq::empty());
    assert(seq![Some(t)].subrange(1, 1) =~= Seq::empty());
    assert(records_bytes(seq![None]) =~= seq![0u8]);
    assert(records_bytes(seq![Some(t)]) =~= seq![33u8] + t@);
    if b.len() == 0 {
        assert(a + b =~= a);
        assert(records_bytes(a) + records_bytes(b) =~= records_bytes(a));
    } else {
        let d = b.drop_last();
        law_records_bytes(a, d, t);
        assert(a + b =~= (a + d).push(b.last()));
        assert(b =~= d.push(b.last()));
        lemma_records_push(a + d, b.last());
        lemma_records_push(d, b.last());
        assert(records_bytes(a + b) =~= records_bytes(a) + records_bytes(b));
    }
}

/// Places and bytes of the tweaks.
pub open spec fn places_view(v: Seq<(u32, [u8; 33])>) -> Seq<(int, Seq<u8>)> {
    v.map_values(|x: (u32, [u8; 33])| (x.0 as int, x.1@))
}

/// The 33 bytes at `off`.
fn tweak_at(b: &[u8], off: usize) -> (r: [u8; 33])
    requires
        off + 33 <= b@.len(),
    ensures
        r@ == b@.subrange(off as int, off + 33),
{
    let mut t: [u8; 33] = [0;33];
    let mut i: usize = 0;
    let blen: usize = b.len();
    while i < 33
        invariant
            i <= 33,
            blen == b@.len(),
            off + 33 <= b@.len(),
            forall|j: int| 0 <= j < i ==> #[trigger] t@[j] == b@[off + j],
        decreases 33 - i,
    {
        t[i] = b[off + i];
        i += 1;
    }
    proof {
        assert(t@ =~= b@.subrange(off as int, off + 33));
    }
    t
}

/// What is there of a height.
pub open spec fn found(s: Seq<SpTweaksSlot>, origin: int, height: int, block_fk: Fk) -> bool {
    origin <= height && height - origin < s.len() && s[height - origin].block_fk == block_fk
}

/// End of the tweaks of slot `i`.
pub open spec fn slot_end(s: Seq<SpTweaksSlot>, body: Seq<u8>, i: int) -> int {
    if i + 1 < s.len() {
        s[i + 1].off as int
    } else {
        16 + body.len() as int
    }
}

/// The bytes of slot `i`, or why they cannot be read.
pub open spec fn slot_bytes(s: Seq<SpTweaksSlot>, body: Seq<u8>, i: int) -> Result<
    Seq<u8>,
    StoreError,
> {
    let start = s[i].off as int;
    let end = slot_end(s, body, i);
    if end < start {
        Err(StoreError::Corrupt("sp_tweaks off order"))
    } else if start < 16 {
        Err(StoreError::Corrupt("sp_tweaks off in header"))
    } else if end > 16 + body.len() {
        Err(StoreError::Io("sp_tweaks body read past end"))
    } else {
        Ok(body.subrange(start - 16, end - 16))
    }
}

/// Tweaks of a block (`None` where the table has no such block).
pub open spec fn block_value(
    s: Seq<SpTweaksSlot>,
    body: Seq<u8>,
    origin: int,
    height: int,
    block_fk: Fk,
    n_tx: nat,
) -> Result<Option<Seq<Option<Seq<u8>>>>, StoreError> {
    if !found(s, origin, height, block_fk) {
        Ok(None)
    } else {
        match slot_bytes(s, body, height - origin) {
            Err(e) => Err(e),
            Ok(b) => match records_value(b, n_tx) {
                Err(e) => Err(e),
                Ok(v) => Ok(Some(v)),
            },
        }
    }
}

/// Table of tweaks, one slot for each height from the origin on.
pub struct SpTweaksTable {
    pub origin: u32,
    pub slots: Vec<SpTweaksSlot>,
    /// Body bytes behind the file header.
    pub body: Vec<u8>,
}

impl SpTweaksTable {
    /// Slots start one after the other within the body.
    pub open spec fn inv(&self) -> bool {
        &&& forall|i: int, j: int|
            0 <= i && j == i + 1 && j < self.slots@.len() ==> (#[trigger] self.slots@[i]).off <= (
            #[trigger] self.slots@[j]).off
        &&& forall|i: int|
            0 <= i < self.slots@.len() ==> 16 <= (#[trigger] self.slots@[i]).off <= 16
                + self.body@.len()
    }

    /// Next height that can be put.
    pub open spec fn next(&self) -> u32 {
        let n = (self.slots@.len() % 0x1_0000_0000) as int;
        if self.origin + n > u32::MAX {
            u32::MAX
        } else {
            (self.origin + n) as u32
        }
    }

    /// Tweaks of a block (`None` where the table has no such block).
    pub open spec fn block(&self, height: Height, block_fk: Fk, n_tx: u32) -> Result<
        Option<Seq<Option<Seq<u8>>>>,
        StoreError,
    > {
        block_value(
            self.slots@,
            self.body@,
            self.origin as int,
            height.0 as int,
            block_fk,
            n_tx as nat,
        )
    }

    /// An empty table.
    pub fn create(origin: Height) -> (r: Self)
        ensures
            r.inv(),
            r.origin == origin.0,
            r.slots@.len() == 0,
            r.body@.len() == 0,
    {
        SpTweaksTable { origin: origin.0, slots: Vec::new(), body: Vec::new() }
    }

    /// Reads the two files.
    pub fn open(idx: &[u8], body: &[u8]) -> (r: Result<Self, StoreError>)
        ensures
            match r {
                Ok(t) => {
                    &&& idx@.len() >= 24
                    &&& (idx@.len() - 24) % 12 == 0
                    &&& body@.len() >= 16
                    &&& t.origin == u32_at(idx@, 16)
                    &&& t.slots@.len() == (idx@.len() - 24) / 12
                    &&& forall|i: int|
                        0 <= i < t.slots@.len() ==> (#[trigger] t.slots@[i]) == slot_at(idx@, i)
                    &&& t.body@ == body@.subrange(16, body@.len() as int)
                },
                Err(e) => if body@.len() < 16 {
                    e == StoreError::Corrupt("sp_tweaks.body missing header")
                } else if idx@.len() < 24 {
                    e == StoreError::Corrupt("sp_tweaks.idx missing origin")
                } else {
                    (idx@.len() - 24) % 12 != 0 && e == StoreError::Corrupt("sp_tweaks.idx size")
                },
            },
    {
        if body.len() < FILE_HEADER_LEN {
            return Err(StoreError::Corrupt("sp_tweaks.body missing header"));
        }
        if idx.len() < IDX_PREFIX {
            return Err(StoreError::Corrupt("sp_tweaks.idx missing origin"));
        }
        let origin: u32 = get_u32(idx, 16);
        let extra: usize = idx.len() - IDX_PREFIX;
        if extra % SLOT != 0 {
            return Err(StoreError::Corrupt("sp_tweaks.idx size"));
        }
        let n: usize = extra / SLOT;
        let mut slots: Vec<SpTweaksSlot> = Vec::new();
        let mut i: usize = 0;
        let ilen: usize = idx.len();
        while i < n
            invariant
                i <= n,
                ilen == idx@.len(),
                idx@.len() == 24 + 12 * n,
                extra == 12 * n,
                slots@.len() == i,
                forall|j: int| 0 <= j < i ==> (#[trigger] slots@[j]) == slot_at(idx@, j),
            decreases n - i,
        {
            let o: usize = IDX_PREFIX + i * SLOT;
            slots.push(SpTweaksSlot { block_fk: Fk(get_u64(idx, o)), off: get_u32(idx, o + 8) });
            i += 1;
        }
        Ok(SpTweaksTable { origin, slots, body: copy_range(body, FILE_HEADER_LEN, body.len()) })
    }

    /// Opens the files, or makes a new table where one of them is missing.
    pub fn open_or_create(idx: Option<&[u8]>, body: Option<&[u8]>, origin: Height) -> (r: Result<
        Self,
        StoreError,
    >)
        ensures
            match (idx, body) {
                (Some(i), Some(b)) => match r {
                    Ok(t) => {
                        &&& i@.len() >= 24
                        &&& (i@.len() - 24) % 12 == 0
                        &&& b@.len() >= 16
                        &&& t.origin == u32_at(i@, 16)
                        &&& t.origin == origin.0
                        &&& t.slots@.len() == (i@.len() - 24) / 12
                        &&& forall|k: int|
                            0 <= k < t.slots@.len() ==> (#[trigger] t.slots@[k]) == slot_at(i@, k)
                        &&& t.body@ == b@.subrange(16, b@.len() as int)
                    },
                    Err(e) => if b@.len() < 16 {
                        e == StoreError::Corrupt("sp_tweaks.body missing header")
                    } else if i@.len() < 24 {
                        e == StoreError::Corrupt("sp_tweaks.idx missing origin")
                    } else if (i@.len() - 24) % 12 != 0 {
                        e == StoreError::Corrupt("sp_tweaks.idx size")
                    } else {
                        u32_at(i@, 16) != origin.0 && e == StoreError::Corrupt(
                            "sp_tweaks origin mismatch",
                        )
                    },
                },
                _ => {
                    &&& r is Ok
                    &&& r->Ok_0.inv()
                    &&& r->Ok_0.origin == origin.0
                    &&& r->Ok_0.slots@.len() == 0
                    &&& r->Ok_0.body@.len() == 0
                },
            },
    {
        match (idx, body) {
            (Some(i), Some(b)) => {
                let t = Self::open(i, b)?;
                if t.origin != origin.0 {
                    return Err(StoreError::Corrupt("sp_tweaks origin mismatch"));
                }
                Ok(t)
            },
            _ => Ok(Self::create(origin)),
        }
    }

    pub fn origin_height(&self) -> (r: Height)
        ensures
            r == Height(self.origin),
    {
        Height(self.origin)
    }

    pub fn slot_count(&self) -> (r: u64)
        ensures
            r == self.slots@.len(),
    {
        self.slots.len() as u64
    }

    /// Next height that can be put (the origin, when the table is empty).
    pub fn next_height(&self) -> (r: Height)
        ensures
            r == Height(self.next()),
    {
        let n: u64 = self.slots.len() as u64 % 0x1_0000_0000;
        let h: u64 = self.origin as u64 + n;
        if h > 0xffff_ffff {
            Height(0xffff_ffff)
        } else {
            Height(h as u32)
        }
    }

    /// Length of the body file.
    pub fn body_logical_len(&self) -> (r: u64)
        requires
            self.body@.len() <= u64::MAX - 16,
        ensures
            r == 16 + self.body@.len(),
    {
        16 + self.body.len() as u64
    }

    /// Body bytes of a block: `0` for no tweak, or 33 and the tweak.
    pub fn encode_records(records: &[Tweak]) -> (r: Vec<u8>)
        ensures
            r@ == records_bytes(records@),
    {
        let mut out: Vec<u8> = Vec::new();
        let mut i: usize = 0;
        proof {
            assert(records@.subrange(0, 0) =~= Seq::empty());
        }
        while i < records.len()
            invariant
                i <= records@.len(),
                out@ == records_bytes(records@.subrange(0, i as int)),
            decreases records@.len() - i,
        {
            let ghost before = out@;
            match &records[i] {
                None => {
                    out.push(0);
                },
                Some(t) => {
                    out.push(TWEAK_LEN);
                    push_slice(&mut out, t.as_slice());
                },
            }
            proof {
                let p = records@.subrange(0, i as int);
                assert(records@.subrange(0, i + 1) =~= p.push(records@[i as int]));
                lemma_records_push(p, records@[i as int]);
                assert(out@ =~= before + record_bytes(records@[i as int]));
            }
            i += 1;
        }
        proof {
            assert(records@.subrange(0, i as int) =~= records@);
        }
        out
    }

    /// Reads the tweaks of a block.
    pub fn decode_records(bytes: &[u8], n_tx: u32) -> (r: Result<Vec<Tweak>, StoreError>)
        ensures
            match r {
                Ok(v) => records_value(bytes@, n_tx as nat) == Ok::<
                    Seq<Option<Seq<u8>>>,
                    StoreError,
                >(tweaks_view(v@)),
                Err(e) => records_value(bytes@, n_tx as nat) == Err::<
                    Seq<Option<Seq<u8>>>,
                    StoreError,
                >(e),
            },
    {
        let mut recs: Vec<Tweak> = Vec::new();
        let mut i: usize = 0;
        let mut k: u32 = 0;
        let blen: usize = bytes.len();
        proof {
            assert(bytes@.subrange(0, blen as int) =~= bytes@);
            lemma_prepend_none(Seq::empty(), records_value(bytes@, n_tx as nat));
            assert(tweaks_view(recs@) =~= Seq::empty());
        }
        while k < n_tx
            invariant
                i <= blen,
                blen == bytes@.len(),
                k <= n_tx,
                records_value(bytes@, n_tx as nat) == prepend(
                    tweaks_view(recs@),
                    records_value(bytes@.subrange(i as int, blen as int), (n_tx - k) as nat),
                ),
            decreases n_tx - k,
        {
            let ghost rest = bytes@.subrange(i as int, blen as int);
            if i >= blen {
                return Err(StoreError::Corrupt("sp_tweaks short body"));
            }
            let len: u8 = bytes[i];
            let ghost before = tweaks_view(recs@);
            assert(rest[0] == len);
            if len == 0 {
                recs.push(None);
                i += 1;
                proof {
                    assert(rest.subrange(1, rest.len() as int) =~= bytes@.subrange(
                        i as int,
                        blen as int,
                    ));
                    assert(tweaks_view(recs@) =~= before.push(None));
                    lemma_prepend_step(
                        before,
                        None,
                        records_value(
                            bytes@.subrange(i as int, blen as int),
                            (n_tx - k - 1) as nat,
                        ),
                    );
                }
            } else if len == TWEAK_LEN {
                if blen - i < 34 {
                    return Err(StoreError::Corrupt("sp_tweaks short tweak"));
                }
                let t: [u8; 33] = tweak_at(bytes, i + 1);
                recs.push(Some(t));
                i += 34;
                proof {
                    assert(rest.subrange(1, 34) =~= t@);
                    assert(rest.subrange(34, rest.len() as int) =~= bytes@.subrange(
                        i as int,
                        blen as int,
                    ));
                    assert(tweaks_view(recs@) =~= before.push(Some(t@)));
                    lemma_prepend_step(
                        before,
                        Some(t@),
                        records_value(
                            bytes@.subrange(i as int, blen as int),
                            (n_tx - k - 1) as nat,
                        ),
                    );
                }
            } else {
                return Err(StoreError::Corrupt("sp_tweaks bad len (want 0 or 33)"));
            }
            k += 1;
        }
        if i != blen {
            return Err(StoreError::Corrupt("sp_tweaks n_tx/body mismatch"));
        }
        proof {
            assert(tweaks_view(recs@) + Seq::<Option<Seq<u8>>>::empty() =~= tweaks_view(recs@));
        }
        Ok(recs)
    }

    /// Reads the tweaks of a block with the places of their transactions.
    pub fn decode_eligible(bytes: &[u8], n_tx: u32) -> (r: Result<
        Vec<(u32, [u8; 33])>,
        StoreError,
    >)
        ensures
            match r {
                Ok(v) => records_value(bytes@, n_tx as nat) is Ok && places_view(v@) == eligible(
                    records_value(bytes@, n_tx as nat)->Ok_0,
                ),
                Err(e) => records_value(bytes@, n_tx as nat) == Err::<
                    Seq<Option<Seq<u8>>>,
                    StoreError,
                >(e),
            },
    {
        let recs = Self::decode_records(bytes, n_tx)?;
        proof {
            lemma_records_len(bytes@, n_tx as nat);
        }
        Ok(pick_eligible(&recs))
    }
}

/// Results behind what was read before.
spec fn prepend(
    a: Seq<Option<Seq<u8>>>,
    r: Result<Seq<Option<Seq<u8>>>, StoreError>,
) -> Result<Seq<Option<Seq<u8>>>, StoreError> {
    match r {
        Ok(v) => Ok(a + v),
        Err(e) => Err(e),
    }
}

proof fn lemma_prepend_none(
    a: Seq<Option<Seq<u8>>>,
    r: Result<Seq<Option<Seq<u8>>>, StoreError>,
)
    requires
        a.len() == 0,
    ensures
        prepend(a, r) == r,
{
    if let Ok(v) = r {
        assert(a + v =~= v);
    }
}

proof fn lemma_prepend_step(
    a: Seq<Option<Seq<u8>>>,
    x: Option<Seq<u8>>,
    r: Result<Seq<Option<Seq<u8>>>, StoreError>,
)
    ensures
        prepend(a.push(x), r) == (match r {
            Ok(v) => Ok(a + (seq![x] + v)),
            Err(e) => Err(e),
        }),
{
    if let Ok(v) = r {
        assert(a.push(x) + v =~= a + (seq![x] + v));
    }
}

proof fn lemma_records_len(b: Seq<u8>, n: nat)
    ensures
        records_value(b, n) is Ok ==> records_value(b, n)->Ok_0.len() == n,
    decreases n,
{
    if n > 0 && b.len() > 0 {
        if b[0] == 0 {
            lemma_records_len(b.subrange(1, b.len() as int), (n - 1) as nat);
        } else if b[0] == 33 && b.len() >= 34 {
            lemma_records_len(b.subrange(34, b.len() as int), (n - 1) as nat);
        }
    }
}

/// The tweaks with the places of their transactions.
pub fn pick_eligible(recs: &Vec<Tweak>) -> (r: Vec<(u32, [u8; 33])>)
    requires
        recs@.len() <= u32::MAX,
    ensures
        places_view(r@) == eligible(tweaks_view(recs@)),
        forall|i: int, t: [u8; 33]|
            0 <= i < recs@.len() ==> (recs@[i] == Some(t) ==> #[trigger] r@.contains(
                (i as u32, t),
            )),
        forall|a: int|
            0 <= a < r@.len() ==> (#[trigger] r@[a]).0 < recs@.len() && recs@[r@[a].0 as int]
                == Some(r@[a].1),
        forall|a: int, b: int|
            0 <= a < b < r@.len() ==> (#[trigger] r@[a]).0 < (#[trigger] r@[b]).0,
{
    let mut out: Vec<(u32, [u8; 33])> = Vec::new();
    let mut i: usize = 0;
    let ghost all = tweaks_view(recs@);
    proof {
        assert(all.subrange(0, 0) =~= Seq::empty());
        assert(places_view(out@) =~= Seq::empty());
    }
    while i < recs.len()
        invariant
            i <= recs@.len(),
            recs@.len() <= u32::MAX,
            all == tweaks_view(recs@),
            places_view(out@) == eligible(all.subrange(0, i as int)),
            forall|j: int, t: [u8; 33]|
                0 <= j < i ==> (recs@[j] == Some(t) ==> #[trigger] out@.contains((j as u32, t))),
            forall|a: int|
                0 <= a < out@.len() ==> (#[trigger] out@[a]).0 < i && recs@[out@[a].0 as int]
                    == Some(out@[a].1),
            forall|a: int, b: int|
                0 <= a < b < out@.len() ==> (#[trigger] out@[a]).0 < (#[trigger] out@[b]).0,
        decreases recs@.len() - i,
    {
        let ghost before = out@;
        proof {
            let p = all.subrange(0, i + 1);
            assert(p.drop_last() =~= all.subrange(0, i as int));
            assert(p.last() == all[i as int]);
        }
        if let Some(t) = &recs[i] {
            out.push((i as u32, *t));
            proof {
                assert(places_view(out@) =~= places_view(before).push((i as int, t@)));
                assert forall|j: int, x: [u8; 33]|
                    0 <= j < i + 1 && recs@[j] == Some(x) implies #[trigger] out@.contains(
                    (j as u32, x),
                ) by {
                    if j < i {
                        assert(before.contains((j as u32, x)));
                        let a = choose|a: int|
                            0 <= a < before.len() && before[a] == (j as u32, x);
                        assert(out@[a] == (j as u32, x));
                    } else {
                        assert(out@[out@.len() - 1] == (j as u32, x));
                    }
                }
            }
        }
        i += 1;
    }
    proof {
        assert(all.subrange(0, i as int) =~= all);
    }
    out
}

/// Slot `i` of an index file.
pub open spec fn slot_at(idx: Seq<u8>, i: int) -> SpTweaksSlot {
    SpTweaksSlot { block_fk: Fk(u64_at(idx, 24 + 12 * i)), off: u32_at(idx, 24 + 12 * i + 8) }
}

/// Body length after all but `keep` slots were dropped.
pub open spec fn kept_body(s: Seq<SpTweaksSlot>, body: Seq<u8>, keep: int) -> int {
    if keep == 0 || s[keep].off < 16 {
        0
    } else if s[keep].off - 16 > body.len() {
        body.len() as int
    } else {
        s[keep].off - 16
    }
}

/// Slots up to a height.
pub open spec fn keep_count(origin: int, tip: Option<Height>) -> int {
    match tip {
        None => 0,
        Some(h) => if h.0 < origin {
            0
        } else {
            h.0 - origin + 1
        },
    }
}

/// The table without the slots behind the first `keep`.
pub open spec fn cut(old_t: SpTweaksTable, new_t: SpTweaksTable, keep: int) -> bool {
    &&& new_t.origin == old_t.origin
    &&& if keep >= old_t.slots@.len() {
        new_t.slots@ == old_t.slots@ && new_t.body@ == old_t.body@
    } else {
        &&& new_t.slots@ == old_t.slots@.subrange(0, keep)
        &&& new_t.body@ == old_t.body@.subrange(0, kept_body(old_t.slots@, old_t.body@, keep))
    }
}

/// The table with one more block.
pub open spec fn with_block(
    old_t: SpTweaksTable,
    new_t: SpTweaksTable,
    block_fk: Fk,
    ts: Seq<Tweak>,
) -> bool {
    &&& new_t.origin == old_t.origin
    &&& new_t.slots@ == old_t.slots@.push(
        SpTweaksSlot { block_fk, off: (16 + old_t.body@.len()) as u32 },
    )
    &&& new_t.body@ == old_t.body@ + records_bytes(ts)
}

impl SpTweaksTable {
    /// Appends the next height.
    pub fn put_block(&mut self, height: Height, block_fk: Fk, records: &[Tweak]) -> (r: Result<
        (),
        StoreError,
    >)
        ensures
            old(self).inv() ==> final(self).inv(),
            match r {
                Ok(_) => {
                    &&& block_fk.0 != 0
                    &&& height.0 >= old(self).origin
                    &&& height.0 == old(self).next()
                    &&& 16 + old(self).body@.len() <= u32::MAX
                    &&& with_block(*old(self), *final(self), block_fk, records@)
                },
                Err(e) => {
                    &&& *final(self) == *old(self)
                    &&& if block_fk.0 == 0 {
                        e == StoreError::InvalidFk
                    } else if height.0 < old(self).origin {
                        e == StoreError::Corrupt("sp_tweaks put below origin")
                    } else if height.0 != old(self).next() {
                        e == StoreError::Corrupt("sp_tweaks put not next height")
                    } else {
                        16 + old(self).body@.len() > u32::MAX && e == StoreError::Corrupt(
                            "sp_tweaks body exceeds u32 off",
                        )
                    }
                },
            },
    {
        if block_fk.is_null() {
            return Err(StoreError::InvalidFk);
        }
        if height.0 < self.origin {
            return Err(StoreError::Corrupt("sp_tweaks put below origin"));
        }
        if height.0 != self.next_height().0 {
            return Err(StoreError::Corrupt("sp_tweaks put not next height"));
        }
        if self.body.len() as u64 > 0xffff_ffff - 16 {
            return Err(StoreError::Corrupt("sp_tweaks body exceeds u32 off"));
        }
        let off: u32 = 16 + self.body.len() as u32;
        let encoded = Self::encode_records(records);
        push_slice(&mut self.body, encoded.as_slice());
        let ghost s0 = self.slots@;
        self.slots.push(SpTweaksSlot { block_fk, off });
        proof {
            if old(self).inv() {
                assert forall|i: int, j: int|
                    0 <= i && j == i + 1 && j < self.slots@.len() implies (
                #[trigger] self.slots@[i]).off <= (#[trigger] self.slots@[j]).off by {
                    assert(s0[i] == self.slots@[i]);
                    if j < s0.len() {
                        assert(s0[j] == self.slots@[j]);
                    }
                }
            }
        }
        Ok(())
    }

    /// Body bytes of a slot.
    fn read_run(&self, i: usize) -> (r: Result<Vec<u8>, StoreError>)
        requires
            i < self.slots@.len(),
        ensures
            match r {
                Ok(b) => slot_bytes(self.slots@, self.body@, i as int) == Ok::<
                    Seq<u8>,
                    StoreError,
                >(b@),
                Err(e) => slot_bytes(self.slots@, self.body@, i as int) == Err::<
                    Seq<u8>,
                    StoreError,
                >(e),
            },
    {
        let start: u64 = self.slots[i].off as u64;
        let last = i == self.slots.len() - 1;
        let len: usize = self.body.len();
        if !last {
            let end: u64 = self.slots[i + 1].off as u64;
            if end < start {
                return Err(StoreError::Corrupt("sp_tweaks off order"));
            }
            if start < 16 {
                return Err(StoreError::Corrupt("sp_tweaks off in header"));
            }
            if end - 16 > len as u64 {
                return Err(StoreError::Io("sp_tweaks body read past end"));
            }
            return Ok(
                copy_range(self.body.as_slice(), (start - 16) as usize, (end - 16) as usize),
            );
        }
        if start >= 16 && start - 16 > len as u64 {
            return Err(StoreError::Corrupt("sp_tweaks off order"));
        }
        if start < 16 {
            return Err(StoreError::Corrupt("sp_tweaks off in header"));
        }
        Ok(copy_range(self.body.as_slice(), (start - 16) as usize, len))
    }

    /// Tweaks of a block.
    ///
    /// `None` where the table has no slot of that height, or the slot is of another
    /// block; a block without tweaks gives `None` for each transaction.
    pub fn get_block(&self, height: Height, block_fk: Fk, n_tx: u32) -> (r: Result<
        Option<Vec<Tweak>>,
        StoreError,
    >)
        ensures
            match r {
                Ok(None) => self.block(height, block_fk, n_tx) == Ok::<
                    Option<Seq<Option<Seq<u8>>>>,
                    StoreError,
                >(None),
                Ok(Some(v)) => self.block(height, block_fk, n_tx) == Ok::<
                    Option<Seq<Option<Seq<u8>>>>,
                    StoreError,
                >(Some(tweaks_view(v@))),
                Err(e) => self.block(height, block_fk, n_tx) == Err::<
                    Option<Seq<Option<Seq<u8>>>>,
                    StoreError,
                >(e),
            },
    {
        if height.0 < self.origin {
            return Ok(None);
        }
        let i: u32 = height.0 - self.origin;
        if i as u64 >= self.slots.len() as u64 {
            return Ok(None);
        }
        if self.slots[i as usize].block_fk.0 != block_fk.0 {
            return Ok(None);
        }
        let buf = self.read_run(i as usize)?;
        let recs = Self::decode_records(buf.as_slice(), n_tx)?;
        Ok(Some(recs))
    }

    /// Tweaks of a block with the places of their transactions (`None` where the
    /// table has no such block).
    pub fn get_eligible(&self, height: Height, block_fk: Fk, n_tx: u32) -> (r: Result<
        Option<Vec<(u32, [u8; 33])>>,
        StoreError,
    >)
        ensures
            match r {
                Ok(None) => self.block(height, block_fk, n_tx) == Ok::<
                    Option<Seq<Option<Seq<u8>>>>,
                    StoreError,
                >(None),
                Ok(Some(v)) => {
                    &&& self.block(height, block_fk, n_tx) is Ok
                    &&& self.block(height, block_fk, n_tx)->Ok_0 is Some
                    &&& places_view(v@) == eligible(self.block(height, block_fk, n_tx)->Ok_0->0)
                    &&& self.block(height, block_fk, n_tx)->Ok_0->0.len() == n_tx
                    &&& forall|i: int, t: Seq<u8>| #[trigger]
                        places_view(v@).contains((i, t)) <==> 0 <= i < n_tx && self.block(
                            height,
                            block_fk,
                            n_tx,
                        )->Ok_0->0[i] == Some(t)
                    &&& forall|a: int, b: int|
                        0 <= a < b < v@.len() ==> (#[trigger] v@[a]).0 < (#[trigger] v@[b]).0
                },
                Err(e) => self.block(height, block_fk, n_tx) == Err::<
                    Option<Seq<Option<Seq<u8>>>>,
                    StoreError,
                >(e),
            },
    {
        if height.0 < self.origin {
            return Ok(None);
        }
        let i: u32 = height.0 - self.origin;
        if i as u64 >= self.slots.len() as u64 {
            return Ok(None);
        }
        if self.slots[i as usize].block_fk.0 != block_fk.0 {
            return Ok(None);
        }
        let buf = self.read_run(i as usize)?;
        let v = Self::decode_eligible(buf.as_slice(), n_tx)?;
        proof {
            let all = self.block(height, block_fk, n_tx)->Ok_0->0;
            lemma_records_len(buf@, n_tx as nat);
            law_eligible(all);
            assert forall|a: int, b: int| 0 <= a < b < v@.len() implies (#[trigger] v@[a]).0 < (
            #[trigger] v@[b]).0 by {
                assert(places_view(v@)[a].0 == v@[a].0 && places_view(v@)[b].0 == v@[b].0);
                assert(eligible(all)[a].0 < eligible(all)[b].0);
            }
        }
        Ok(Some(v))
    }

    /// Drops the heights above `new_tip`.
    pub fn truncate_above(&mut self, new_tip: Height)
        ensures
            cut(*old(self), *final(self), keep_count(old(self).origin as int, Some(new_tip))),
            old(self).inv() ==> final(self).inv(),
    {
        let keep: u64 = if new_tip.0 < self.origin {
            0
        } else {
            (new_tip.0 - self.origin) as u64 + 1
        };
        self.truncate_keep_slots(keep)
    }

    /// Drops the heights above the tip, or all without a tip.
    pub fn truncate_through_tip(&mut self, tip: Option<Height>)
        ensures
            cut(*old(self), *final(self), keep_count(old(self).origin as int, tip)),
            old(self).inv() ==> final(self).inv(),
    {
        match tip {
            None => self.truncate_keep_slots(0),
            Some(h) => self.truncate_above(h),
        }
    }

    fn truncate_keep_slots(&mut self, keep: u64)
        ensures
            cut(*old(self), *final(self), keep as int),
            old(self).inv() ==> final(self).inv(),
    {
        if keep >= self.slots.len() as u64 {
            return;
        }
        let k: usize = keep as usize;
        let len: usize = self.body.len();
        let off: u32 = self.slots[k].off;
        let new_len: usize = if k == 0 || off < 16 {
            0
        } else if (off - 16) as u64 > len as u64 {
            len
        } else {
            (off - 16) as usize
        };
        let ghost s0 = self.slots@;
        let ghost b0 = self.body@;
        self.slots.truncate(k);
        self.body.truncate(new_len);
        proof {
            assert(self.slots@ =~= s0.subrange(0, k as int));
            assert(self.body@ =~= b0.subrange(0, new_len as int));
            if old(self).inv() {
                assert forall|i: int| 0 <= i < self.slots@.len() implies 16 <= (
                #[trigger] self.slots@[i]).off <= 16 + self.body@.len() by {
                    assert(s0[i] == self.slots@[i]);
                    lemma_offs(s0, b0, i, k as int);
                }
                assert forall|i: int, j: int|
                    0 <= i && j == i + 1 && j < self.slots@.len() implies (
                #[trigger] self.slots@[i]).off <= (#[trigger] self.slots@[j]).off by {
                    assert(s0[i] == self.slots@[i]);
                    assert(s0[j] == self.slots@[j]);
                }
            }
        }
    }

    /// Contents of the index file behind its header.
    pub fn idx_bytes(&self) -> (r: Vec<u8>)
        ensures
            r@ == idx_image(self.origin, self.slots@),
    {
        let mut out: Vec<u8> = Vec::new();
        push_u32(&mut out, self.origin);
        push_u32(&mut out, 0);
        let mut i: usize = 0;
        proof {
            assert(self.slots@.subrange(0, 0) =~= Seq::empty());
            assert(out@ =~= idx_image(self.origin, self.slots@.subrange(0, 0)));
        }
        while i < self.slots.len()
            invariant
                i <= self.slots@.len(),
                out@ == idx_image(self.origin, self.slots@.subrange(0, i as int)),
            decreases self.slots@.len() - i,
        {
            let s: SpTweaksSlot = self.slots[i];
            let ghost before = out@;
            push_u64(&mut out, s.block_fk.0);
            push_u32(&mut out, s.off);
            proof {
                let p = self.slots@.subrange(0, i + 1);
                assert(p.drop_last() =~= self.slots@.subrange(0, i as int));
                assert(p.last() == s);
                assert(out@ =~= idx_image(self.origin, p));
            }
            i += 1;
        }
        proof {
            assert(self.slots@.subrange(0, i as int) =~= self.slots@);
        }
        out
    }
}

proof fn lemma_offs(s: Seq<SpTweaksSlot>, b: Seq<u8>, i: int, k: int)
    requires
        forall|i: int, j: int|
            0 <= i && j == i + 1 && j < s.len() ==> (#[trigger] s[i]).off <= (
            #[trigger] s[j]).off,
        0 <= i <= k < s.len(),
    ensures
        s[i].off <= s[k].off,
    decreases k - i,
{
    if i < k {
        lemma_offs(s, b, i, k - 1);
        assert(s[k - 1].off <= s[k].off);
    }
}

/// Slots of an index file.
pub open spec fn slots_image(s: Seq<SpTweaksSlot>) -> Seq<u8>
    decreases s.len(),
{
    if s.len() == 0 {
        Seq::empty()
    } else {
        slots_image(s.drop_last()) + (le64(s.last().block_fk.0) + le32(s.last().off))
    }
}

/// Contents of an index file behind its header.
pub open spec fn idx_image(origin: u32, s: Seq<SpTweaksSlot>) -> Seq<u8> {
    le32(origin) + le32(0) + slots_image(s)
}

proof fn lemma_slots_image(head: Seq<u8>, s: Seq<SpTweaksSlot>, tail: Seq<u8>)
    requires
        head.len() == 24,
    ensures
        slots_image(s).len() == 12 * s.len(),
        forall|i: int|
            0 <= i < s.len() ==> #[trigger] slot_at(head + slots_image(s) + tail, i) == s[i],
    decreases s.len(),
{
    if s.len() > 0 {
        let d = s.last();
        let p = s.drop_last();
        let x = le64(d.block_fk.0) + le32(d.off);
        lemma_p256_values();
        lemma_le_nat_of_seq(d.block_fk.0 as nat, 8);
        lemma_le_nat_of_seq(d.off as nat, 4);
        lemma_slots_image(head, p, x + tail);
        let b = head + slots_image(s) + tail;
        assert(b =~= head + slots_image(p) + (x + tail));
        let o = 24 + 12 * (s.len() - 1);
        assert(b.subrange(o, o + 8) =~= le64(d.block_fk.0));
        assert(b.subrange(o + 8, o + 12) =~= le32(d.off));
        assert forall|i: int| 0 <= i < s.len() implies #[trigger] slot_at(b, i) == s[i] by {
            if i < p.len() {
                assert(p[i] == s[i]);
            }
        }
    }
}

/// A table opens again with the origin and the slots that it was written with.
pub proof fn law_idx_roundtrip(header: Seq<u8>, origin: u32, s: Seq<SpTweaksSlot>)
    requires
        header.len() == 16,
    ensures
        ({
            let idx = header + idx_image(origin, s);
            &&& idx.len() == 24 + 12 * s.len()
            &&& u32_at(idx, 16) == origin
            &&& forall|i: int| 0 <= i < s.len() ==> #[trigger] slot_at(idx, i) == s[i]
        }),
{
    lemma_p256_values();
    lemma_le_nat_of_seq(origin as nat, 4);
    lemma_le_nat_of_seq(0, 4);
    let head = header + (le32(origin) + le32(0));
    lemma_slots_image(head, s, Seq::empty());
    let idx = header + idx_image(origin, s);
    assert(idx =~= head + slots_image(s) + Seq::empty());
    assert(idx.subrange(16, 20) =~= le32(origin));
}

/// What was put is what is read, and the blocks before it stay as they were.
pub proof fn law_put_then_get(
    old_t: SpTweaksTable,
    new_t: SpTweaksTable,
    block_fk: Fk,
    ts: Seq<Tweak>,
    h: Height,
    fk: Fk,
    n_tx: u32,
)
    requires
        old_t.inv(),
        with_block(old_t, new_t, block_fk, ts),
        16 + old_t.body@.len() <= u32::MAX,
        old_t.origin + old_t.slots@.len() <= u32::MAX,
    ensures
        h.0 == old_t.next() && fk == block_fk && n_tx == ts.len() ==> new_t.block(h, fk, n_tx)
            == Ok::<Option<Seq<Option<Seq<u8>>>>, StoreError>(Some(tweaks_view(ts))),
        h.0 != old_t.next() ==> new_t.block(h, fk, n_tx) == old_t.block(h, fk, n_tx),
{
    let s0 = old_t.slots@;
    let s1 = new_t.slots@;
    let n = s0.len() as int;
    law_records_roundtrip(ts);
    assert(s1[n] == s1.last());
    assert(new_t.body@.subrange(s1[n].off - 16, new_t.body@.len() as int) =~= records_bytes(ts));
    if h.0 >= old_t.origin && h.0 - old_t.origin < n {
        let i = h.0 - old_t.origin;
        assert(s1[i] == s0[i]);
        let e0 = slot_end(s0, old_t.body@, i);
        let e1 = slot_end(s1, new_t.body@, i);
        if i + 1 < n {
            assert(s1[i + 1] == s0[i + 1]);
        }
        assert(e0 == e1);
        assert(new_t.body@.subrange(s0[i].off - 16, e0 - 16) =~= old_t.body@.subrange(
            s0[i].off - 16,
            e0 - 16,
        ));
    }
}

/// After a cut the heights up to the tip read as before, and those above it are
/// holes.
pub proof fn law_cut_then_get(
    old_t: SpTweaksTable,
    new_t: SpTweaksTable,
    tip: Option<Height>,
    h: Height,
    fk: Fk,
    n_tx: u32,
)
    requires
        old_t.inv(),
        cut(old_t, new_t, keep_count(old_t.origin as int, tip)),
    ensures
        tip is Some && h.0 <= (tip->0).0 ==> new_t.block(h, fk, n_tx) == old_t.block(h, fk, n_tx),
        tip is None || h.0 > (tip->0).0 ==> new_t.block(h, fk, n_tx) == Ok::<
            Option<Seq<Option<Seq<u8>>>>,
            StoreError,
        >(None),
{
    let keep = keep_count(old_t.origin as int, tip);
    let s0 = old_t.slots@;
    let s1 = new_t.slots@;
    if keep < s0.len() && h.0 >= old_t.origin && h.0 - old_t.origin < keep {
        let i = h.0 - old_t.origin;
        assert(s1[i] == s0[i]);
        lemma_offs(s0, old_t.body@, i, keep);
        if i + 1 < keep {
            assert(s1[i + 1] == s0[i + 1]);
            lemma_offs(s0, old_t.body@, i + 1, keep);
            lemma_offs(s0, old_t.body@, i, i + 1);
        }
        let e0 = slot_end(s0, old_t.body@, i);
        assert(slot_end(s1, new_t.body@, i) == e0);
        assert(new_t.body@.subrange(s0[i].off - 16, e0 - 16) =~= old_t.body@.subrange(
            s0[i].off - 16,
            e0 - 16,
        ));
    }
}

} // verus!
