//! Sealed heads: key-ordered records whose values can change but not their keys.

use vstd::prelude::*;
use crate::scripthash_layout::ShHeadKey;
use crate::slot_table::Slot;
use crate::sorting::{be_nat, bytes_order, lemma_be_injective, sorted_by_rank, Cmp3, Ranked};

verus! {

/// Keys rise strictly.
pub open spec fn keys_rise(recs: Seq<Slot>) -> bool {
    forall|i: int, j: int|
        0 <= i < j < recs.len() ==> (#[trigger] recs[i]).rank() < (#[trigger] recs[j]).rank()
}

/// The word stored for `k`.
pub open spec fn sealed_word(recs: Seq<Slot>, k: Seq<u8>) -> Option<u64>
    decreases recs.len(),
{
    if recs.len() == 0 {
        None
    } else if recs.last().key@ == k {
        Some(recs.last().word)
    } else {
        sealed_word(recs.drop_last(), k)
    }
}

/// A record answers for its key.
pub proof fn lemma_sealed_at(recs: Seq<Slot>, i: int)
    requires
        keys_rise(recs),
        0 <= i < recs.len(),
    ensures
        sealed_word(recs, recs[i].key@) == Some(recs[i].word),
    decreases recs.len(),
{
    if i < recs.len() - 1 {
        assert(recs[i].rank() < recs[recs.len() - 1].rank());
        let d = recs.drop_last();
        assert(d[i] == recs[i]);
        assert forall|a: int, b: int| 0 <= a < b < d.len() implies (#[trigger] d[a]).rank() < (
        #[trigger] d[b]).rank() by {
            assert(recs[a].rank() < recs[b].rank());
        }
        lemma_sealed_at(d, i);
    }
}

/// A key that answers has a record.
pub proof fn lemma_sealed_has(recs: Seq<Slot>, k: Seq<u8>) -> (i: int)
    requires
        sealed_word(recs, k) is Some,
    ensures
        0 <= i < recs.len(),
        recs[i].key@ == k,
        recs[i].word == sealed_word(recs, k)->0,
    decreases recs.len(),
{
    if recs.last().key@ == k {
        recs.len() - 1
    } else {
        lemma_sealed_has(recs.drop_last(), k)
    }
}

/// Changing one word changes the answer for its key only.
proof fn lemma_sealed_update(recs: Seq<Slot>, i: int, s: Slot)
    requires
        keys_rise(recs),
        0 <= i < recs.len(),
        s.key@ == recs[i].key@,
    ensures
        keys_rise(recs.update(i, s)),
        sealed_word(recs.update(i, s), s.key@) == Some(s.word),
        forall|k: Seq<u8>|
            k != s.key@ ==> #[trigger] sealed_word(recs.update(i, s), k) == sealed_word(recs, k),
{
    let t = recs.update(i, s);
    assert forall|a: int, b: int| 0 <= a < b < t.len() implies (#[trigger] t[a]).rank() < (
    #[trigger] t[b]).rank() by {
        assert(recs[a].rank() < recs[b].rank());
    }
    lemma_sealed_at(t, i);
    assert forall|k: Seq<u8>| k != s.key@ implies #[trigger] sealed_word(t, k) == sealed_word(
        recs,
        k,
    ) by {
        if sealed_word(t, k) is Some {
            let j = lemma_sealed_has(t, k);
            assert(t[j] == recs[j]);
            lemma_sealed_at(recs, j);
        }
        if sealed_word(recs, k) is Some {
            let j = lemma_sealed_has(recs, k);
            assert(t[j] == recs[j]);
            lemma_sealed_at(t, j);
        }
    }
}

/// A sealed head.
pub struct SealedHead {
    id: u32,
    recs: Vec<Slot>,
}

impl SealedHead {
    /// The records in key order.
    pub closed spec fn records(&self) -> Seq<Slot> {
        self.recs@
    }

    /// Number of the head's file.
    pub closed spec fn file_id(&self) -> u32 {
        self.id
    }

    pub open spec fn inv(&self) -> bool {
        keys_rise(self.records())
    }

    /// The word stored for `k`.
    pub open spec fn word(&self, k: Seq<u8>) -> Option<u64> {
        sealed_word(self.records(), k)
    }

    /// Seals records that are in strict key order.
    pub fn seal(id: u32, recs: Vec<Slot>) -> (r: Self)
        requires
            keys_rise(recs@),
        ensures
            r.inv(),
            r.records() == recs@,
            r.file_id() == id,
    {
        SealedHead { id, recs }
    }

    pub fn id(&self) -> (r: u32)
        ensures
            r == self.file_id(),
    {
        self.id
    }

    /// Number of records.
    pub fn len(&self) -> (r: usize)
        ensures
            r == self.records().len(),
    {
        self.recs.len()
    }

    /// No record at all.
    pub fn is_empty(&self) -> (r: bool)
        ensures
            r == (self.records().len() == 0),
    {
        self.recs.len() == 0
    }

    /// The `i`-th record.
    pub fn record(&self, i: usize) -> (r: Slot)
        requires
            i < self.records().len(),
        ensures
            r == self.records()[i as int],
    {
        self.recs[i]
    }

    /// Place of a key.
    fn index_of(&self, key: &ShHeadKey) -> (r: Option<usize>)
        requires
            self.inv(),
        ensures
            match r {
                Some(i) => i < self.recs@.len() && self.recs@[i as int].key@ == key@,
                None => self.word(key@) is None,
            },
    {
        let mut lo: usize = 0;
        let mut hi: usize = self.recs.len();
        let ghost target = be_nat(key@);
        while lo < hi
            invariant
                lo <= hi <= self.recs@.len(),
                keys_rise(self.recs@),
                target == be_nat(key@),
                forall|i: int| 0 <= i < lo ==> (#[trigger] self.recs@[i]).rank() < target,
                forall|i: int|
                    hi <= i < self.recs@.len() ==> (#[trigger] self.recs@[i]).rank() > target,
            decreases hi - lo,
        {
            let mid: usize = lo + (hi - lo) / 2;
            let s: Slot = self.recs[mid];
            proof {
                assert(s.key@.subrange(0, 16) =~= s.key@);
                assert(key@.subrange(0, 16) =~= key@);
                assert(self.recs@[mid as int] == s);
            }
            match bytes_order(s.key.as_slice(), 0, key.as_slice(), 0, 16) {
                Cmp3::Same => {
                    return Some(mid);
                },
                Cmp3::Less => {
                    lo = mid + 1;
                },
                Cmp3::More => {
                    hi = mid;
                },
            }
        }
        proof {
            if self.word(key@) is Some {
                let i = lemma_sealed_has(self.recs@, key@);
                assert(self.recs@[i].rank() == target);
            }
        }
        None
    }

    /// The word stored for a key.
    pub fn get(&self, key: &ShHeadKey) -> (r: Option<u64>)
        requires
            self.inv(),
        ensures
            r == self.word(key@),
    {
        match self.index_of(key) {
            Some(i) => {
                proof {
                    lemma_sealed_at(self.recs@, i as int);
                }
                Some(self.recs[i].word)
            },
            None => None,
        }
    }

    /// Replaces the word of a key that has a record.
    pub fn update_value(&mut self, key: &ShHeadKey, word: u64) -> (r: bool)
        requires
            old(self).inv(),
        ensures
            final(self).inv(),
            final(self).file_id() == old(self).file_id(),
            final(self).records().len() == old(self).records().len(),
            r == (old(self).word(key@) is Some),
            !r ==> *final(self) == *old(self),
            forall|k: Seq<u8>| #[trigger] final(self).word(k) == (if r && k == key@ {
                Some(word)
            } else {
                old(self).word(k)
            }),
    {
        match self.index_of(key) {
            Some(i) => {
                proof {
                    lemma_sealed_at(self.recs@, i as int);
                    lemma_sealed_update(self.recs@, i as int, Slot { key: *key, word });
                }
                self.recs.set(i, Slot { key: *key, word });
                true
            },
            None => false,
        }
    }
}

/// The word stored for `k` in the newest of the heads that has it.
pub open spec fn newest_word(heads: Seq<SealedHead>, k: Seq<u8>) -> Option<u64>
    decreases heads.len(),
{
    if heads.len() == 0 {
        None
    } else if heads.last().word(k) is Some {
        heads.last().word(k)
    } else {
        newest_word(heads.drop_last(), k)
    }
}

/// Every head is in order.
pub open spec fn all_sealed(heads: Seq<SealedHead>) -> bool {
    forall|i: int| 0 <= i < heads.len() ==> (#[trigger] heads[i]).inv()
}

pub proof fn lemma_newest_some(heads: Seq<SealedHead>, k: Seq<u8>) -> (i: int)
    requires
        newest_word(heads, k) is Some,
    ensures
        0 <= i < heads.len(),
        heads[i].word(k) == newest_word(heads, k),
        heads[i].word(k) is Some,
        forall|j: int| i < j < heads.len() ==> (#[trigger] heads[j]).word(k) is None,
    decreases heads.len(),
{
    if heads.last().word(k) is Some {
        heads.len() - 1
    } else {
        let d = heads.drop_last();
        let i = lemma_newest_some(d, k);
        assert(d[i] == heads[i]);
        assert forall|j: int| i < j < heads.len() implies (#[trigger] heads[j]).word(k) is None by {
            if j < d.len() {
                assert(d[j] == heads[j]);
            }
        }
        i
    }
}

pub proof fn lemma_newest_none(heads: Seq<SealedHead>, k: Seq<u8>, i: int)
    requires
        newest_word(heads, k) is None,
        0 <= i < heads.len(),
    ensures
        heads[i].word(k) is None,
    decreases heads.len(),
{
    if i < heads.len() - 1 {
        lemma_newest_none(heads.drop_last(), k, i);
        assert(heads.drop_last()[i] == heads[i]);
    }
}

pub proof fn lemma_newest_at(heads: Seq<SealedHead>, k: Seq<u8>, i: int)
    requires
        0 <= i < heads.len(),
        heads[i].word(k) is Some,
        forall|j: int| i < j < heads.len() ==> (#[trigger] heads[j]).word(k) is None,
    ensures
        newest_word(heads, k) == heads[i].word(k),
    decreases heads.len(),
{
    if i < heads.len() - 1 {
        let d = heads.drop_last();
        assert(heads[heads.len() - 1].word(k) is None);
        assert forall|j: int| i < j < d.len() implies (#[trigger] d[j]).word(k) is None by {
            assert(heads[j].word(k) is None);
        }
        assert(d[i] == heads[i]);
        lemma_newest_at(d, k, i);
    }
}

/// Heads that answer alike for `k` one by one answer alike together.
pub proof fn lemma_newest_same(a: Seq<SealedHead>, b: Seq<SealedHead>, k: Seq<u8>)
    requires
        a.len() == b.len(),
        forall|i: int| 0 <= i < a.len() ==> (#[trigger] a[i]).word(k) == b[i].word(k),
    ensures
        newest_word(a, k) == newest_word(b, k),
    decreases a.len(),
{
    if a.len() > 0 {
        assert(a[a.len() - 1].word(k) == b[a.len() - 1].word(k));
        let (c, d) = (a.drop_last(), b.drop_last());
        assert forall|i: int| 0 <= i < c.len() implies (#[trigger] c[i]).word(k) == d[i].word(k) by {
            assert(a[i].word(k) == b[i].word(k));
        }
        lemma_newest_same(c, d, k);
    }
}

/// The word stored for a key in the newest of the heads that has it.
pub fn newest_get(heads: &Vec<SealedHead>, key: &ShHeadKey) -> (r: Option<u64>)
    requires
        all_sealed(heads@),
    ensures
        r == newest_word(heads@, key@),
{
    let mut i: usize = heads.len();
    while i > 0
        invariant
            i <= heads@.len(),
            all_sealed(heads@),
            forall|j: int| i <= j < heads@.len() ==> (#[trigger] heads@[j]).word(key@) is None,
        decreases i,
    {
        i -= 1;
        let w = heads[i].get(key);
        if w.is_some() {
            proof {
                lemma_newest_at(heads@, key@, i as int);
            }
            return w;
        }
    }
    proof {
        if newest_word(heads@, key@) is Some {
            let j = lemma_newest_some(heads@, key@);
            assert(heads@[j].word(key@) is None);
        }
    }
    None
}

/// Only head `i` differs, by the word of a key that no later head has.
pub open spec fn only_newest(
    a: Seq<SealedHead>,
    b: Seq<SealedHead>,
    i: int,
    key: Seq<u8>,
    word: u64,
) -> bool {
    &&& 0 <= i < a.len()
    &&& a.len() == b.len()
    &&& a[i].word(key) is Some
    &&& forall|j: int| i < j < a.len() ==> (#[trigger] a[j]).word(key) is None
    &&& forall|j: int| 0 <= j < a.len() && j != i ==> #[trigger] b[j] == a[j]
    &&& b[i].records().len() == a[i].records().len()
    &&& forall|k: Seq<u8>| #[trigger]
        b[i].word(k) == (if k == key {
            Some(word)
        } else {
            a[i].word(k)
        })
}

/// Replaces the word of a key in the newest of the heads that has it.
pub fn newest_update(heads: &mut Vec<SealedHead>, key: &ShHeadKey, word: u64) -> (r: bool)
    requires
        all_sealed(old(heads)@),
    ensures
        all_sealed(final(heads)@),
        final(heads)@.len() == old(heads)@.len(),
        r == (newest_word(old(heads)@, key@) is Some),
        !r ==> final(heads)@ == old(heads)@,
        r ==> newest_word(final(heads)@, key@) == Some(word),
        forall|i: int, k: Seq<u8>|
            0 <= i < old(heads)@.len() ==> ((#[trigger] final(heads)@[i].word(k)) is Some
                <==> old(heads)@[i].word(k) is Some),
        forall|k: Seq<u8>|
            k != key@ ==> #[trigger] newest_word(final(heads)@, k) == newest_word(
                old(heads)@,
                k,
            ),
        forall|i: int|
            0 <= i < old(heads)@.len() ==> (#[trigger] final(heads)@[i]).file_id()
                == old(heads)@[i].file_id(),
        r ==> exists|i: int| #[trigger] only_newest(old(heads)@, final(heads)@, i, key@, word),
{
    let mut i: usize = heads.len();
    let ghost h0 = heads@;
    while i > 0
        invariant
            i <= heads@.len(),
            heads@ == h0,
            all_sealed(heads@),
            h0 == old(heads)@,
            forall|j: int| i <= j < heads@.len() ==> (#[trigger] heads@[j]).word(key@) is None,
        decreases i,
    {
        i -= 1;
        let head = &mut heads[i];
        if head.update_value(key, word) {
            proof {
                let h1 = heads@;
                assert forall|j: int| 0 <= j < h1.len() && j != i implies h1[j] == h0[j] by {}
                assert forall|j: int| i < j < h1.len() implies (#[trigger] h1[j]).word(
                    key@,
                ) is None by {
                    assert(h0[j].word(key@) is None);
                }
                lemma_newest_at(h0, key@, i as int);
                lemma_newest_at(h1, key@, i as int);
                assert forall|k: Seq<u8>| k != key@ implies #[trigger] newest_word(h1, k)
                    == newest_word(h0, k) by {
                    lemma_newest_same(h1, h0, k);
                }
                assert(only_newest(h0, h1, i as int, key@, word));
            }
            return true;
        }
        proof {
            assert(heads@ =~= h0);
        }
    }
    proof {
        if newest_word(h0, key@) is Some {
            let j = lemma_newest_some(h0, key@);
            assert(h0[j].word(key@) is None);
        }
    }
    false
}

/// No two records have one key.
pub open spec fn distinct_keys(recs: Seq<Slot>) -> bool {
    forall|i: int, j: int|
        0 <= i < j < recs.len() ==> (#[trigger] recs[i]).key@ != (#[trigger] recs[j]).key@
}

/// Records with distinct keys, put in order, rise strictly and answer alike.
pub proof fn lemma_sort_distinct(all: Seq<Slot>, sorted: Seq<Slot>)
    requires
        distinct_keys(all),
        sorted_by_rank(sorted),
        sorted.to_multiset() == all.to_multiset(),
    ensures
        keys_rise(sorted),
        forall|k: Seq<u8>| #[trigger] sealed_word(sorted, k) == sealed_word(all, k),
{
    assert(all.no_duplicates()) by {
        assert forall|i: int, j: int| 0 <= i < all.len() && 0 <= j < all.len() && i != j implies all[i]
            != all[j] by {
            if i < j {
                assert(all[i].key@ != all[j].key@);
            } else {
                assert(all[j].key@ != all[i].key@);
            }
        }
    }
    all.lemma_multiset_has_no_duplicates();
    sorted.lemma_multiset_has_no_duplicates_conv();
    assert forall|i: int, j: int| 0 <= i < j < sorted.len() implies (#[trigger] sorted[i]).rank()
        < (#[trigger] sorted[j]).rank() by {
        if sorted[i].rank() == sorted[j].rank() {
            lemma_be_injective(sorted[i].key@, sorted[j].key@);
            let a = crate::sorting::lemma_same_items(sorted, all, i);
            let b = crate::sorting::lemma_same_items(sorted, all, j);
            if a < b {
                assert(all[a].key@ != all[b].key@);
            } else if b < a {
                assert(all[b].key@ != all[a].key@);
            }
            assert(sorted[i] == sorted[j]);
        }
    }
    assert forall|k: Seq<u8>| #[trigger] sealed_word(sorted, k) == sealed_word(all, k) by {
        if sealed_word(sorted, k) is Some {
            let i = lemma_sealed_has(sorted, k);
            let a = crate::sorting::lemma_same_items(sorted, all, i);
            lemma_distinct_at(all, a);
        }
        if sealed_word(all, k) is Some {
            let a = lemma_sealed_has(all, k);
            let i = crate::sorting::lemma_same_items(all, sorted, a);
            lemma_sealed_at(sorted, i);
        }
    }
}

proof fn lemma_distinct_at(recs: Seq<Slot>, i: int)
    requires
        distinct_keys(recs),
        0 <= i < recs.len(),
    ensures
        sealed_word(recs, recs[i].key@) == Some(recs[i].word),
    decreases recs.len(),
{
    if i < recs.len() - 1 {
        assert(recs[i].key@ != recs[recs.len() - 1].key@);
        let d = recs.drop_last();
        assert forall|a: int, b: int| 0 <= a < b < d.len() implies (#[trigger] d[a]).key@ != (
        #[trigger] d[b]).key@ by {
            assert(recs[a].key@ != recs[b].key@);
        }
        assert(d[i] == recs[i]);
        lemma_distinct_at(d, i);
    }
}

/// All records of the heads, oldest head first.
pub open spec fn all_records(heads: Seq<SealedHead>) -> Seq<Slot>
    decreases heads.len(),
{
    if heads.len() == 0 {
        Seq::empty()
    } else {
        all_records(heads.drop_last()) + heads.last().records()
    }
}

/// No key is in two heads.
pub open spec fn heads_apart(heads: Seq<SealedHead>) -> bool {
    forall|i: int, j: int, k: Seq<u8>|
        0 <= i < j < heads.len() && (#[trigger] heads[i].word(k)) is Some ==> (
        #[trigger] heads[j].word(k)) is None
}

/// The records of heads that share no key have distinct keys and answer as
/// the newest head does.
pub proof fn lemma_all_records(heads: Seq<SealedHead>)
    requires
        all_sealed(heads),
        heads_apart(heads),
    ensures
        distinct_keys(all_records(heads)),
        forall|k: Seq<u8>| #[trigger] sealed_word(all_records(heads), k) == newest_word(heads, k),
    decreases heads.len(),
{
    if heads.len() > 0 {
        let m = heads.len() - 1;
        let d = heads.drop_last();
        assert forall|i: int| 0 <= i < d.len() implies (#[trigger] d[i]).inv() by {
            assert(heads[i].inv());
        }
        assert forall|i: int, j: int, k: Seq<u8>|
            0 <= i < j < d.len() && (#[trigger] d[i].word(k)) is Some implies (#[trigger] d[j].word(
            k,
        )) is None by {
            assert(heads[i].word(k) is Some);
            assert(heads[j].word(k) is None);
        }
        lemma_all_records(d);
        let x = all_records(d);
        let y = heads[m].records();
        assert(heads[m].inv());
        assert forall|k: Seq<u8>| #[trigger] sealed_word(x + y, k) == (if sealed_word(
            y,
            k,
        ) is Some {
            sealed_word(y, k)
        } else {
            sealed_word(x, k)
        }) by {
            lemma_word_concat(x, y, k);
        }
        assert forall|k: Seq<u8>| #[trigger] sealed_word(x + y, k) == newest_word(heads, k) by {
            assert(heads[m].word(k) == sealed_word(y, k));
        }
        let z = x + y;
        assert forall|i: int, j: int| 0 <= i < j < z.len() implies (#[trigger] z[i]).key@ != (
        #[trigger] z[j]).key@ by {
            if j < x.len() {
                assert(x[i].key@ != x[j].key@);
            } else if i >= x.len() {
                assert(y[i - x.len()].rank() < y[j - x.len()].rank());
            } else {
                let k = x[i].key@;
                if k == z[j].key@ {
                    lemma_distinct_at(x, i);
                    assert(newest_word(d, k) is Some);
                    let a = lemma_newest_some(d, k);
                    assert(heads[a].word(k) is Some);
                    lemma_sealed_at(y, j - x.len());
                    assert(heads[m].word(k) is Some);
                }
            }
        }
    }
}

proof fn lemma_word_concat(x: Seq<Slot>, y: Seq<Slot>, k: Seq<u8>)
    ensures
        sealed_word(x + y, k) == (if sealed_word(y, k) is Some {
            sealed_word(y, k)
        } else {
            sealed_word(x, k)
        }),
    decreases y.len(),
{
    if y.len() == 0 {
        assert(x + y =~= x);
    } else {
        assert((x + y).drop_last() =~= x + y.drop_last());
        assert((x + y).last() == y.last());
        lemma_word_concat(x, y.drop_last(), k);
    }
}

/// All records of the heads.
pub fn collect_records(heads: &Vec<SealedHead>) -> (r: Vec<Slot>)
    ensures
        r@ == all_records(heads@),
{
    let mut out: Vec<Slot> = Vec::new();
    let mut i: usize = 0;
    proof {
        assert(heads@.subrange(0, 0) =~= Seq::empty());
    }
    while i < heads.len()
        invariant
            i <= heads@.len(),
            out@ == all_records(heads@.subrange(0, i as int)),
        decreases heads@.len() - i,
    {
        let ghost start = out@;
        let mut j: usize = 0;
        let n: usize = heads[i].len();
        while j < n
            invariant
                j <= n,
                i < heads@.len(),
                n == heads@[i as int].records().len(),
                out@ =~= start + heads@[i as int].records().subrange(0, j as int),
            decreases n - j,
        {
            out.push(heads[i].record(j));
            j += 1;
        }
        proof {
            let p = heads@.subrange(0, i + 1);
            assert(p.drop_last() =~= heads@.subrange(0, i as int));
            assert(p.last() == heads@[i as int]);
            let rec = heads@[i as int].records();
            assert(rec.subrange(0, rec.len() as int) =~= rec);
        }
        i += 1;
    }
    proof {
        assert(heads@.subrange(0, i as int) =~= heads@);
    }
    out
}

} // verus!
