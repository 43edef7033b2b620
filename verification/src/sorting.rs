//! Stable merge sort of items with a numeric rank, and byte order as a number.

use vstd::prelude::*;

verus! {

/// Items that are ordered by a number.
pub trait Ranked: Copy {
    spec fn rank(&self) -> nat;

    fn rank_le(&self, other: &Self) -> (r: bool)
        ensures
            r == (self.rank() <= other.rank()),
    ;
}

/// Ranks never fall.
pub open spec fn sorted_by_rank<T: Ranked>(s: Seq<T>) -> bool {
    forall|i: int, j: int|
        0 <= i < j < s.len() ==> (#[trigger] s[i]).rank() <= (#[trigger] s[j]).rank()
}

/// Items of `a` and `b` in rank order, those of `a` first where ranks tie.
fn merge<T: Ranked>(a: Vec<T>, b: Vec<T>) -> (r: Vec<T>)
    requires
        sorted_by_rank(a@),
        sorted_by_rank(b@),
    ensures
        sorted_by_rank(r@),
        r@.to_multiset() == a@.to_multiset().add(b@.to_multiset()),
        r@.len() == a@.len() + b@.len(),
        sorted_by_rank(a@ + b@) ==> r@ == a@ + b@,
{
    let ghost good = sorted_by_rank(a@ + b@);
    let mut out: Vec<T> = Vec::new();
    let mut i: usize = 0;
    let mut j: usize = 0;
    proof {
        assert(a@.subrange(0, 0) =~= Seq::empty());
        assert(b@.subrange(0, 0) =~= Seq::empty());
        assert((a@ + b@).subrange(0, 0) =~= Seq::empty());
        out@.to_multiset_ensures();
        a@.subrange(0, 0).to_multiset_ensures();
        assert(out@.to_multiset() =~= a@.subrange(0, 0).to_multiset().add(
            b@.subrange(0, 0).to_multiset(),
        ));
    }
    while i < a.len() || j < b.len()
        invariant
            i <= a@.len(),
            j <= b@.len(),
            sorted_by_rank(a@),
            sorted_by_rank(b@),
            sorted_by_rank(out@),
            out@.len() == i + j,
            good == sorted_by_rank(a@ + b@),
            good ==> out@ == (a@ + b@).subrange(0, i + j) && (j > 0 ==> i == a@.len()),
            out@.to_multiset() == a@.subrange(0, i as int).to_multiset().add(
                b@.subrange(0, j as int).to_multiset(),
            ),
            forall|k: int, l: int|
                0 <= k < out@.len() && i <= l < a@.len() ==> (#[trigger] out@[k]).rank() <= (
                #[trigger] a@[l]).rank(),
            forall|k: int, l: int|
                0 <= k < out@.len() && j <= l < b@.len() ==> (#[trigger] out@[k]).rank() <= (
                #[trigger] b@[l]).rank(),
        decreases a@.len() + b@.len() - i - j,
    {
        let take_a: bool = if i >= a.len() {
            false
        } else if j >= b.len() {
            true
        } else {
            a[i].rank_le(&b[j])
        };
        let ghost before = out@;
        proof {
            if good {
                let c = a@ + b@;
                if i < a@.len() && j < b@.len() {
                    assert(c[i as int] == a@[i as int]);
                    assert(c[a@.len() as int] == b@[0]);
                    assert(c[i as int].rank() <= c[a@.len() as int].rank());
                }
                assert(c.subrange(0, i + j + 1) =~= c.subrange(0, i + j).push(c[i + j]));
            }
        }
        if take_a {
            out.push(a[i]);
            proof {
                before.to_multiset_ensures();
                a@.subrange(0, i as int).to_multiset_ensures();
                assert(a@.subrange(0, i + 1) =~= a@.subrange(0, i as int).push(a@[i as int]));
                assert(out@.to_multiset() =~= a@.subrange(0, i + 1).to_multiset().add(
                    b@.subrange(0, j as int).to_multiset(),
                ));
            }
            i += 1;
        } else {
            out.push(b[j]);
            proof {
                before.to_multiset_ensures();
                b@.subrange(0, j as int).to_multiset_ensures();
                assert(b@.subrange(0, j + 1) =~= b@.subrange(0, j as int).push(b@[j as int]));
                assert(out@.to_multiset() =~= a@.subrange(0, i as int).to_multiset().add(
                    b@.subrange(0, j + 1).to_multiset(),
                ));
            }
            j += 1;
        }
    }
    proof {
        assert(a@.subrange(0, a@.len() as int) =~= a@);
        assert(b@.subrange(0, b@.len() as int) =~= b@);
        assert((a@ + b@).subrange(0, (a@.len() + b@.len()) as int) =~= a@ + b@);
    }
    out
}

fn sort_range<T: Ranked>(v: &Vec<T>, lo: usize, hi: usize) -> (r: Vec<T>)
    requires
        lo <= hi <= v@.len(),
    ensures
        sorted_by_rank(r@),
        r@.to_multiset() == v@.subrange(lo as int, hi as int).to_multiset(),
        r@.len() == hi - lo,
        sorted_by_rank(v@.subrange(lo as int, hi as int)) ==> r@ == v@.subrange(
            lo as int,
            hi as int,
        ),
    decreases hi - lo,
{
    if hi - lo <= 1 {
        let mut out: Vec<T> = Vec::new();
        if lo < hi {
            out.push(v[lo]);
        }
        proof {
            assert(out@ =~= v@.subrange(lo as int, hi as int));
        }
        return out;
    }
    let mid: usize = lo + (hi - lo) / 2;
    let a = sort_range(v, lo, mid);
    let b = sort_range(v, mid, hi);
    proof {
        let x = v@.subrange(lo as int, mid as int);
        let y = v@.subrange(mid as int, hi as int);
        assert(x + y =~= v@.subrange(lo as int, hi as int));
        if sorted_by_rank(x + y) {
            assert forall|i: int, j: int| 0 <= i < j < x.len() implies (#[trigger] x[i]).rank() <= (
            #[trigger] x[j]).rank() by {
                assert((x + y)[i] == x[i] && (x + y)[j] == x[j]);
            }
            assert forall|i: int, j: int| 0 <= i < j < y.len() implies (#[trigger] y[i]).rank() <= (
            #[trigger] y[j]).rank() by {
                assert((x + y)[x.len() + i] == y[i] && (x + y)[x.len() + j] == y[j]);
            }
        }
        vstd::seq_lib::lemma_multiset_commutative(x, y);
    }
    merge(a, b)
}

/// The items in rank order.
pub fn sort_ranked<T: Ranked>(v: &Vec<T>) -> (r: Vec<T>)
    ensures
        sorted_by_rank(r@),
        r@.to_multiset() == v@.to_multiset(),
        r@.len() == v@.len(),
        sorted_by_rank(v@) ==> r@ == v@,
{
    proof {
        assert(v@.subrange(0, v@.len() as int) =~= v@);
    }
    sort_range(v, 0, v.len())
}

/// Items with equal contents hold the same items.
pub proof fn lemma_same_items<T>(a: Seq<T>, b: Seq<T>, i: int) -> (j: int)
    requires
        a.to_multiset() == b.to_multiset(),
        0 <= i < a.len(),
    ensures
        0 <= j < b.len(),
        b[j] == a[i],
{
    a.to_multiset_ensures();
    b.to_multiset_ensures();
    assert(a.contains(a[i]));
    assert(a.to_multiset().count(a[i]) > 0);
    assert(b.contains(a[i]));
    choose|j: int| 0 <= j < b.len() && b[j] == a[i]
}

/// A 64-bit number ranks as itself.
#[derive(Clone, Copy)]
pub struct RankU64(pub u64);

impl Ranked for RankU64 {
    open spec fn rank(&self) -> nat {
        self.0 as nat
    }

    fn rank_le(&self, other: &Self) -> (r: bool) {
        self.0 <= other.0
    }
}

/// Value of `s` read as a big-endian number. For byte strings of one length,
/// number order is lexicographic order.
pub open spec fn be_nat(s: Seq<u8>) -> nat
    decreases s.len(),
{
    if s.len() == 0 {
        0
    } else {
        256 * be_nat(s.drop_last()) + s.last() as nat
    }
}

proof fn lemma_be_step(a: Seq<u8>, b: Seq<u8>, i: int)
    requires
        a.len() == b.len(),
        0 <= i < a.len(),
    ensures
        be_nat(a.subrange(0, i)) < be_nat(b.subrange(0, i)) ==> be_nat(a.subrange(0, i + 1))
            < be_nat(b.subrange(0, i + 1)),
        be_nat(a.subrange(0, i)) == be_nat(b.subrange(0, i)) ==> ((be_nat(a.subrange(0, i + 1))
            < be_nat(b.subrange(0, i + 1))) <==> a[i] < b[i]) && ((be_nat(a.subrange(0, i + 1))
            == be_nat(b.subrange(0, i + 1))) <==> a[i] == b[i]),
{
    assert(a.subrange(0, i + 1).drop_last() =~= a.subrange(0, i));
    assert(b.subrange(0, i + 1).drop_last() =~= b.subrange(0, i));
}

/// Equal numbers come from equal strings of one length.
pub proof fn lemma_be_injective(a: Seq<u8>, b: Seq<u8>)
    requires
        a.len() == b.len(),
        be_nat(a) == be_nat(b),
    ensures
        a == b,
    decreases a.len(),
{
    if a.len() > 0 {
        lemma_be_injective(a.drop_last(), b.drop_last());
        assert(a =~= a.drop_last().push(a.last()));
        assert(b =~= b.drop_last().push(b.last()));
    } else {
        assert(a =~= b);
    }
}

/// Outcome of a comparison.
#[derive(Clone, Copy, Debug, PartialEq, Eq, Structural)]
pub enum Cmp3 {
    Less,
    Same,
    More,
}

/// How two numbers compare.
pub open spec fn nat_order(a: nat, b: nat) -> Cmp3 {
    if a < b {
        Cmp3::Less
    } else if a == b {
        Cmp3::Same
    } else {
        Cmp3::More
    }
}

/// Compares `n` bytes of `a` from `ao` with `n` bytes of `b` from `bo`.
pub fn bytes_order(a: &[u8], ao: usize, b: &[u8], bo: usize, n: usize) -> (r: Cmp3)
    requires
        ao + n <= a@.len(),
        bo + n <= b@.len(),
    ensures
        r == nat_order(
            be_nat(a@.subrange(ao as int, ao + n)),
            be_nat(b@.subrange(bo as int, bo + n)),
        ),
        r == Cmp3::Same <==> a@.subrange(ao as int, ao + n) == b@.subrange(bo as int, bo + n),
{
    let ghost x = a@.subrange(ao as int, ao + n);
    let ghost y = b@.subrange(bo as int, bo + n);
    let alen: usize = a.len();
    let blen: usize = b.len();
    let mut i: usize = 0;
    let mut res: Cmp3 = Cmp3::Same;
    proof {
        assert(x.subrange(0, 0) =~= Seq::empty());
        assert(y.subrange(0, 0) =~= Seq::empty());
    }
    while i < n
        invariant
            i <= n,
            alen == a@.len(),
            blen == b@.len(),
            ao + n <= alen,
            bo + n <= blen,
            x == a@.subrange(ao as int, ao + n),
            y == b@.subrange(bo as int, bo + n),
            res == nat_order(be_nat(x.subrange(0, i as int)), be_nat(y.subrange(0, i as int))),
        decreases n - i,
    {
        let p: u8 = a[ao + i];
        let q: u8 = b[bo + i];
        proof {
            lemma_be_step(x, y, i as int);
            lemma_be_step(y, x, i as int);
            assert(x[i as int] == p && y[i as int] == q);
        }
        if matches!(res, Cmp3::Same) {
            if p < q {
                res = Cmp3::Less;
            } else if p > q {
                res = Cmp3::More;
            }
        }
        i += 1;
    }
    proof {
        assert(x.subrange(0, n as int) =~= x);
        assert(y.subrange(0, n as int) =~= y);
        if be_nat(x) == be_nat(y) {
            lemma_be_injective(x, y);
        }
    }
    res
}

} // verus!
