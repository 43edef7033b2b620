//! Loser tree: finds the smallest of several heads and, after that head has
//! moved on, the next smallest with one comparison per level.
//!
//! Node 1 is the root, nodes `n..2n` are the leaves. Every inner node keeps the
//! loser of the match between the winners of its two subtrees.

use vstd::prelude::*;

verus! {

/// Stands for a leaf without a run.
pub const MERGE_SENTINEL: usize = usize::MAX;

/// Head `a` comes before head `b`; an exhausted or missing head comes last, and
/// of two equal ones the first.
pub open spec fn lt(heads: Seq<Option<nat>>, a: int, b: int) -> bool {
    if a < 0 || a >= heads.len() {
        false
    } else if b < 0 || b >= heads.len() {
        true
    } else {
        match (heads[a], heads[b]) {
            (None, _) => false,
            (Some(_), None) => true,
            (Some(x), Some(y)) => x < y || (x == y && a < b),
        }
    }
}

proof fn lemma_not_lt_trans(heads: Seq<Option<nat>>, x: int, y: int, z: int)
    requires
        !lt(heads, x, y),
        !lt(heads, y, z),
    ensures
        !lt(heads, x, z),
{
}

/// Comparing heads that did not change gives the same.
proof fn lemma_lt_same(h: Seq<Option<nat>>, g: Seq<Option<nat>>, w: int, a: int, b: int)
    requires
        g.len() == h.len(),
        forall|i: int| 0 <= i < h.len() && i != w ==> g[i] == h[i],
        a != w,
        b != w,
    ensures
        lt(g, a, b) == lt(h, a, b),
{
}

/// Node `i` lies on the way from node `l` to the root.
pub open spec fn anc(i: int, l: int) -> bool
    decreases l,
{
    l == i || (l > i && l > 1 && anc(i, l / 2))
}

proof fn lemma_anc_up(c: int, l: int)
    requires
        c >= 2,
        l >= 1,
        anc(c, l),
    ensures
        anc(c / 2, l),
        l >= c,
    decreases l,
{
    if l != c {
        lemma_anc_up(c, l / 2);
    } else {
        assert(anc(c / 2, l / 2));
    }
}

proof fn lemma_anc_ge(i: int, l: int)
    requires
        anc(i, l),
    ensures
        l >= i,
{
}

/// Only one child lies on the way.
proof fn lemma_anc_one(p: int, l: int)
    requires
        p >= 1,
        l >= 1,
    ensures
        !(anc(2 * p, l) && anc(2 * p + 1, l)),
    decreases l,
{
    if anc(2 * p, l) && anc(2 * p + 1, l) {
        if l == 2 * p {
            lemma_anc_ge(2 * p + 1, l);
        } else if l == 2 * p + 1 {
            assert(l / 2 == p);
            lemma_anc_ge(2 * p, p);
        } else {
            lemma_anc_one(p, l / 2);
        }
    }
}

/// The leaf at node `n + j`.
pub open spec fn leaf(k: int, j: int) -> int {
    if j < k {
        j
    } else {
        usize::MAX as int
    }
}

/// Node `i` holds the loser of its two subtrees; `w` are the winners.
pub open spec fn node_ok(
    heads: Seq<Option<nat>>,
    losers: Seq<usize>,
    w: Seq<int>,
    i: int,
) -> bool {
    &&& (w[i] == w[2 * i] && losers[i] == w[2 * i + 1]) || (w[i] == w[2 * i + 1] && losers[i]
        == w[2 * i])
    &&& !lt(heads, losers[i] as int, w[i])
}

/// Leaves are in place.
pub open spec fn leaves_ok(w: Seq<int>, n: int, k: int) -> bool {
    &&& w.len() == 2 * n
    &&& forall|j: int| n <= j < 2 * n ==> #[trigger] w[j] == leaf(k, j - n)
}

/// All inner nodes are right.
pub open spec fn nodes_ok(
    heads: Seq<Option<nat>>,
    losers: Seq<usize>,
    w: Seq<int>,
    n: int,
) -> bool {
    forall|i: int| 1 <= i < n ==> #[trigger] node_ok(heads, losers, w, i)
}

/// A winner comes from its subtree.
proof fn lemma_origin(
    heads: Seq<Option<nat>>,
    losers: Seq<usize>,
    w: Seq<int>,
    n: int,
    i: int,
)
    requires
        n >= 1,
        heads.len() <= n,
        heads.len() < usize::MAX,
        leaves_ok(w, n, heads.len() as int),
        nodes_ok(heads, losers, w, n),
        1 <= i < 2 * n,
    ensures
        w[i] == usize::MAX || (0 <= w[i] < heads.len() && anc(i, n + w[i])),
    decreases 2 * n - i,
{
    if i < n {
        assert(node_ok(heads, losers, w, i));
        lemma_origin(heads, losers, w, n, 2 * i);
        lemma_origin(heads, losers, w, n, 2 * i + 1);
        if w[i] != usize::MAX {
            if w[i] == w[2 * i] {
                lemma_anc_up(2 * i, n + w[i]);
            } else {
                lemma_anc_up(2 * i + 1, n + w[i]);
                assert((2 * i + 1) / 2 == i);
            }
        }
    }
}

/// No leaf below node `i` comes before its winner.
proof fn lemma_min(
    heads: Seq<Option<nat>>,
    losers: Seq<usize>,
    w: Seq<int>,
    n: int,
    l: int,
    x: int,
)
    requires
        n >= 1,
        w.len() == 2 * n,
        nodes_ok(heads, losers, w, n),
        1 <= l < 2 * n,
        !lt(heads, x, w[l]),
    ensures
        !lt(heads, x, w[1]),
    decreases l,
{
    if l > 1 {
        let p = l / 2;
        assert(node_ok(heads, losers, w, p));
        assert(l == 2 * p || l == 2 * p + 1);
        if w[p] != w[l] {
            assert(losers[p] == w[l]);
            lemma_not_lt_trans(heads, x, w[l], w[p]);
        }
        lemma_min(heads, losers, w, n, p, x);
    }
}

/// The overall winner wins every match on its way.
proof fn lemma_path(
    heads: Seq<Option<nat>>,
    losers: Seq<usize>,
    w: Seq<int>,
    n: int,
    c: int,
)
    requires
        n >= 1,
        heads.len() <= n,
        heads.len() < usize::MAX,
        leaves_ok(w, n, heads.len() as int),
        nodes_ok(heads, losers, w, n),
        0 <= w[1] < heads.len(),
        1 <= c < 2 * n,
        anc(c, n + w[1]),
    ensures
        w[c] == w[1],
    decreases c,
{
    if c > 1 {
        let p = c / 2;
        lemma_anc_up(c, n + w[1]);
        lemma_path(heads, losers, w, n, p);
        assert(node_ok(heads, losers, w, p));
        if w[c] != w[1] {
            let s = if c == 2 * p {
                2 * p + 1
            } else {
                2 * p
            };
            assert(w[s] == w[1]);
            lemma_origin(heads, losers, w, n, s);
            lemma_anc_one(p, n + w[1]);
        }
    }
}

/// Loser tree over indices of heads.
pub struct LoserTree {
    losers: Vec<usize>,
    winner: usize,
    n: usize,
    w: Ghost<Seq<int>>,
}

impl LoserTree {
    /// The tree fits the heads.
    pub closed spec fn inv(&self, heads: Seq<Option<nat>>) -> bool {
        &&& self.n >= 1
        &&& self.n <= usize::MAX / 4
        &&& heads.len() <= self.n
        &&& self.losers@.len() == self.n
        &&& leaves_ok(self.w@, self.n as int, heads.len() as int)
        &&& nodes_ok(heads, self.losers@, self.w@, self.n as int)
        &&& self.winner == self.w@[1]
    }

    /// The winner.
    pub closed spec fn top(&self) -> usize {
        self.winner
    }

    /// A new tree. `less` is the outcome of every comparison, as a table.
    pub(crate) fn build(n: usize, k: usize) -> (r: (Vec<usize>, Vec<usize>))
        requires
            1 <= n <= usize::MAX / 4,
            k <= n,
        ensures
            r.0@.len() == 2 * n,
            r.1@.len() == n,
            forall|j: int| n <= j < 2 * n ==> #[trigger] r.0@[j] == leaf(k as int, j - n),
    {
        let mut winners: Vec<usize> = Vec::new();
        let mut losers: Vec<usize> = Vec::new();
        let mut i: usize = 0;
        while i < 2 * n
            invariant
                i <= 2 * n,
                1 <= n <= usize::MAX / 4,
                k <= n,
                winners@.len() == i,
                losers@.len() == (if i < n {
                    i
                } else {
                    n
                }),
                forall|j: int| n <= j < i ==> #[trigger] winners@[j] == leaf(k as int, j - n),
            decreases 2 * n - i,
        {
            if i < n {
                winners.push(MERGE_SENTINEL);
                losers.push(MERGE_SENTINEL);
            } else if i - n < k {
                winners.push(i - n);
            } else {
                winners.push(MERGE_SENTINEL);
            }
            i += 1;
        }
        (winners, losers)
    }

    /// Index of the head that comes first, or one past all heads.
    pub fn winner(&self) -> (r: usize)
        ensures
            r == self.top(),
    {
        self.winner
    }

    /// Finishes a tree from its winners and losers.
    pub(crate) fn finish(
        winners: Vec<usize>,
        losers: Vec<usize>,
        n: usize,
        Ghost(heads): Ghost<Seq<Option<nat>>>,
    ) -> (r: Self)
        requires
            1 <= n <= usize::MAX / 4,
            heads.len() <= n,
            winners@.len() == 2 * n,
            losers@.len() == n,
            leaves_ok(to_ints(winners@), n as int, heads.len() as int),
            nodes_ok(heads, losers@, to_ints(winners@), n as int),
        ensures
            r.inv(heads),
    {
        let ghost w = to_ints(winners@);
        LoserTree { winner: winners[1], losers, n, w: Ghost(w) }
    }

    /// Number of leaves.
    pub closed spec fn size(&self) -> usize {
        self.n
    }

    pub(crate) fn leaves(&self) -> (r: usize)
        ensures
            r == self.size(),
    {
        self.n
    }
}

/// Indices as integers.
pub open spec fn to_ints(s: Seq<usize>) -> Seq<int> {
    s.map_values(|x: usize| x as int)
}

/// The winner of a tree comes before all heads that are left, or none is left.
pub proof fn law_winner_is_least(t: &LoserTree, heads: Seq<Option<nat>>, j: int)
    requires
        t.inv(heads),
        0 <= j < heads.len(),
    ensures
        !lt(heads, j, t.top() as int),
        t.top() == usize::MAX || t.top() < heads.len(),
{
    let n = t.n as int;
    assert(t.w@[n + j] == leaf(heads.len() as int, j));
    lemma_min(heads, t.losers@, t.w@, n, n + j, j);
    lemma_origin(heads, t.losers@, t.w@, n, 1);
}

/// A match on the way up from the winner's leaf.
pub open spec fn climb_ok(
    h: Seq<Option<nat>>,
    g: Seq<Option<nat>>,
    w0: Seq<int>,
    v: Seq<int>,
    l0: Seq<usize>,
    losers: Seq<usize>,
    n: int,
    i: int,
    player: int,
) -> bool {
    &&& 1 <= i < 2 * n
    &&& anc(i, n + w0[1])
    &&& v.len() == 2 * n
    &&& losers.len() == n
    &&& v[i] == player
    &&& v[n + w0[1]] == w0[1]
    &&& forall|x: int|
        1 <= x < 2 * n && !(anc(x, n + w0[1]) && x >= i) ==> #[trigger] v[x] == w0[x]
    &&& forall|p: int|
        1 <= p < n ==> (#[trigger] losers[p] == l0[p] || (anc(p, n + w0[1]) && p >= i))
    &&& forall|p: int|
        1 <= p < n && !(anc(p, n + w0[1]) && p < i) ==> #[trigger] node_ok(g, losers, v, p)
}

/// Nodes off the way do not notice that the winner's head changed.
proof fn lemma_climb_start(
    h: Seq<Option<nat>>,
    g: Seq<Option<nat>>,
    losers: Seq<usize>,
    w: Seq<int>,
    n: int,
)
    requires
        n >= 1,
        h.len() <= n,
        h.len() < usize::MAX,
        g.len() == h.len(),
        losers.len() == n,
        leaves_ok(w, n, h.len() as int),
        nodes_ok(h, losers, w, n),
        0 <= w[1] < h.len(),
        forall|i: int| 0 <= i < h.len() && i != w[1] ==> g[i] == h[i],
    ensures
        climb_ok(h, g, w, w, losers, losers, n, n + w[1], w[1]),
{
    let l = n + w[1];
    assert(w[l] == leaf(h.len() as int, w[1]));
    assert forall|p: int| 1 <= p < n && !(anc(p, l) && p < l) implies #[trigger] node_ok(
        g,
        losers,
        w,
        p,
    ) by {
        assert(node_ok(h, losers, w, p));
        assert(!anc(p, l)) by {
            if anc(p, l) {
                lemma_anc_ge(p, l);
            }
        }
        lemma_origin(h, losers, w, n, 2 * p);
        lemma_origin(h, losers, w, n, 2 * p + 1);
        if w[2 * p] == w[1] {
            lemma_anc_up(2 * p, l);
        }
        if w[2 * p + 1] == w[1] {
            lemma_anc_up(2 * p + 1, l);
            assert((2 * p + 1) / 2 == p);
        }
        lemma_lt_same(h, g, w[1], losers[p] as int, w[p]);
    }
}

/// The other child of the parent of `i`.
pub open spec fn sibling(i: int) -> int {
    if i % 2 == 0 {
        i + 1
    } else {
        i - 1
    }
}

/// What a match on the way finds: the winner of the other subtree.
proof fn lemma_climb_rival(
    h: Seq<Option<nat>>,
    g: Seq<Option<nat>>,
    w0: Seq<int>,
    v: Seq<int>,
    l0: Seq<usize>,
    losers: Seq<usize>,
    n: int,
    i: int,
    player: int,
)
    requires
        n >= 1,
        h.len() <= n,
        h.len() < usize::MAX,
        leaves_ok(w0, n, h.len() as int),
        l0.len() == n,
        nodes_ok(h, l0, w0, n),
        0 <= w0[1] < h.len(),
        climb_ok(h, g, w0, v, l0, losers, n, i, player),
        i > 1,
    ensures
        1 <= i / 2 < n,
        1 <= sibling(i) < 2 * n,
        sibling(i) != i,
        losers[i / 2] == v[sibling(i)],
        anc(i / 2, n + w0[1]),
        !anc(sibling(i), n + w0[1]),
{
    let p = i / 2;
    let s = sibling(i);
    let l = n + w0[1];
    lemma_anc_up(i, l);
    assert(i == 2 * p || i == 2 * p + 1);
    if anc(s, l) {
        lemma_anc_one(p, l);
    }
    assert(losers[p] == l0[p]);
    assert(v[s] == w0[s]);
    assert(node_ok(h, l0, w0, p));
    lemma_path(h, l0, w0, n, i);
    lemma_path(h, l0, w0, n, p);
    if w0[s] == w0[1] {
        lemma_origin(h, l0, w0, n, s);
    }
}

/// One match on the way up.
proof fn lemma_climb_step(
    h: Seq<Option<nat>>,
    g: Seq<Option<nat>>,
    w0: Seq<int>,
    v: Seq<int>,
    l0: Seq<usize>,
    losers: Seq<usize>,
    n: int,
    i: int,
    player: int,
    v2: Seq<int>,
    losers2: Seq<usize>,
    player2: int,
)
    requires
        n >= 1,
        h.len() <= n,
        h.len() < usize::MAX,
        g.len() == h.len(),
        leaves_ok(w0, n, h.len() as int),
        l0.len() == n,
        nodes_ok(h, l0, w0, n),
        0 <= w0[1] < h.len(),
        climb_ok(h, g, w0, v, l0, losers, n, i, player),
        i > 1,
        ({
            let p = i / 2;
            let swap = lt(g, losers[p] as int, player);
            &&& player2 == (if swap {
                losers[p] as int
            } else {
                player
            })
            &&& losers2.len() == n
            &&& forall|q: int| 0 <= q < n && q != p ==> losers2[q] == losers[q]
            &&& losers2[p] == (if swap {
                player
            } else {
                losers[p] as int
            })
            &&& v2 == v.update(p, player2)
        }),
    ensures
        climb_ok(h, g, w0, v2, l0, losers2, n, i / 2, player2),
{
    let p = i / 2;
    let s = sibling(i);
    let l = n + w0[1];
    lemma_climb_rival(h, g, w0, v, l0, losers, n, i, player);
    assert(i == 2 * p || i == 2 * p + 1);
    assert forall|q: int| 1 <= q < n && !(anc(q, l) && q < p) implies #[trigger] node_ok(
        g,
        losers2,
        v2,
        q,
    ) by {
        if q == p {
            assert(v2[i] == player);
            assert(v2[s] == v[s]);
        } else {
            assert(!(anc(q, l) && q < i)) by {
                if anc(q, l) && q < i {
                    // A node on the way below p and above i would be i itself.
                    lemma_between(q, i, l);
                }
            }
            assert(node_ok(g, losers, v, q));
            // The children of q are not p.
            assert(2 * q != p && 2 * q + 1 != p) by {
                if 2 * q == p || 2 * q + 1 == p {
                    lemma_anc_up(p, l);
                    assert(p / 2 == q);
                }
            }
        }
    }
}

/// On one way to the root there is nothing between a node and its parent.
proof fn lemma_between(q: int, i: int, l: int)
    requires
        q >= 1,
        i >= 2,
        l >= 1,
        anc(q, l),
        anc(i, l),
        q < i,
    ensures
        q <= i / 2,
    decreases l,
{
    if l == i {
        lemma_anc_ge(q, l / 2);
    } else {
        lemma_anc_ge(i, l);
        if l == q {
        } else {
            lemma_between(q, i, l / 2);
        }
    }
}

impl LoserTree {
    /// The loser kept at a node.
    pub(crate) fn loser_at(&self, p: usize) -> (r: usize)
        requires
            p < self.losers_seq().len(),
        ensures
            r == self.losers_seq()[p as int],
    {
        self.losers[p]
    }

    pub closed spec fn losers_seq(&self) -> Seq<usize> {
        self.losers@
    }

    /// The tree on its way up from the winner's leaf.
    pub closed spec fn climbing(
        &self,
        start: &LoserTree,
        h: Seq<Option<nat>>,
        g: Seq<Option<nat>>,
        i: int,
        player: int,
    ) -> bool {
        &&& start.inv(h)
        &&& g.len() == h.len()
        &&& 0 <= start.w@[1] < h.len()
        &&& self.n == start.n
        &&& climb_ok(
            h,
            g,
            start.w@,
            self.w@,
            start.losers@,
            self.losers@,
            self.n as int,
            i,
            player,
        )
    }

    /// Starts the way up after the winner's head changed.
    pub(crate) fn climb_start(
        &self,
        Ghost(h): Ghost<Seq<Option<nat>>>,
        Ghost(g): Ghost<Seq<Option<nat>>>,
    ) -> (i: usize)
        requires
            self.inv(h),
            g.len() == h.len(),
            self.top() < h.len(),
            forall|i: int| 0 <= i < h.len() && i != self.top() ==> g[i] == h[i],
        ensures
            self.climbing(self, h, g, i as int, self.top() as int),
            i == self.size() + self.top(),
            i >= 1,
            i / 2 < self.losers_seq().len(),
    {
        proof {
            lemma_climb_start(h, g, self.losers@, self.w@, self.n as int);
        }
        self.n + self.winner
    }

    /// Plays the match above node `i`; `swap` says that the rival comes first.
    pub(crate) fn climb_step(
        &mut self,
        i: usize,
        player: usize,
        swap: bool,
        Ghost(start): Ghost<LoserTree>,
        Ghost(h): Ghost<Seq<Option<nat>>>,
        Ghost(g): Ghost<Seq<Option<nat>>>,
    ) -> (r: usize)
        requires
            old(self).climbing(&start, h, g, i as int, player as int),
            i > 1,
            swap == lt(g, old(self).losers_seq()[(i / 2) as int] as int, player as int),
            i / 2 < old(self).losers_seq().len(),
        ensures
            final(self).climbing(&start, h, g, (i / 2) as int, r as int),
            final(self).losers_seq().len() == old(self).losers_seq().len(),
            final(self).size() == old(self).size(),
    {
        let p: usize = i / 2;
        let ghost v = self.w@;
        let ghost l1 = self.losers@;
        let rival: usize = self.losers[p];
        let next: usize = if swap {
            rival
        } else {
            player
        };
        if swap {
            self.losers.set(p, player);
        }
        self.w = Ghost(v.update(p as int, next as int));
        proof {
            lemma_climb_step(
                h,
                g,
                start.w@,
                v,
                start.losers@,
                l1,
                self.n as int,
                i as int,
                player as int,
                self.w@,
                self.losers@,
                next as int,
            );
        }
        next
    }

    /// The root is reached.
    pub(crate) fn climb_done(
        &mut self,
        player: usize,
        Ghost(start): Ghost<LoserTree>,
        Ghost(h): Ghost<Seq<Option<nat>>>,
        Ghost(g): Ghost<Seq<Option<nat>>>,
    )
        requires
            old(self).climbing(&start, h, g, 1, player as int),
        ensures
            final(self).inv(g),
            final(self).size() == old(self).size(),
    {
        self.winner = player;
        proof {
            let n = self.n as int;
            let l = n + start.w@[1];
            assert forall|j: int| n <= j < 2 * n implies #[trigger] self.w@[j] == leaf(
                g.len() as int,
                j - n,
            ) by {
                assert(start.w@[j] == leaf(h.len() as int, j - n));
                if anc(j, l) {
                    lemma_leaf_anc(j, l, n);
                }
            }
            assert forall|i: int| 1 <= i < n implies #[trigger] node_ok(
                g,
                self.losers@,
                self.w@,
                i,
            ) by {}
        }
    }
}

/// A leaf on the way is the leaf itself.
proof fn lemma_leaf_anc(j: int, l: int, n: int)
    requires
        n >= 1,
        n <= j < 2 * n,
        n <= l < 2 * n,
        anc(j, l),
    ensures
        j == l,
{
    if j != l {
        lemma_anc_ge(j, l / 2);
    }
}

} // verus!
