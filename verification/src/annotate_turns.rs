//! The order of a batch of annotations: edges of one place take their turns in the order in
//! which they were given, and none is left over.

use vstd::prelude::*;
use crate::spend_annotate_uring::{busy, edges_cold, first_with, flying, freed, lemma_first_with, AbsEdge, ColdEdge, RmwMachine};

verus! {

/// Place of an edge.
pub open spec fn place_of(m: &RmwMachine, e: usize) -> u64 {
    m.work@[e as int].0
}

/// No edge before it on the list has the same place.
pub open spec fn first_of_place(m: &RmwMachine, list: Seq<usize>, i: int) -> bool {
    forall|j: int| 0 <= j < i ==> place_of(m, #[trigger] list[j]) != place_of(m, list[i])
}

/// Some pending edge has this place.
pub open spec fn place_pending(m: &RmwMachine, abs: u64) -> bool {
    exists|j: int| 0 <= j < m.pending@.len() && place_of(m, #[trigger] m.pending@[j]) == abs
}

/// Edges of one place come in order on the list.
pub open spec fn listed_in_order(m: &RmwMachine, list: Seq<usize>) -> bool {
    forall|i: int, j: int|
        0 <= i < j < list.len() && place_of(m, #[trigger] list[i]) == place_of(
            m,
            #[trigger] list[j],
        ) ==> list[i] < list[j]
}

/// A waiting edge and a pending one of the same place: the waiting one comes first, unless
/// the place is free and the pending one is its next.
pub open spec fn pair_in_order(m: &RmwMachine, i: int, j: int) -> bool {
    place_of(m, m.waiting@[i]) == place_of(m, m.pending@[j]) ==> if !busy(
        m.slots@,
        m.work@,
        place_of(m, m.pending@[j]),
    ) && first_of_place(m, m.pending@, j) {
        m.pending@[j] < m.waiting@[i]
    } else {
        m.waiting@[i] < m.pending@[j]
    }
}

/// The edge in flight comes before all others of its place.
pub open spec fn flies_first(m: &RmwMachine, s: int) -> bool {
    m.slots@[s] matches Some(x) ==> forall|e: usize| #[trigger]
        m.unsettled(e) && e != x.edge && place_of(m, e) == place_of(m, x.edge) ==> x.edge < e
}

/// Edges of one place take their turns in the order in which they were given: the one in
/// flight is the first of those that are not settled, and every waiting edge has one of its
/// place in flight or pending.
#[verifier::opaque]
pub open spec fn in_turn(m: &RmwMachine) -> bool {
    &&& forall|s: int| 0 <= s < m.slots@.len() ==> #[trigger] flies_first(m, s)
    &&& listed_in_order(m, m.pending@)
    &&& listed_in_order(m, m.waiting@)
    &&& forall|i: int, j: int|
        0 <= i < m.waiting@.len() && 0 <= j < m.pending@.len() ==> #[trigger] pair_in_order(m, i, j)
    &&& forall|i: int|
        0 <= i < m.waiting@.len() ==> busy(
            m.slots@,
            m.work@,
            place_of(m, #[trigger] m.waiting@[i]),
        ) || place_pending(m, place_of(m, m.waiting@[i]))
}

/// The edge is the first of its place that is not settled.
pub open spec fn next_of_place(m: &RmwMachine, e: usize) -> bool {
    forall|f: usize| #[trigger]
        m.unsettled(f) && f != e && place_of(m, f) == place_of(m, e) ==> e < f
}

/// A new batch is in order.
pub(crate) proof fn lemma_turn_start(m: &RmwMachine)
    requires
        m.pending@ == Seq::new(m.work@.len(), |i: int| i as usize),
        m.work@.len() <= usize::MAX,
        m.waiting@.len() == 0,
        forall|i: int| 0 <= i < m.slots@.len() ==> (#[trigger] m.slots@[i]) is None,
    ensures
        in_turn(m),
{
    reveal(in_turn);
    assert forall|s: int| 0 <= s < m.slots@.len() implies #[trigger] flies_first(m, s) by {
        assert(m.slots@[s] is None);
    }
}

/// An edge that is not settled is on a list or in flight.
proof fn lemma_where(m: &RmwMachine, e: usize)
    requires
        m.unsettled(e),
    ensures
        (exists|j: int| 0 <= j < m.pending@.len() && #[trigger] m.pending@[j] == e) || (exists|
            j: int,
        |
            0 <= j < m.waiting@.len() && #[trigger] m.waiting@[j] == e) || flying(m.slots@, e),
{
    if m.pending@.contains(e) {
        let j = choose|j: int| 0 <= j < m.pending@.len() && m.pending@[j] == e;
        assert(m.pending@[j] == e);
    } else if m.waiting@.contains(e) {
        let j = choose|j: int| 0 <= j < m.waiting@.len() && m.waiting@[j] == e;
        assert(m.waiting@[j] == e);
    }
}

/// The pending edge at `k`, whose place is free and none of whose place is before it, is the
/// next of its place.
pub(crate) proof fn lemma_next(m: &RmwMachine, k: int)
    requires
        m.inv(),
        in_turn(m),
        0 <= k < m.pending@.len(),
        !busy(m.slots@, m.work@, place_of(m, m.pending@[k])),
        forall|j: int|
            0 <= j < k ==> busy(m.slots@, m.work@, place_of(m, #[trigger] m.pending@[j])),
    ensures
        next_of_place(m, m.pending@[k]),
        first_of_place(m, m.pending@, k),
{
    reveal(in_turn);
    let e = m.pending@[k];
    assert(first_of_place(m, m.pending@, k)) by {
        assert forall|j: int| 0 <= j < k implies place_of(m, #[trigger] m.pending@[j]) != place_of(
            m,
            e,
        ) by {}
    }
    assert forall|f: usize| #[trigger]
        m.unsettled(f) && f != e && place_of(m, f) == place_of(m, e) implies e < f by {
        lemma_where(m, f);
        if exists|j: int| 0 <= j < m.pending@.len() && #[trigger] m.pending@[j] == f {
            let j = choose|j: int| 0 <= j < m.pending@.len() && #[trigger] m.pending@[j] == f;
            if j < k {
                assert(place_of(m, m.pending@[j]) != place_of(m, e));
            }
            assert(m.pending@[k] < m.pending@[j]);
        } else if exists|j: int| 0 <= j < m.waiting@.len() && #[trigger] m.waiting@[j] == f {
            let j = choose|j: int| 0 <= j < m.waiting@.len() && #[trigger] m.waiting@[j] == f;
            assert(pair_in_order(m, j, k));
        } else {
            let i = choose|i: int|
                0 <= i < m.slots@.len() && (#[trigger] m.slots@[i]) is Some && m.slots@[i]->0.edge
                    == f;
            assert(m.slots@[i] is Some);
            assert(busy(m.slots@, m.work@, place_of(m, e)));
        }
    }
}

/// An edge that starts keeps the order.
#[verifier::rlimit(40)]
pub(crate) proof fn lemma_turn_some(a: &RmwMachine, b: &RmwMachine, slot: int, k: int)
    requires
        a.inv(),
        in_turn(a),
        0 <= slot < a.slots@.len(),
        0 <= k < a.pending@.len(),
        a.slots@[slot] is None,
        b.work@ == a.work@,
        b.slots@[slot] is Some,
        b.slots@[slot]->0.edge == a.pending@[k],
        b.slots@ == a.slots@.update(slot, b.slots@[slot]),
        !busy(a.slots@, a.work@, place_of(a, a.pending@[k])),
        forall|j: int|
            0 <= j < k ==> busy(a.slots@, a.work@, place_of(a, #[trigger] a.pending@[j])),
        b.pending@ == a.pending@.subrange(k + 1, a.pending@.len() as int),
        b.waiting@ == a.waiting@ + a.pending@.subrange(0, k),
        forall|e: usize| #[trigger] b.unsettled(e) <==> a.unsettled(e),
    ensures
        in_turn(b),
{
    lemma_next(a, k);
    reveal(in_turn);
    let e = a.pending@[k];
    let abs = place_of(a, e);
    let (p, w) = (a.pending@, a.waiting@);
    let (q, v) = (b.pending@, b.waiting@);
    assert forall|x: u64| #[trigger] busy(b.slots@, b.work@, x) <==> busy(a.slots@, a.work@, x) || x
        == abs by {
        if busy(b.slots@, b.work@, x) {
            let i = choose|i: int|
                0 <= i < b.slots@.len() && (#[trigger] b.slots@[i]) is Some
                    && b.work@[b.slots@[i]->0.edge as int].0 == x;
            if i != slot {
                assert(a.slots@[i] is Some);
            }
        }
        if busy(a.slots@, a.work@, x) {
            let i = choose|i: int|
                0 <= i < a.slots@.len() && (#[trigger] a.slots@[i]) is Some
                    && a.work@[a.slots@[i]->0.edge as int].0 == x;
            assert(b.slots@[i] is Some);
        }
        if x == abs {
            assert(b.slots@[slot] is Some);
        }
    }
    assert forall|s: int| 0 <= s < b.slots@.len() implies #[trigger] flies_first(b, s) by {
        if s != slot {
            assert(flies_first(a, s));
            assert(b.slots@[s] == a.slots@[s]);
            if let Some(x) = b.slots@[s] {
                assert forall|f: usize| #[trigger]
                    b.unsettled(f) && f != x.edge && place_of(b, f) == place_of(b, x.edge) implies
                    x.edge < f by {
                    assert(a.unsettled(f));
                }
            }
        } else {
            assert forall|f: usize| #[trigger]
                b.unsettled(f) && f != e && place_of(b, f) == place_of(b, e) implies e < f by {
                assert(a.unsettled(f));
            }
        }
    }
    assert(listed_in_order(b, q)) by {
        assert forall|i: int, j: int|
            0 <= i < j < q.len() && place_of(b, #[trigger] q[i]) == place_of(
                b,
                #[trigger] q[j],
            ) implies q[i] < q[j] by {
            assert(q[i] == p[k + 1 + i] && q[j] == p[k + 1 + j]);
        }
    }
    assert(listed_in_order(b, v)) by {
        assert forall|i: int, j: int|
            0 <= i < j < v.len() && place_of(b, #[trigger] v[i]) == place_of(
                b,
                #[trigger] v[j],
            ) implies v[i] < v[j] by {
            if j < w.len() {
                assert(v[i] == w[i] && v[j] == w[j]);
            } else {
                assert(v[j] == p[j - w.len()]);
                if i < w.len() {
                    assert(v[i] == w[i]);
                    assert(pair_in_order(a, i, j - w.len()));
                } else {
                    assert(v[i] == p[i - w.len()]);
                }
            }
        }
    }
    assert forall|i: int, j: int| 0 <= i < v.len() && 0 <= j < q.len() implies
        #[trigger] pair_in_order(b, i, j) by {
        let l = k + 1 + j;
        assert(q[j] == p[l]);
        let x = place_of(b, q[j]);
        if place_of(b, v[i]) == x {
            if i >= w.len() {
                assert(v[i] == p[i - w.len()]);
                assert(busy(a.slots@, a.work@, place_of(a, p[i - w.len()])));
                assert(p[i - w.len()] < p[l]);
                assert(busy(b.slots@, b.work@, x));
            } else {
                assert(v[i] == w[i]);
                assert(pair_in_order(a, i, l));
                if x == abs {
                    assert(!first_of_place(a, p, l)) by {
                        assert(place_of(a, p[k]) == place_of(a, p[l]));
                    }
                    assert(busy(b.slots@, b.work@, x));
                } else if !busy(a.slots@, a.work@, x) {
                    assert(first_of_place(b, q, j) == first_of_place(a, p, l)) by {
                        if first_of_place(a, p, l) {
                            assert forall|m: int| 0 <= m < j implies place_of(b, #[trigger] q[m])
                                != place_of(b, q[j]) by {
                                assert(q[m] == p[k + 1 + m]);
                            }
                        }
                        if first_of_place(b, q, j) {
                            assert forall|m: int| 0 <= m < l implies place_of(a, #[trigger] p[m])
                                != place_of(a, p[l]) by {
                                if m > k {
                                    assert(q[m - k - 1] == p[m]);
                                } else if m < k {
                                    assert(busy(a.slots@, a.work@, place_of(a, p[m])));
                                }
                            }
                        }
                    }
                    assert(!busy(b.slots@, b.work@, x));
                } else {
                    assert(busy(b.slots@, b.work@, x));
                }
            }
        }
    }
    assert forall|i: int| 0 <= i < v.len() implies busy(
        b.slots@,
        b.work@,
        place_of(b, #[trigger] v[i]),
    ) || place_pending(b, place_of(b, v[i])) by {
        if i < w.len() {
            assert(v[i] == w[i]);
            let x = place_of(a, w[i]);
            if !busy(b.slots@, b.work@, x) {
                assert(!busy(a.slots@, a.work@, x));
                let j = choose|j: int| 0 <= j < p.len() && place_of(a, #[trigger] p[j]) == x;
                if j < k {
                    assert(busy(a.slots@, a.work@, place_of(a, p[j])));
                }
                assert(j > k);
                assert(q[j - k - 1] == p[j]);
            }
        } else {
            assert(v[i] == p[i - w.len()]);
            assert(busy(a.slots@, a.work@, place_of(a, p[i - w.len()])));
            assert(busy(b.slots@, b.work@, place_of(a, p[i - w.len()])));
        }
    }
}

/// Where all pending places are in use, waiting for them keeps the order.
pub(crate) proof fn lemma_turn_none(a: &RmwMachine, b: &RmwMachine)
    requires
        a.inv(),
        in_turn(a),
        b.work@ == a.work@,
        b.slots@ == a.slots@,
        forall|j: int|
            0 <= j < a.pending@.len() ==> busy(
                a.slots@,
                a.work@,
                place_of(a, #[trigger] a.pending@[j]),
            ),
        b.pending@.len() == 0,
        b.waiting@ == a.waiting@ + a.pending@,
        forall|e: usize| #[trigger] b.unsettled(e) <==> a.unsettled(e),
    ensures
        in_turn(b),
{
    reveal(in_turn);
    let (p, w) = (a.pending@, a.waiting@);
    let v = b.waiting@;
    assert forall|s: int| 0 <= s < b.slots@.len() implies #[trigger] flies_first(b, s) by {
        assert(flies_first(a, s));
        if let Some(x) = b.slots@[s] {
            assert forall|f: usize| #[trigger]
                b.unsettled(f) && f != x.edge && place_of(b, f) == place_of(b, x.edge) implies
                x.edge < f by {
                assert(a.unsettled(f));
            }
        }
    }
    assert(listed_in_order(b, v)) by {
        assert forall|i: int, j: int|
            0 <= i < j < v.len() && place_of(b, #[trigger] v[i]) == place_of(
                b,
                #[trigger] v[j],
            ) implies v[i] < v[j] by {
            if j < w.len() {
                assert(v[i] == w[i] && v[j] == w[j]);
            } else {
                assert(v[j] == p[j - w.len()]);
                if i < w.len() {
                    assert(v[i] == w[i]);
                    assert(pair_in_order(a, i, j - w.len()));
                } else {
                    assert(v[i] == p[i - w.len()]);
                }
            }
        }
    }
    assert forall|i: int| 0 <= i < v.len() implies busy(
        b.slots@,
        b.work@,
        place_of(b, #[trigger] v[i]),
    ) || place_pending(b, place_of(b, v[i])) by {
        if i < w.len() {
            assert(v[i] == w[i]);
            if place_pending(a, place_of(a, w[i])) {
                let j = choose|j: int|
                    0 <= j < p.len() && place_of(a, #[trigger] p[j]) == place_of(a, w[i]);
                assert(busy(a.slots@, a.work@, place_of(a, p[j])));
            }
        } else {
            assert(v[i] == p[i - w.len()]);
        }
    }
}

/// Other bytes and another phase in a slot change no turn.
pub(crate) proof fn lemma_turn_same(a: &RmwMachine, b: &RmwMachine)
    requires
        in_turn(a),
        b.work@ == a.work@,
        b.pending@ == a.pending@,
        b.waiting@ == a.waiting@,
        b.slots@.len() == a.slots@.len(),
        forall|i: int|
            0 <= i < a.slots@.len() ==> ((#[trigger] b.slots@[i]) is Some <==> a.slots@[i] is Some)
                && (b.slots@[i] is Some ==> b.slots@[i]->0.edge == a.slots@[i]->0.edge),
    ensures
        in_turn(b),
{
    reveal(in_turn);
    assert forall|x: u64| #[trigger] busy(b.slots@, b.work@, x) <==> busy(a.slots@, a.work@, x) by {
        if busy(b.slots@, b.work@, x) {
            let i = choose|i: int|
                0 <= i < b.slots@.len() && (#[trigger] b.slots@[i]) is Some
                    && b.work@[b.slots@[i]->0.edge as int].0 == x;
            assert(a.slots@[i] is Some);
        }
        if busy(a.slots@, a.work@, x) {
            let i = choose|i: int|
                0 <= i < a.slots@.len() && (#[trigger] a.slots@[i]) is Some
                    && a.work@[a.slots@[i]->0.edge as int].0 == x;
            assert(b.slots@[i] is Some);
        }
    }
    assert forall|e: usize| #[trigger] b.unsettled(e) <==> a.unsettled(e) by {
        if flying(b.slots@, e) {
            let i = choose|i: int|
                0 <= i < b.slots@.len() && (#[trigger] b.slots@[i]) is Some && b.slots@[i]->0.edge
                    == e;
            assert(a.slots@[i] is Some);
        }
        if flying(a.slots@, e) {
            let i = choose|i: int|
                0 <= i < a.slots@.len() && (#[trigger] a.slots@[i]) is Some && a.slots@[i]->0.edge
                    == e;
            assert(b.slots@[i] is Some);
        }
    }
    assert forall|s: int| 0 <= s < b.slots@.len() implies #[trigger] flies_first(b, s) by {
        assert(flies_first(a, s));
        if let Some(x) = b.slots@[s] {
            assert forall|f: usize| #[trigger]
                b.unsettled(f) && f != x.edge && place_of(b, f) == place_of(b, x.edge) implies
                x.edge < f by {
                assert(a.unsettled(f));
            }
        }
    }
    assert(listed_in_order(b, b.pending@)) by {
        assert(listed_in_order(a, a.pending@));
    }
    assert(listed_in_order(b, b.waiting@)) by {
        assert(listed_in_order(a, a.waiting@));
    }
    assert forall|i: int, j: int|
        0 <= i < b.waiting@.len() && 0 <= j < b.pending@.len() implies #[trigger] pair_in_order(
        b,
        i,
        j,
    ) by {
        assert(pair_in_order(a, i, j));
        assert(first_of_place(b, b.pending@, j) == first_of_place(a, a.pending@, j));
    }
    assert forall|i: int| 0 <= i < b.waiting@.len() implies busy(
        b.slots@,
        b.work@,
        place_of(b, #[trigger] b.waiting@[i]),
    ) || place_pending(b, place_of(b, b.waiting@[i])) by {
        let x = place_of(a, a.waiting@[i]);
        if place_pending(a, x) {
            let j = choose|j: int|
                0 <= j < a.pending@.len() && place_of(a, #[trigger] a.pending@[j]) == x;
            assert(place_of(b, b.pending@[j]) == x);
        }
    }
}

/// A place that comes free and lets its next edge come keeps the order.
#[verifier::rlimit(40)]
pub proof fn law_turn_freed(a: &RmwMachine, b: &RmwMachine, slot: int, added: Seq<ColdEdge>)
    requires
        a.inv(),
        in_turn(a),
        0 <= slot < 128,
        a.slots@[slot] is Some,
        freed(*a, *b, slot, added, true),
    ensures
        in_turn(b),
{
    crate::spend_annotate_uring::law_freed(*a, *b, slot, added, true);
    reveal(in_turn);
    let edge = a.slots@[slot]->0.edge;
    let abs = place_of(a, edge);
    let (p, w) = (a.pending@, a.waiting@);
    let (q, v) = (b.pending@, b.waiting@);
    let k = first_with(w, a.work@, abs, 0);
    lemma_first_with(w, a.work@, abs, 0);
    lemma_first_before(w, a.work@, abs, 0);
    let moved = k < w.len();
    let d: int = if moved {
        1
    } else {
        0
    };
    assert(busy(a.slots@, a.work@, abs));
    assert forall|x: u64| #[trigger] busy(b.slots@, b.work@, x) <==> busy(a.slots@, a.work@, x) && x
        != abs by {
        if busy(b.slots@, b.work@, x) {
            let i = choose|i: int|
                0 <= i < b.slots@.len() && (#[trigger] b.slots@[i]) is Some
                    && b.work@[b.slots@[i]->0.edge as int].0 == x;
            assert(i != slot);
            assert(a.slots@[i] is Some);
            if i < slot {
                assert(a.work@[a.slots@[i]->0.edge as int].0
                    != a.work@[a.slots@[slot]->0.edge as int].0);
            } else {
                assert(a.work@[a.slots@[slot]->0.edge as int].0
                    != a.work@[a.slots@[i]->0.edge as int].0);
            }
        }
        if busy(a.slots@, a.work@, x) && x != abs {
            let i = choose|i: int|
                0 <= i < a.slots@.len() && (#[trigger] a.slots@[i]) is Some
                    && a.work@[a.slots@[i]->0.edge as int].0 == x;
            assert(b.slots@[i] is Some);
        }
    }
    assert forall|s: int| 0 <= s < b.slots@.len() implies #[trigger] flies_first(b, s) by {
        assert(flies_first(a, s));
        if let Some(x) = b.slots@[s] {
            assert(a.slots@[s] == b.slots@[s]);
            assert forall|f: usize| #[trigger]
                b.unsettled(f) && f != x.edge && place_of(b, f) == place_of(b, x.edge) implies
                x.edge < f by {
                assert(a.unsettled(f));
            }
        }
    }
    // Where the edges of both lists came from.
    assert forall|j: int| d <= j < q.len() implies #[trigger] q[j] == p[j - d] by {}
    assert forall|i: int| 0 <= i < v.len() implies #[trigger] v[i] == w[if moved && i >= k {
        i + 1
    } else {
        i
    }] by {}
    assert(listed_in_order(b, q)) by {
        assert forall|i: int, j: int|
            0 <= i < j < q.len() && place_of(b, #[trigger] q[i]) == place_of(
                b,
                #[trigger] q[j],
            ) implies q[i] < q[j] by {
            assert(q[j] == p[j - d]);
            if i >= d {
                assert(q[i] == p[i - d]);
                assert(p[i - d] < p[j - d]);
            } else {
                assert(q[i] == w[k]);
                assert(pair_in_order(a, k, j - d));
            }
        }
    }
    assert(listed_in_order(b, v)) by {
        assert forall|i: int, j: int|
            0 <= i < j < v.len() && place_of(b, #[trigger] v[i]) == place_of(
                b,
                #[trigger] v[j],
            ) implies v[i] < v[j] by {
            let i2 = if moved && i >= k {
                i + 1
            } else {
                i
            };
            let j2 = if moved && j >= k {
                j + 1
            } else {
                j
            };
            assert(v[i] == w[i2] && v[j] == w[j2]);
            assert(w[i2] < w[j2]);
        }
    }
    assert forall|i: int, j: int| 0 <= i < v.len() && 0 <= j < q.len() implies
        #[trigger] pair_in_order(b, i, j) by {
        let i2 = if moved && i >= k {
            i + 1
        } else {
            i
        };
        assert(v[i] == w[i2]);
        let x = place_of(b, q[j]);
        if place_of(b, v[i]) == x {
            if x == abs {
                assert(moved);
                assert(i2 > k) by {
                    if i2 < k {
                        assert(a.work@[w[i2] as int].0 != abs);
                    }
                }
                if j == 0 {
                    assert(q[0] == w[k]);
                    assert(w[k] < w[i2]);
                    assert(first_of_place(b, q, 0));
                } else {
                    assert(q[j] == p[j - d]);
                    assert(pair_in_order(a, i2, j - d));
                    assert(!first_of_place(b, q, j)) by {
                        assert(place_of(b, q[0]) == place_of(b, q[j]));
                    }
                }
            } else {
                if moved {
                    assert(place_of(b, q[0]) == abs);
                }
                assert(j >= d);
                assert(q[j] == p[j - d]);
                assert(pair_in_order(a, i2, j - d));
                assert(first_of_place(b, q, j) == first_of_place(a, p, j - d)) by {
                    if first_of_place(a, p, j - d) {
                        assert forall|m: int| 0 <= m < j implies place_of(b, #[trigger] q[m])
                            != place_of(b, q[j]) by {
                            if m >= d {
                                assert(q[m] == p[m - d]);
                            }
                        }
                    }
                    if first_of_place(b, q, j) {
                        assert forall|m: int| 0 <= m < j - d implies place_of(a, #[trigger] p[m])
                            != place_of(a, p[j - d]) by {
                            assert(q[m + d] == p[m]);
                        }
                    }
                }
                assert(busy(b.slots@, b.work@, x) == busy(a.slots@, a.work@, x));
            }
        }
    }
    assert forall|i: int| 0 <= i < v.len() implies busy(
        b.slots@,
        b.work@,
        place_of(b, #[trigger] v[i]),
    ) || place_pending(b, place_of(b, v[i])) by {
        let i2 = if moved && i >= k {
            i + 1
        } else {
            i
        };
        assert(v[i] == w[i2]);
        let x = place_of(a, w[i2]);
        if x == abs {
            if !moved {
                assert(a.work@[w[i2] as int].0 != abs);
            }
            assert(q[0] == w[k]);
        } else if busy(a.slots@, a.work@, x) {
            assert(busy(b.slots@, b.work@, x));
        } else {
            let j = choose|j: int| 0 <= j < p.len() && place_of(a, #[trigger] p[j]) == x;
            assert(q[j + d] == p[j]);
        }
    }
}

/// No edge before the first with a place has it.
proof fn lemma_first_before(list: Seq<usize>, work: Seq<AbsEdge>, abs: u64, i: int)
    requires
        0 <= i <= list.len(),
    ensures
        forall|j: int|
            i <= j < first_with(list, work, abs, i) ==> work[(#[trigger] list[j]) as int].0 != abs,
    decreases list.len() - i,
{
    if i < list.len() && work[list[i] as int].0 != abs {
        lemma_first_before(list, work, abs, i + 1);
    }
}

/// A batch that kept its order leaves nothing over: with nothing in flight and nothing
/// pending no edge waits, and only those that were cold before are handed back.
pub proof fn law_none_left(m: &RmwMachine)
    requires
        m.inv(),
        in_turn(m),
        m.pending@.len() == 0,
        forall|i: int| 0 <= i < 128 ==> (#[trigger] m.slots@[i]) is None,
    ensures
        m.waiting@.len() == 0,
        m.cold@ + edges_cold(m.pending@, m.work@) + edges_cold(m.waiting@, m.work@) == m.cold@,
{
    reveal(in_turn);
    if m.waiting@.len() > 0 {
        let x = place_of(m, m.waiting@[0]);
        assert(!busy(m.slots@, m.work@, x));
        assert(place_pending(m, x));
    }
    assert(m.cold@ + edges_cold(m.pending@, m.work@) + edges_cold(m.waiting@, m.work@)
        =~= m.cold@);
}

} // verus!
