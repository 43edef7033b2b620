//! Laws of the scripthash index as a whole.

use vstd::prelude::*;
use crate::primitives::Fk;
use crate::scripthash::{asked, asked_set, extends, last_num, law_extends_unique, lemma_creates_small, put_done, unlink_done, without, ScriptHashRecord, ScriptHashTable};
use crate::scripthash_head::key16;
use crate::scripthash_load::set_list;
use crate::scripthash_materialize::{run_asked, run_list};
use crate::scripthash_values::fks_small;
use crate::sorted_run::SortedRun;

verus! {

/// The creates of a key rise, none is null, and all are below 2^63.
pub proof fn law_creates_rise(t: &ScriptHashTable, k: Seq<u8>)
    requires
        t.wf(),
        k.len() == 16,
    ensures
        forall|i: int, j: int|
            0 <= i < j < t.creates(k).len() ==> (#[trigger] t.creates(k)[i]).0 < (
            #[trigger] t.creates(k)[j]).0,
        forall|i: int|
            0 <= i < t.creates(k).len() ==> 0 < (#[trigger] t.creates(k)[i]).0
                < 0x8000_0000_0000_0000,
{
    lemma_creates_small(t, k);
    let l = t.creates(k);
    assert forall|i: int| 0 <= i < l.len() implies 0 < (#[trigger] l[i]).0
        < 0x8000_0000_0000_0000 by {
        if i > 0 {
            assert(l[0].0 < l[i].0);
        }
    }
}

/// A create that was put above all others of its key is the last one of the key, and no
/// other key changed.
pub proof fn law_put_is_last(a: &ScriptHashTable, b: &ScriptHashTable, rec: ScriptHashRecord)
    requires
        put_done(a, b, rec),
        rec.create_tx_fk.0 > last_num(a.creates(key16(rec.scripthash@))),
    ensures
        b.creates(key16(rec.scripthash@)).len() == a.creates(key16(rec.scripthash@)).len() + 1,
        b.creates(key16(rec.scripthash@)).last() == rec.create_tx_fk,
        forall|k: Seq<u8>|
            k.len() == 16 && k != key16(rec.scripthash@) ==> #[trigger] b.creates(k) == a.creates(
                k,
            ),
{
    assert(key16(rec.scripthash@).len() == 16);
}

/// A put appends a create that is above all of its key, changes nothing for one that is not,
/// and never touches another key.
pub proof fn law_put_exact(
    a: &ScriptHashTable,
    b: &ScriptHashTable,
    rec: ScriptHashRecord,
    k: Seq<u8>,
)
    requires
        a.wf(),
        put_done(a, b, rec),
        k.len() == 16,
        rec.create_tx_fk.0 > 0,
    ensures
        rec.scripthash@.subrange(0, 16) != k ==> b.creates(k) == a.creates(k),
        rec.scripthash@.subrange(0, 16) == k && (exists|i: int|
            0 <= i < a.creates(k).len() && (#[trigger] a.creates(k)[i]).0 >= rec.create_tx_fk.0)
            ==> b.creates(k) == a.creates(k),
        rec.scripthash@.subrange(0, 16) == k && (forall|i: int|
            0 <= i < a.creates(k).len() ==> (#[trigger] a.creates(k)[i]).0 < rec.create_tx_fk.0)
            ==> b.creates(k) == a.creates(k).push(rec.create_tx_fk),
{
    let l = a.creates(k);
    law_creates_rise(a, k);
    if l.len() > 0 {
        assert forall|i: int| 0 <= i < l.len() implies (#[trigger] l[i]).0 <= l[l.len() - 1].0 by {
            if i < l.len() - 1 {
                assert(l[i].0 < l[l.len() - 1].0);
            }
        }
    }
    assert(b.creates(k) == (if k == key16(rec.scripthash@) && rec.create_tx_fk.0 > last_num(l) {
        l.push(rec.create_tx_fk)
    } else {
        l
    }));
}

/// Putting a create a second time changes nothing.
pub proof fn law_put_twice(
    a: &ScriptHashTable,
    b: &ScriptHashTable,
    c: &ScriptHashTable,
    rec: ScriptHashRecord,
)
    requires
        put_done(a, b, rec),
        put_done(b, c, rec),
    ensures
        forall|k: Seq<u8>| k.len() == 16 ==> #[trigger] c.creates(k) == b.creates(k),
{
    assert forall|k: Seq<u8>| k.len() == 16 implies #[trigger] c.creates(k) == b.creates(k) by {
        if k == key16(rec.scripthash@) {
            assert(b.creates(k) == (if rec.create_tx_fk.0 > last_num(a.creates(k)) {
                a.creates(k).push(rec.create_tx_fk)
            } else {
                a.creates(k)
            }));
        }
    }
}

/// Unlinking a create that was put above all others undoes the put.
pub proof fn law_unlink_undoes_put(
    a: &ScriptHashTable,
    b: &ScriptHashTable,
    c: &ScriptHashTable,
    rec: ScriptHashRecord,
)
    requires
        a.wf(),
        b.wf(),
        put_done(a, b, rec),
        rec.create_tx_fk.0 > last_num(a.creates(key16(rec.scripthash@))),
        unlink_done(b, c, key16(rec.scripthash@), rec.create_tx_fk),
    ensures
        forall|k: Seq<u8>| k.len() == 16 ==> #[trigger] c.creates(k) == a.creates(k),
{
    let k0 = key16(rec.scripthash@);
    law_put_is_last(a, b, rec);
    law_creates_rise(b, k0);
    let have = b.creates(k0);
    let i = choose|i: int|
        0 <= i < have.len() && #[trigger] have[i] == rec.create_tx_fk && c.creates(k0) == without(
            have,
            i,
        );
    if i < have.len() - 1 {
        assert(have[i].0 < have[have.len() - 1].0);
    }
    assert(have == a.creates(k0).push(rec.create_tx_fk));
    assert(without(have, i) =~= a.creates(k0));
    assert forall|k: Seq<u8>| k.len() == 16 implies #[trigger] c.creates(k) == a.creates(k) by {
        if k != k0 {
            assert(c.creates(k) == b.creates(k));
        }
    }
}

/// After an unlink the create is gone, and every other create of the key is there.
pub proof fn law_unlinked_is_gone(a: &ScriptHashTable, b: &ScriptHashTable, k: Seq<u8>, fk: Fk)
    requires
        a.wf(),
        k.len() == 16,
        unlink_done(a, b, k, fk),
    ensures
        !b.creates(k).contains(fk),
        forall|x: Fk| x != fk ==> (#[trigger] b.creates(k).contains(x) <==> a.creates(k).contains(
            x,
        )),
{
    law_creates_rise(a, k);
    let have = a.creates(k);
    let i = choose|i: int|
        0 <= i < have.len() && #[trigger] have[i] == fk && b.creates(k) == without(have, i);
    let rest = without(have, i);
    if rest.contains(fk) {
        let j = choose|j: int| 0 <= j < rest.len() && rest[j] == fk;
        if j < i {
            assert(rest[j] == have[j]);
            assert(have[j].0 < have[i].0);
        } else {
            assert(rest[j] == have[j + 1]);
            assert(have[i].0 < have[j + 1].0);
        }
    }
    assert forall|x: Fk| x != fk implies (#[trigger] rest.contains(x) <==> have.contains(x)) by {
        if rest.contains(x) {
            let j = choose|j: int| 0 <= j < rest.len() && rest[j] == x;
            if j < i {
                assert(have[j] == x);
            } else {
                assert(have[j + 1] == x);
            }
        }
        if have.contains(x) {
            let j = choose|j: int| 0 <= j < have.len() && have[j] == x;
            if j < i {
                assert(rest[j] == x);
            } else {
                assert(rest[j - 1] == x);
            }
        }
    }
}

/// A list is what a batch of appends makes of an empty key.
proof fn lemma_rising_extends(l: Seq<Fk>, want: Set<u64>)
    requires
        forall|i: int, j: int|
            0 <= i < j < l.len() ==> (#[trigger] l[i]).0 < (#[trigger] l[j]).0,
        forall|i: int| 0 <= i < l.len() ==> want.contains((#[trigger] l[i]).0),
        forall|x: u64| #[trigger] want.contains(x) ==> l.contains(Fk(x)) && 0 < x
            < 0x8000_0000_0000_0000,
    ensures
        extends(Seq::empty(), l, want),
{
    assert(l.subrange(0, 0) =~= Seq::<Fk>::empty());
    assert forall|i: int| 0 <= i < l.len() implies 0 < (#[trigger] l[i]).0
        < 0x8000_0000_0000_0000 by {
        assert(want.contains(l[i].0));
    }
    assert forall|i: int| 0 <= i < l.len() implies !crate::scripthash_pages::flagged(
        (#[trigger] l[i]).0,
    ) by {
        assert(l[i].0 < 0x8000_0000_0000_0000);
    }
    assert(fks_small(l));
}

/// A cold load and appends to an empty index give a key the same creates.
pub proof fn law_load_agrees_with_puts(
    recs: Seq<ScriptHashRecord>,
    k: Seq<u8>,
    loaded: Seq<Fk>,
    appended: Seq<Fk>,
)
    requires
        forall|i: int|
            0 <= i < recs.len() ==> (#[trigger] recs[i]).create_tx_fk.0 < 0x8000_0000_0000_0000,
        set_list(loaded, recs, k),
        extends(Seq::empty(), appended, asked_set(recs, k)),
    ensures
        loaded == appended,
{
    let want = asked_set(recs, k);
    assert forall|x: u64| #[trigger] want.contains(x) implies loaded.contains(Fk(x)) && 0 < x
        < 0x8000_0000_0000_0000 by {
        assert(asked(recs, k, x));
        let i = choose|i: int|
            0 <= i < recs.len() && key16((#[trigger] recs[i]).scripthash@) == k
                && recs[i].create_tx_fk.0 == x;
        assert(recs[i].create_tx_fk.0 < 0x8000_0000_0000_0000);
    }
    assert forall|i: int| 0 <= i < loaded.len() implies want.contains(
        (#[trigger] loaded[i]).0,
    ) by {
        assert(asked(recs, k, loaded[i].0));
    }
    lemma_rising_extends(loaded, want);
    law_extends_unique(Seq::empty(), loaded, appended, want);
}

/// What a materialize gives a key is settled by the records of the runs alone: not by
/// how they are spread over the runs.
pub proof fn law_runs_settle_creates(
    a: Seq<SortedRun>,
    b: Seq<SortedRun>,
    k: Seq<u8>,
    l: Seq<Fk>,
    m: Seq<Fk>,
)
    requires
        forall|x: u64| #[trigger] run_asked(a, k, x) <==> run_asked(b, k, x),
        run_list(l, a, k),
        run_list(m, b, k),
    ensures
        l == m,
{
    assert forall|i: int| 0 <= i < l.len() implies m.contains(#[trigger] l[i]) by {
        assert(run_asked(a, k, l[i].0));
        assert(m.contains(Fk(l[i].0)));
    }
    assert forall|i: int| 0 <= i < m.len() implies l.contains(#[trigger] m[i]) by {
        assert(run_asked(b, k, m[i].0));
        assert(run_asked(a, k, m[i].0));
        assert(l.contains(Fk(m[i].0)));
    }
    lemma_same_rising(l, m);
}

/// Rising lists with the same creates are equal.
proof fn lemma_same_rising(l: Seq<Fk>, m: Seq<Fk>)
    requires
        forall|i: int, j: int|
            0 <= i < j < l.len() ==> (#[trigger] l[i]).0 < (#[trigger] l[j]).0,
        forall|i: int, j: int|
            0 <= i < j < m.len() ==> (#[trigger] m[i]).0 < (#[trigger] m[j]).0,
        forall|i: int| 0 <= i < l.len() ==> m.contains(#[trigger] l[i]),
        forall|i: int| 0 <= i < m.len() ==> l.contains(#[trigger] m[i]),
    ensures
        l == m,
    decreases l.len(),
{
    if l.len() == 0 {
        if m.len() > 0 {
            assert(l.contains(m[0]));
        }
        assert(l =~= m);
    } else {
        assert(m.contains(l[0]));
        let x = l.last();
        let y = m.last();
        assert(m.contains(l[l.len() - 1]));
        let p = choose|p: int| 0 <= p < m.len() && m[p] == x;
        assert(l.contains(m[m.len() - 1]));
        let q = choose|q: int| 0 <= q < l.len() && l[q] == y;
        if p < m.len() - 1 {
            assert(m[p].0 < m[m.len() - 1].0);
        }
        if q < l.len() - 1 {
            assert(l[q].0 < l[l.len() - 1].0);
        }
        assert(x == y);
        let a = l.drop_last();
        let b = m.drop_last();
        assert forall|i: int| 0 <= i < a.len() implies b.contains(#[trigger] a[i]) by {
            assert(m.contains(l[i]));
            let j = choose|j: int| 0 <= j < m.len() && m[j] == l[i];
            assert(l[i].0 < l[l.len() - 1].0);
            assert(b[j] == a[i]);
        }
        assert forall|i: int| 0 <= i < b.len() implies a.contains(#[trigger] b[i]) by {
            assert(l.contains(m[i]));
            let j = choose|j: int| 0 <= j < l.len() && l[j] == m[i];
            assert(m[i].0 < m[m.len() - 1].0);
            assert(a[j] == b[i]);
        }
        lemma_same_rising(a, b);
        assert(l =~= a.push(x));
        assert(m =~= b.push(y));
    }
}

} // verus!
