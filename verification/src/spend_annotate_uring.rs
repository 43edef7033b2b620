//! Batches of spend annotations in the body of the transaction table.
//!
//! What an output holds of its spenders is nine bytes: a number and flags. A batch
//! either knows the nine bytes of each output and only writes, or reads them,
//! decides and writes back. In the second way a machine keeps the reads and writes
//! in flight, at most one for each place in the body.

use vstd::prelude::*;
use std::collections::VecDeque;
use crate::annotate_laws::{all_within, annotates, cold_edges_of, law_annotation, law_batch_by_edge, within, writes_of};
use crate::annotate_turns::{in_turn, law_none_left, law_turn_freed, lemma_next, lemma_turn_none, lemma_turn_same, lemma_turn_some, lemma_turn_start, next_of_place};
use crate::bytes::{get_u64, le64, lemma_le_nat_of_seq, lemma_p256_values, u64_at, u64_to_array};
use crate::error::StoreError;
use crate::point_table::{already_sole, meta_after, nodes_after, put_spend_on_create, SpenderMeta};
use crate::primitives::Fk;
use crate::sorting::{lemma_same_items, sort_ranked, Ranked};
use crate::spender_table::{linked, SpenderNode, SpenderTable};

verus! {

/// Bytes of an annotation.
pub const META_LEN: usize = 9;

/// Reads and writes in flight.
pub const MAX_SLOTS: usize = 128;

/// Flag of an output with a list of spenders.
pub const MULTI_SPENDER: u8 = 1;

/// Place of the annotation, create, output, spending transaction.
pub type AbsEdge = (u64, Fk, u32, Fk);

/// Create, output, spending transaction.
pub type ColdEdge = (Fk, u32, Fk);

/// How prepared annotations are written.
#[derive(Debug, Clone, Copy, PartialEq, Eq, Structural)]
pub enum SpendAnnBackend {
    /// By a submission ring.
    Uring,
    /// By positional writes.
    Pwrite,
}

/// The nine bytes of an annotation.
pub open spec fn meta_bytes(field: Fk, flags: u8) -> Seq<u8> {
    le64(field.0).push(flags)
}

/// The number in the nine bytes.
pub open spec fn meta_field(b: Seq<u8>) -> Fk {
    Fk(u64_at(b, 0))
}

/// The flags say that there is a list.
pub open spec fn is_multi(flags: u8) -> bool {
    flags & MULTI_SPENDER != 0
}

/// What the number and the flags say.
pub open spec fn meta_of(field: Fk, flags: u8) -> SpenderMeta {
    SpenderMeta { multi: is_multi(flags), field }
}

/// The flags with the mark of a list set or cleared; other flags stay.
pub open spec fn flags_with(flags: u8, multi: bool) -> u8 {
    if multi {
        flags | MULTI_SPENDER
    } else {
        flags & 0xfe
    }
}

/// What to write (`None` for nothing).
pub open spec fn annotation(field: Fk, flags: u8, spend: Fk, nodes: Seq<SpenderNode>) -> Option<
    Seq<u8>,
> {
    let m = meta_of(field, flags);
    if already_sole(m, spend) {
        None
    } else {
        let m2 = meta_after(m, spend, nodes);
        Some(meta_bytes(m2.field, flags_with(flags, m2.multi)))
    }
}

/// The nine bytes give back the number and the flags, and the flags give back the
/// mark.
pub proof fn law_meta_roundtrip(field: Fk, flags: u8, multi: bool)
    ensures
        meta_bytes(field, flags).len() == 9,
        meta_field(meta_bytes(field, flags)) == field,
        meta_bytes(field, flags)[8] == flags,
        is_multi(flags_with(flags, multi)) == multi,
{
    lemma_p256_values();
    lemma_le_nat_of_seq(field.0 as nat, 8);
    assert(meta_bytes(field, flags).subrange(0, 8) =~= le64(field.0));
    assert((flags | 1) & 1 != 0 && (flags & 0xfe) & 1 == 0) by (bit_vector);
}

/// What to do with an annotation.
#[derive(Clone, Copy, Debug, PartialEq, Eq)]
pub enum AnnotateOp {
    Skip,
    Write([u8; 9]),
}

/// The bytes that an operation writes.
pub open spec fn op_bytes(op: AnnotateOp) -> Option<Seq<u8>> {
    match op {
        AnnotateOp::Skip => None,
        AnnotateOp::Write(b) => Some(b@),
    }
}

/// The nine bytes of an annotation.
fn meta_array(field: Fk, flags: u8) -> (r: [u8; 9])
    ensures
        r@ == meta_bytes(field, flags),
{
    let f: [u8; 8] = u64_to_array(field.0);
    let r: [u8; 9] = [f[0], f[1], f[2], f[3], f[4], f[5], f[6], f[7], flags];
    proof {
        assert(r@ =~= f@.push(flags));
    }
    r
}

/// Decides what to write for one more spender, and adds list nodes where the output
/// has more than one.
pub fn decide_annotate(field: Fk, flags: u8, spend_fk: Fk, spenders: &mut SpenderTable) -> (r:
    Result<AnnotateOp, StoreError>)
    requires
        old(spenders).nodes@.len() + 2 <= u64::MAX,
    ensures
        match r {
            Ok(op) => {
                &&& spend_fk.0 != 0
                &&& op_bytes(op) == annotation(field, flags, spend_fk, old(spenders).nodes@)
                &&& final(spenders).nodes@ == nodes_after(
                    meta_of(field, flags),
                    spend_fk,
                    old(spenders).nodes@,
                )
            },
            Err(e) => spend_fk.0 == 0 && e == StoreError::InvalidFk && *final(spenders) == *old(
                spenders,
            ),
        },
        r is Ok && linked(old(spenders).nodes@) && within(field, flags, old(spenders).nodes@)
            ==> match r->Ok_0 {
            AnnotateOp::Skip => flags % 2 == 0 && field == spend_fk && final(spenders).nodes@
                == old(spenders).nodes@,
            AnnotateOp::Write(b) => !(flags % 2 == 0 && field == spend_fk) && annotates(
                b@,
                field,
                flags,
                spend_fk,
                old(spenders).nodes@,
                final(spenders).nodes@,
            ),
        },
{
    proof {
        if spend_fk.0 != 0 && linked(spenders.nodes@) && within(field, flags, spenders.nodes@) {
            law_annotation(field, flags, spend_fk, spenders.nodes@);
        }
    }
    let meta = SpenderMeta { multi: flags & MULTI_SPENDER != 0, field };
    match put_spend_on_create(spenders, Fk(1), meta, spend_fk)? {
        None => Ok(AnnotateOp::Skip),
        Some(m2) => {
            let f: u8 = if m2.multi {
                flags | MULTI_SPENDER
            } else {
                flags & 0xfe
            };
            Ok(AnnotateOp::Write(meta_array(m2.field, f)))
        },
    }
}

/// A place with its number in the batch.
#[derive(Clone, Copy, Debug, PartialEq, Eq, Structural)]
struct Place {
    abs: u64,
    i: usize,
}

impl Ranked for Place {
    closed spec fn rank(&self) -> nat {
        (self.abs as nat) * 0x1_0000_0000_0000_0000 + self.i as nat
    }

    fn rank_le(&self, other: &Self) -> (r: bool) {
        self.abs < other.abs || (self.abs == other.abs && self.i <= other.i)
    }
}

/// The numbers of the edges by place, and by number for equal places.
pub open spec fn is_order(edges: Seq<AbsEdge>, order: Seq<usize>) -> bool {
    &&& order.len() == edges.len()
    &&& forall|k: int| 0 <= k < order.len() ==> (#[trigger] order[k]) < edges.len()
    &&& forall|a: int, b: int|
        0 <= a < b < order.len() ==> edges[(#[trigger] order[a]) as int].0 < edges[(
        #[trigger] order[b]) as int].0 || (edges[order[a] as int].0 == edges[order[b] as int].0
            && order[a] < order[b])
}

/// The edges by place.
fn order_edges(edges: &[AbsEdge]) -> (r: Vec<usize>)
    ensures
        is_order(edges@, r@),
{
    let mut v: Vec<Place> = Vec::new();
    let mut i: usize = 0;
    while i < edges.len()
        invariant
            i <= edges@.len(),
            v@.len() == i,
            forall|j: int|
                0 <= j < i ==> (#[trigger] v@[j]).i == j && v@[j].abs == edges@[j].0,
        decreases edges@.len() - i,
    {
        v.push(Place { abs: edges[i].0, i });
        i += 1;
    }
    let s = sort_ranked(&v);
    let mut out: Vec<usize> = Vec::new();
    i = 0;
    while i < s.len()
        invariant
            i <= s@.len(),
            out@.len() == i,
            forall|j: int| 0 <= j < i ==> (#[trigger] out@[j]) == s@[j].i,
        decreases s@.len() - i,
    {
        out.push(s[i].i);
        i += 1;
    }
    proof {
        assert forall|k: int| 0 <= k < out@.len() implies (#[trigger] out@[k]) < edges@.len()
            && s@[k].abs == edges@[out@[k] as int].0 by {
            let j = lemma_same_items(s@, v@, k);
            assert(v@[j].i == j);
        }
        lemma_distinct_places(v@, s@);
        assert forall|a: int, b: int| 0 <= a < b < out@.len() implies edges@[(
        #[trigger] out@[a]) as int].0 < edges@[(#[trigger] out@[b]) as int].0 || (edges@[out@[a] as int].0
            == edges@[out@[b] as int].0 && out@[a] < out@[b]) by {
            assert(s@[a].rank() <= s@[b].rank());
            assert(s@[a].i != s@[b].i);
            assert(out@[a] < edges@.len() && out@[b] < edges@.len());
        }
    }
    out
}

proof fn lemma_distinct_places(v: Seq<Place>, s: Seq<Place>)
    requires
        v.to_multiset() == s.to_multiset(),
        v.len() == s.len(),
        forall|j: int| 0 <= j < v.len() ==> (#[trigger] v[j]).i == j,
    ensures
        forall|a: int, b: int|
            0 <= a < b < s.len() ==> (#[trigger] s[a]).i != (#[trigger] s[b]).i,
{
    assert(v.no_duplicates()) by {
        assert forall|a: int, b: int| 0 <= a < v.len() && 0 <= b < v.len() && a != b implies v[a]
            != v[b] by {
            assert(v[a].i == a && v[b].i == b);
        }
    }
    v.lemma_multiset_has_no_duplicates();
    s.lemma_multiset_has_no_duplicates_conv();
    assert forall|a: int, b: int| 0 <= a < b < s.len() implies (#[trigger] s[a]).i != (
    #[trigger] s[b]).i by {
        let ja = lemma_same_items(s, v, a);
        let jb = lemma_same_items(s, v, b);
        assert(v[ja].i == ja && v[jb].i == jb);
        assert(s[a] != s[b]);
    }
}

/// A prepared write.
#[derive(Clone, Copy, Debug, PartialEq, Eq)]
pub struct MetaWrite {
    pub abs: u64,
    pub create_fk: Fk,
    pub vout: u32,
    pub spend_fk: Fk,
    pub meta: [u8; 9],
}

/// A prepared write as a plain value.
pub open spec fn write_view(w: MetaWrite) -> (AbsEdge, Seq<u8>) {
    ((w.abs, w.create_fk, w.vout, w.spend_fk), w.meta@)
}

/// Prepared writes as plain values.
pub open spec fn writes_view(w: Seq<MetaWrite>) -> Seq<(AbsEdge, Seq<u8>)> {
    w.map_values(|x: MetaWrite| write_view(x))
}

/// List nodes, writes and edges that cannot be annotated here.
pub ghost struct BatchPlan {
    pub nodes: Seq<SpenderNode>,
    pub writes: Seq<(AbsEdge, Seq<u8>)>,
    pub cold: Seq<ColdEdge>,
}

/// The nine bytes are not all in the body.
pub open spec fn out_of_body(abs: u64, body_pub: u64) -> bool {
    abs + 9 > body_pub
}

/// An edge without its place.
pub open spec fn cold_of(e: AbsEdge) -> ColdEdge {
    (e.1, e.2, e.3)
}

/// What the first `k` edges in order come to.
pub open spec fn batch_plan(
    edges: Seq<AbsEdge>,
    known: Seq<(Fk, u8)>,
    order: Seq<usize>,
    k: int,
    body_pub: u64,
    nodes: Seq<SpenderNode>,
) -> BatchPlan
    decreases k,
{
    if k <= 0 {
        BatchPlan { nodes, writes: Seq::empty(), cold: Seq::empty() }
    } else {
        let p = batch_plan(edges, known, order, k - 1, body_pub, nodes);
        let i = order[k - 1] as int;
        let e = edges[i];
        if out_of_body(e.0, body_pub) {
            BatchPlan { cold: p.cold.push(cold_of(e)), ..p }
        } else {
            let (field, flags) = known[i];
            BatchPlan {
                nodes: nodes_after(meta_of(field, flags), e.3, p.nodes),
                writes: match annotation(field, flags, e.3, p.nodes) {
                    Some(b) => p.writes.push((e, b)),
                    None => p.writes,
                },
                cold: p.cold,
            }
        }
    }
}

/// Some edge has no spending transaction.
pub open spec fn null_spender(edges: Seq<AbsEdge>) -> bool {
    exists|i: int| 0 <= i < edges.len() && (#[trigger] edges[i]).3.0 == 0
}

fn has_null_spender(edges: &[AbsEdge]) -> (r: bool)
    ensures
        r == null_spender(edges@),
{
    let mut i: usize = 0;
    while i < edges.len()
        invariant
            i <= edges@.len(),
            forall|j: int| 0 <= j < i ==> (#[trigger] edges@[j]).3.0 != 0,
        decreases edges@.len() - i,
    {
        if edges[i].3.is_null() {
            assert(edges@[i as int].3.0 == 0);
            return true;
        }
        i += 1;
    }
    false
}

/// Plans annotations of outputs whose number and flags are known: the writes by
/// place, and the edges beyond the body.
pub fn put_spend_batch_by_abs_meta_known(
    spenders: &mut SpenderTable,
    body_pub: u64,
    abs_edges: &[AbsEdge],
    known: &[(Fk, u8)],
) -> (r: Result<(Vec<MetaWrite>, Vec<ColdEdge>), StoreError>)
    requires
        old(spenders).nodes@.len() + 2 * abs_edges@.len() + 2 <= u64::MAX,
    ensures
        match r {
            Ok(v) => if abs_edges@.len() == 0 {
                v.0@.len() == 0 && v.1@.len() == 0 && *final(spenders) == *old(spenders)
            } else {
                &&& abs_edges@.len() == known@.len()
                &&& !null_spender(abs_edges@)
                &&& exists|order: Seq<usize>| #[trigger] is_order(abs_edges@, order) && ({
                    let p = batch_plan(
                        abs_edges@,
                        known@,
                        order,
                        order.len() as int,
                        body_pub,
                        old(spenders).nodes@,
                    );
                    &&& writes_view(v.0@) == p.writes
                    &&& v.1@ == p.cold
                    &&& final(spenders).nodes@ == p.nodes
                })
            },
            Err(e) => {
                &&& abs_edges@.len() > 0
                &&& *final(spenders) == *old(spenders)
                &&& if abs_edges@.len() != known@.len() {
                    e == StoreError::Corrupt("spend annotate known length mismatch")
                } else {
                    null_spender(abs_edges@) && e == StoreError::InvalidFk
                }
            },
        },
        r is Ok && abs_edges@.len() > 0 && linked(old(spenders).nodes@) && all_within(
            known@,
            old(spenders).nodes@,
        ) ==> (exists|src: Seq<int>| #[trigger]
            writes_of(
                abs_edges@,
                known@,
                body_pub,
                old(spenders).nodes@,
                final(spenders).nodes@,
                writes_view((r->Ok_0).0@),
                src,
            )) && exists|src: Seq<int>| #[trigger]
            cold_edges_of(abs_edges@, body_pub, (r->Ok_0).1@, src),
{
    let mut writes: Vec<MetaWrite> = Vec::new();
    let mut cold: Vec<ColdEdge> = Vec::new();
    if abs_edges.len() == 0 {
        return Ok((writes, cold));
    }
    if abs_edges.len() != known.len() {
        return Err(StoreError::Corrupt("spend annotate known length mismatch"));
    }
    if has_null_spender(abs_edges) {
        return Err(StoreError::InvalidFk);
    }
    let order = order_edges(abs_edges);
    let ghost nodes0 = spenders.nodes@;
    let mut k: usize = 0;
    proof {
        assert(writes_view(writes@) =~= Seq::empty());
        assert(cold@ =~= Seq::empty());
    }
    while k < order.len()
        invariant
            k <= order@.len(),
            abs_edges@.len() == known@.len(),
            abs_edges@.len() > 0,
            !null_spender(abs_edges@),
            is_order(abs_edges@, order@),
            spenders.nodes@.len() <= nodes0.len() + 2 * k,
            nodes0.len() + 2 * abs_edges@.len() + 2 <= u64::MAX,
            ({
                let p = batch_plan(abs_edges@, known@, order@, k as int, body_pub, nodes0);
                &&& writes_view(writes@) == p.writes
                &&& cold@ == p.cold
                &&& spenders.nodes@ == p.nodes
            }),
        decreases order@.len() - k,
    {
        let i: usize = order[k];
        let e: AbsEdge = abs_edges[i];
        assert(e.3.0 != 0);
        let ghost w0 = writes@;
        if e.0 > 0xffff_ffff_ffff_fff6 || e.0 + 9 > body_pub {
            cold.push((e.1, e.2, e.3));
        } else {
            let kn: (Fk, u8) = known[i];
            match decide_annotate(kn.0, kn.1, e.3, spenders) {
                Ok(AnnotateOp::Skip) => {},
                Ok(AnnotateOp::Write(meta)) => {
                    writes.push(
                        MetaWrite { abs: e.0, create_fk: e.1, vout: e.2, spend_fk: e.3, meta },
                    );
                    proof {
                        assert(writes_view(writes@) =~= writes_view(w0).push((e, meta@)));
                    }
                },
                Err(_) => {},
            }
        }
        k += 1;
    }
    proof {
        if linked(nodes0) && all_within(known@, nodes0) {
            law_batch_by_edge(abs_edges@, known@, order@, body_pub, nodes0);
            let p = batch_plan(abs_edges@, known@, order@, order@.len() as int, body_pub, nodes0);
            assert(writes_view(writes@) == p.writes && cold@ == p.cold && spenders.nodes@
                == p.nodes);
            let ws = choose|src: Seq<int>| #[trigger]
                writes_of(abs_edges@, known@, body_pub, nodes0, p.nodes, p.writes, src);
            assert(writes_of(
                abs_edges@,
                known@,
                body_pub,
                old(spenders).nodes@,
                spenders.nodes@,
                writes_view(writes@),
                ws,
            ));
        }
    }
    Ok((writes, cold))
}

/// What a finished write of a known annotation asks for.
#[derive(Clone, Copy, Debug, PartialEq, Eq)]
pub enum KnownDone {
    /// The annotation is written.
    Written,
    /// Write it again, without the flag that keeps it out of the cache.
    Retry,
    /// It was written in part: hand the edge back.
    Cold(ColdEdge),
    /// The ring failed with this code: write the batch by positional writes.
    Fail(i32),
}

/// The code of a file system that does not know a flag.
pub const NOT_SUPPORTED: i32 = -95;

/// What a finished write asks for.
pub open spec fn known_done(w: MetaWrite, res: i32, retried: bool) -> KnownDone {
    if res == META_LEN {
        KnownDone::Written
    } else if res >= 0 {
        KnownDone::Cold((w.create_fk, w.vout, w.spend_fk))
    } else if res == NOT_SUPPORTED && !retried {
        KnownDone::Retry
    } else {
        KnownDone::Fail(res)
    }
}

/// Decides on a finished write of a known annotation. `retried` says that the flag that
/// keeps the bytes out of the cache was not set.
pub fn known_write_done(w: &MetaWrite, res: i32, retried: bool) -> (r: KnownDone)
    ensures
        r == known_done(*w, res, retried),
{
    if res < 0 {
        if res == NOT_SUPPORTED && !retried {
            return KnownDone::Retry;
        }
        return KnownDone::Fail(res);
    }
    if res != 9 {
        return KnownDone::Cold((w.create_fk, w.vout, w.spend_fk));
    }
    KnownDone::Written
}

/// What a slot waits for.
#[derive(Clone, Copy, Debug, PartialEq, Eq, Structural)]
pub enum Phase {
    Reading,
    Writing,
}

/// A read or write in flight.
#[derive(Clone, Copy, Debug, PartialEq, Eq)]
pub struct RmwSlot {
    pub edge: usize,
    pub phase: Phase,
    /// The nine bytes to write.
    pub buf: [u8; 9],
}

/// What to submit next.
#[derive(Clone, Copy, Debug, PartialEq, Eq)]
pub enum RmwAction {
    /// Nothing: the edge is settled.
    Idle,
    /// Read nine bytes again, without the flag that was refused.
    Reread { slot: usize, abs: u64 },
    /// Write nine bytes; `plain` is without the flag that was refused.
    Write { slot: usize, abs: u64, buf: [u8; 9], plain: bool },
}

/// Keeps a batch of reads, decisions and writes in flight.
pub struct RmwMachine {
    pub work: Vec<AbsEdge>,
    /// Edges that are not started.
    pub pending: VecDeque<usize>,
    /// Edges whose place was in use, in the order they came.
    pub waiting: Vec<usize>,
    pub slots: Vec<Option<RmwSlot>>,
    pub cold: Vec<ColdEdge>,
}

/// A read or write of this place is in flight.
pub open spec fn busy(slots: Seq<Option<RmwSlot>>, work: Seq<AbsEdge>, abs: u64) -> bool {
    exists|i: int|
        0 <= i < slots.len() && (#[trigger] slots[i]) is Some && work[slots[i]->0.edge as int].0
            == abs
}

/// The edge is in flight.
pub open spec fn flying(slots: Seq<Option<RmwSlot>>, e: usize) -> bool {
    exists|i: int| 0 <= i < slots.len() && (#[trigger] slots[i]) is Some && slots[i]->0.edge == e
}

/// First edge from `i` on that has this place (the length if there is none).
pub open spec fn first_with(list: Seq<usize>, work: Seq<AbsEdge>, abs: u64, i: int) -> int
    decreases list.len() - i,
{
    if i >= list.len() {
        list.len() as int
    } else if work[list[i] as int].0 == abs {
        i
    } else {
        first_with(list, work, abs, i + 1)
    }
}

/// Waiting edges after a place came free.
pub open spec fn waiting_after(list: Seq<usize>, work: Seq<AbsEdge>, abs: u64) -> Seq<usize> {
    let k = first_with(list, work, abs, 0);
    if k < list.len() {
        list.remove(k)
    } else {
        list
    }
}

/// Pending edges after a place came free: its first waiting edge comes first.
pub open spec fn pending_after(
    pending: Seq<usize>,
    list: Seq<usize>,
    work: Seq<AbsEdge>,
    abs: u64,
) -> Seq<usize> {
    let k = first_with(list, work, abs, 0);
    if k < list.len() {
        seq![list[k]] + pending
    } else {
        pending
    }
}

pub(crate) proof fn lemma_first_with(list: Seq<usize>, work: Seq<AbsEdge>, abs: u64, i: int)
    requires
        0 <= i <= list.len(),
    ensures
        i <= first_with(list, work, abs, i) <= list.len(),
        first_with(list, work, abs, i) < list.len() ==> work[list[first_with(
            list,
            work,
            abs,
            i,
        )] as int].0 == abs,
    decreases list.len() - i,
{
    if i < list.len() && work[list[i] as int].0 != abs {
        lemma_first_with(list, work, abs, i + 1);
    }
}

impl RmwMachine {
    /// The edge is not settled.
    pub open spec fn unsettled(&self, e: usize) -> bool {
        self.pending@.contains(e) || self.waiting@.contains(e) || flying(self.slots@, e)
    }

    /// Every edge is in one place at most, and no place of the body is in flight
    /// twice.
    pub open spec fn inv(&self) -> bool {
        &&& self.slots@.len() == 128
        &&& forall|i: int| 0 <= i < self.pending@.len() ==> (#[trigger] self.pending@[i])
            < self.work@.len()
        &&& forall|i: int| 0 <= i < self.waiting@.len() ==> (#[trigger] self.waiting@[i])
            < self.work@.len()
        &&& forall|i: int|
            0 <= i < self.slots@.len() && (#[trigger] self.slots@[i]) is Some
                ==> self.slots@[i]->0.edge < self.work@.len()
        &&& self.pending@.no_duplicates()
        &&& self.waiting@.no_duplicates()
        &&& forall|e: usize| #[trigger] self.pending@.contains(e) ==> !self.waiting@.contains(e)
        &&& forall|i: int|
            0 <= i < self.slots@.len() && (#[trigger] self.slots@[i]) is Some
                ==> !self.pending@.contains(self.slots@[i]->0.edge) && !self.waiting@.contains(
                self.slots@[i]->0.edge,
            )
        &&& forall|i: int, j: int|
            0 <= i < j < self.slots@.len() && (#[trigger] self.slots@[i]) is Some && (
            #[trigger] self.slots@[j]) is Some ==> self.work@[self.slots@[i]->0.edge as int].0
                != self.work@[self.slots@[j]->0.edge as int].0
        &&& forall|i: int|
            0 <= i < self.work@.len() ==> (#[trigger] self.work@[i]).3.0 != 0
    }

    /// A machine for the edges within the body; the others are cold.
    #[verifier::rlimit(40)]
    pub fn start(edges: &[AbsEdge], body_pub: u64) -> (r: Result<Self, StoreError>)
        ensures
            match r {
                Ok(m) => {
                    &&& !null_spender(edges@)
                    &&& m.inv()
                    &&& in_turn(&m)
                    &&& m.work@ == edges@.filter(|e: AbsEdge| !out_of_body(e.0, body_pub))
                    &&& m.cold@ == edges@.filter(
                        |e: AbsEdge| out_of_body(e.0, body_pub),
                    ).map_values(|e: AbsEdge| cold_of(e))
                    &&& m.pending@ == Seq::new(m.work@.len(), |i: int| i as usize)
                    &&& m.waiting@.len() == 0
                    &&& forall|i: int| 0 <= i < m.slots@.len() ==> (#[trigger] m.slots@[i]) is None
                },
                Err(e) => null_spender(edges@) && e == StoreError::InvalidFk,
            },
    {
        if has_null_spender(edges) {
            return Err(StoreError::InvalidFk);
        }
        let mut work: Vec<AbsEdge> = Vec::new();
        let mut cold: Vec<ColdEdge> = Vec::new();
        let mut pending: VecDeque<usize> = VecDeque::new();
        let ghost inside = |e: AbsEdge| !out_of_body(e.0, body_pub);
        let ghost outside = |e: AbsEdge| out_of_body(e.0, body_pub);
        let ghost tocold = |e: AbsEdge| cold_of(e);
        let mut i: usize = 0;
        proof {
            assert(edges@.subrange(0, 0) =~= Seq::empty());
            reveal(Seq::filter);
            assert(edges@.subrange(0, 0).filter(inside) =~= Seq::empty());
            assert(edges@.subrange(0, 0).filter(outside).map_values(tocold) =~= Seq::empty());
        }
        while i < edges.len()
            invariant
                i <= edges@.len(),
                !null_spender(edges@),
                inside == (|e: AbsEdge| !out_of_body(e.0, body_pub)),
                outside == (|e: AbsEdge| out_of_body(e.0, body_pub)),
                tocold == (|e: AbsEdge| cold_of(e)),
                work@ == edges@.subrange(0, i as int).filter(inside),
                cold@ == edges@.subrange(0, i as int).filter(outside).map_values(tocold),
                work@.len() <= i,
                pending@.len() == work@.len(),
                forall|j: int| 0 <= j < pending@.len() ==> (#[trigger] pending@[j]) == j,
                forall|j: int| 0 <= j < work@.len() ==> (#[trigger] work@[j]).3.0 != 0,
            decreases edges@.len() - i,
        {
            let e: AbsEdge = edges[i];
            assert(e.3.0 != 0);
            proof {
                let p = edges@.subrange(0, i + 1);
                assert(p.drop_last() =~= edges@.subrange(0, i as int));
                assert(p.last() == e);
                reveal(Seq::filter);
            }
            let ghost c0 = edges@.subrange(0, i as int).filter(outside);
            if e.0 > 0xffff_ffff_ffff_fff6 || e.0 + 9 > body_pub {
                cold.push((e.1, e.2, e.3));
                proof {
                    assert(c0.push(e).map_values(tocold) =~= c0.map_values(tocold).push(
                        cold_of(e),
                    ));
                }
            } else {
                pending.push_back(work.len());
                work.push(e);
            }
            i += 1;
        }
        let mut slots: Vec<Option<RmwSlot>> = Vec::new();
        while slots.len() < MAX_SLOTS
            invariant
                slots@.len() <= 128,
                forall|j: int| 0 <= j < slots@.len() ==> (#[trigger] slots@[j]) is None,
            decreases 128 - slots@.len(),
        {
            slots.push(None);
        }
        proof {
            assert(edges@.subrange(0, i as int) =~= edges@);
            assert(pending@ =~= Seq::new(work@.len(), |i: int| i as usize));
        }
        let m = RmwMachine { work, pending, waiting: Vec::new(), slots, cold };
        proof {
            lemma_turn_start(&m);
        }
        Ok(m)
    }

    /// A read or write of this place is in flight.
    fn is_busy(&self, abs: u64) -> (r: bool)
        requires
            self.inv(),
        ensures
            r == busy(self.slots@, self.work@, abs),
    {
        let mut i: usize = 0;
        while i < self.slots.len()
            invariant
                i <= self.slots@.len(),
                self.inv(),
                forall|j: int|
                    0 <= j < i && (#[trigger] self.slots@[j]) is Some
                        ==> self.work@[self.slots@[j]->0.edge as int].0 != abs,
            decreases self.slots@.len() - i,
        {
            if let Some(s) = &self.slots[i] {
                if self.work[s.edge].0 == abs {
                    assert(self.slots@[i as int] is Some);
                    return true;
                }
            }
            i += 1;
        }
        false
    }

    /// Takes the next edge whose place is free; edges before it wait.
    fn next_ready(&mut self) -> (r: Option<usize>)
        requires
            old(self).inv(),
        ensures
            final(self).work@ == old(self).work@,
            final(self).slots@ == old(self).slots@,
            final(self).cold@ == old(self).cold@,
            final(self).inv(),
            match r {
                Some(e) => exists|k: int|
                    #![trigger old(self).pending@[k]]
                    {
                        &&& 0 <= k < old(self).pending@.len()
                        &&& e == old(self).pending@[k]
                        &&& e < final(self).work@.len()
                        &&& !busy(old(self).slots@, old(self).work@, old(self).work@[e as int].0)
                        &&& forall|j: int|
                            0 <= j < k ==> busy(
                                old(self).slots@,
                                old(self).work@,
                                old(self).work@[(#[trigger] old(self).pending@[j]) as int].0,
                            )
                        &&& final(self).pending@ == old(self).pending@.subrange(
                            k + 1,
                            old(self).pending@.len() as int,
                        )
                        &&& final(self).waiting@ == old(self).waiting@
                            + old(self).pending@.subrange(0, k)
                    },
                None => {
                    &&& forall|j: int|
                        0 <= j < old(self).pending@.len() ==> busy(
                            old(self).slots@,
                            old(self).work@,
                            old(self).work@[(#[trigger] old(self).pending@[j]) as int].0,
                        )
                    &&& final(self).pending@.len() == 0
                    &&& final(self).waiting@ == old(self).waiting@ + old(self).pending@
                },
            },
    {
        let ghost p0 = self.pending@;
        let ghost w0 = self.waiting@;
        let ghost mut k: int = 0;
        proof {
            assert(p0.subrange(0, p0.len() as int) =~= p0);
            assert(w0 + p0.subrange(0, 0) =~= w0);
        }
        loop
            invariant
                old(self).inv(),
                p0 == old(self).pending@,
                w0 == old(self).waiting@,
                0 <= k <= p0.len(),
                self.work@ == old(self).work@,
                self.slots@ == old(self).slots@,
                self.cold@ == old(self).cold@,
                self.pending@ == p0.subrange(k, p0.len() as int),
                self.waiting@ == w0 + p0.subrange(0, k),
                forall|j: int|
                    0 <= j < k ==> busy(
                        self.slots@,
                        self.work@,
                        self.work@[(#[trigger] p0[j]) as int].0,
                    ),
                self.inv(),
            decreases p0.len() - k,
        {
            let next = self.pending.pop_front();
            match next {
                None => {
                    proof {
                        assert(p0.subrange(0, k) =~= p0);
                    }
                    return None;
                },
                Some(ei) => {
                    proof {
                        assert(ei == p0[k]);
                        assert(p0.subrange(k, p0.len() as int).contains(p0[k])) by {
                            assert(p0.subrange(k, p0.len() as int)[0] == p0[k]);
                        }
                        assert(self.pending@ =~= p0.subrange(k + 1, p0.len() as int));
                        lemma_moved(p0, w0, k);
                        assert forall|e: usize| #[trigger]
                            self.pending@.contains(e) implies p0.subrange(
                            k,
                            p0.len() as int,
                        ).contains(e) by {
                            let j = choose|j: int|
                                0 <= j < self.pending@.len() && self.pending@[j] == e;
                            assert(p0.subrange(k, p0.len() as int)[j + 1] == e);
                        }
                        assert forall|i: int|
                            0 <= i < self.pending@.len() implies (#[trigger] self.pending@[i])
                            < self.work@.len() by {
                            assert(self.pending@[i] == p0[k + 1 + i]);
                        }
                    }
                    let abs: u64 = self.work[ei].0;
                    if !self.is_busy(abs) {
                        return Some(ei);
                    }
                    self.waiting.push(ei);
                    proof {
                        assert(self.waiting@ =~= w0 + p0.subrange(0, k + 1));
                        assert forall|i: int|
                            0 <= i < self.slots@.len() && (#[trigger] self.slots@[i])
                                is Some implies !self.waiting@.contains(self.slots@[i]->0.edge) by {
                            let e = self.slots@[i]->0.edge;
                            if self.waiting@.contains(e) {
                                let j = choose|j: int|
                                    0 <= j < self.waiting@.len() && self.waiting@[j] == e;
                                if j < self.waiting@.len() - 1 {
                                    assert((w0 + p0.subrange(0, k))[j] == e);
                                    assert((w0 + p0.subrange(0, k)).contains(e));
                                } else {
                                    assert(p0.contains(e));
                                }
                            }
                        }
                        k = k + 1;
                    }
                },
            }
        }
    }
}

/// Edges that moved from pending to waiting are in one place only.
proof fn lemma_moved(p: Seq<usize>, w: Seq<usize>, k: int)
    requires
        0 <= k < p.len(),
        p.no_duplicates(),
        w.no_duplicates(),
        forall|e: usize| #[trigger] p.contains(e) ==> !w.contains(e),
    ensures
        (w + p.subrange(0, k)).no_duplicates(),
        (w + p.subrange(0, k + 1)).no_duplicates(),
        p.subrange(k + 1, p.len() as int).no_duplicates(),
        forall|e: usize| #[trigger]
            p.subrange(k + 1, p.len() as int).contains(e) ==> !(w + p.subrange(0, k + 1)).contains(
                e,
            ) && !(w + p.subrange(0, k)).contains(e),
{
    assert forall|n: int| 0 <= n <= p.len() implies #[trigger] (w + p.subrange(
        0,
        n,
    )).no_duplicates() by {
        let s = w + p.subrange(0, n);
        assert forall|a: int, b: int| 0 <= a < s.len() && 0 <= b < s.len() && a != b implies s[a]
            != s[b] by {
            if a >= w.len() {
                assert(s[a] == p[a - w.len()]);
                assert(p.contains(s[a]));
            }
            if b >= w.len() {
                assert(s[b] == p[b - w.len()]);
                assert(p.contains(s[b]));
            }
            if a < w.len() {
                assert(w.contains(s[a]));
            }
            if b < w.len() {
                assert(w.contains(s[b]));
            }
        }
    }
    let t = p.subrange(k + 1, p.len() as int);
    assert forall|e: usize| #[trigger] t.contains(e) implies !(w + p.subrange(0, k + 1)).contains(e)
        && !(w + p.subrange(0, k)).contains(e) by {
        let j = choose|j: int| 0 <= j < t.len() && t[j] == e;
        assert(p[k + 1 + j] == e);
        assert(p.contains(e));
        assert forall|n: int| 0 <= n <= k + 1 implies !(#[trigger] (w + p.subrange(0, n))).contains(
            e,
        ) by {
            let s = w + p.subrange(0, n);
            if s.contains(e) {
                let i = choose|i: int| 0 <= i < s.len() && s[i] == e;
                if i < w.len() {
                    assert(w.contains(e));
                } else {
                    assert(p[i - w.len()] == e);
                }
            }
        }
    }
}

/// A slot came free: its edge is settled, `added` is cold, and with `release` the
/// first edge that waits for the place comes next.
pub open spec fn freed(
    a: RmwMachine,
    b: RmwMachine,
    slot: int,
    added: Seq<ColdEdge>,
    release: bool,
) -> bool {
    let abs = a.work@[a.slots@[slot]->0.edge as int].0;
    &&& b.work@ == a.work@
    &&& b.slots@ == a.slots@.update(slot, None)
    &&& b.cold@ == a.cold@ + added
    &&& b.pending@ == (if release {
        pending_after(a.pending@, a.waiting@, a.work@, abs)
    } else {
        a.pending@
    })
    &&& b.waiting@ == (if release {
        waiting_after(a.waiting@, a.work@, abs)
    } else {
        a.waiting@
    })
}

/// A place that came free keeps the order: edges are in one place, places are in
/// flight once, and only the slot's edge is settled.
pub proof fn law_freed(
    a: RmwMachine,
    b: RmwMachine,
    slot: int,
    added: Seq<ColdEdge>,
    release: bool,
)
    requires
        a.inv(),
        0 <= slot < 128,
        a.slots@[slot] is Some,
        freed(a, b, slot, added, release),
    ensures
        b.inv(),
        forall|e: usize| #[trigger]
            b.unsettled(e) <==> a.unsettled(e) && e != a.slots@[slot]->0.edge,
{
    let edge = a.slots@[slot]->0.edge;
    let abs = a.work@[edge as int].0;
    let k = first_with(a.waiting@, a.work@, abs, 0);
    lemma_first_with(a.waiting@, a.work@, abs, 0);
    let p = b.pending@;
    let w = b.waiting@;
    let moved = release && k < a.waiting@.len();
    if moved {
        let x = a.waiting@[k];
        assert(a.waiting@.contains(x));
        assert forall|e: usize| #[trigger] p.contains(e) <==> e == x || a.pending@.contains(e) by {
            if p.contains(e) {
                let j = choose|j: int| 0 <= j < p.len() && p[j] == e;
                if j > 0 {
                    assert(a.pending@[j - 1] == e);
                }
            }
            if e == x {
                assert(p[0] == x);
            }
            if a.pending@.contains(e) {
                let j = choose|j: int| 0 <= j < a.pending@.len() && a.pending@[j] == e;
                assert(p[j + 1] == e);
            }
        }
        assert forall|e: usize| #[trigger] w.contains(e) <==> e != x && a.waiting@.contains(e) by {
            if w.contains(e) {
                let j = choose|j: int| 0 <= j < w.len() && w[j] == e;
                if j < k {
                    assert(a.waiting@[j] == e);
                } else {
                    assert(a.waiting@[j + 1] == e);
                }
            }
            if e != x && a.waiting@.contains(e) {
                let j = choose|j: int| 0 <= j < a.waiting@.len() && a.waiting@[j] == e;
                if j < k {
                    assert(w[j] == e);
                } else {
                    assert(w[j - 1] == e);
                }
            }
        }
        assert forall|i: int, j: int| 0 <= i < p.len() && 0 <= j < p.len() && i != j implies p[i]
            != p[j] by {
            if i > 0 {
                assert(a.pending@[i - 1] == p[i]);
                assert(a.pending@.contains(p[i]));
            }
            if j > 0 {
                assert(a.pending@[j - 1] == p[j]);
                assert(a.pending@.contains(p[j]));
            }
        }
        assert forall|i: int, j: int| 0 <= i < w.len() && 0 <= j < w.len() && i != j implies w[i]
            != w[j] by {
            let i2 = if i < k {
                i
            } else {
                i + 1
            };
            let j2 = if j < k {
                j
            } else {
                j + 1
            };
            assert(a.waiting@[i2] == w[i] && a.waiting@[j2] == w[j]);
        }
        assert forall|i: int| 0 <= i < p.len() implies (#[trigger] p[i]) < b.work@.len() by {
            if i > 0 {
                assert(a.pending@[i - 1] == p[i]);
            }
        }
        assert forall|i: int| 0 <= i < w.len() implies (#[trigger] w[i]) < b.work@.len() by {
            if i < k {
                assert(a.waiting@[i] == w[i]);
            } else {
                assert(a.waiting@[i + 1] == w[i]);
            }
        }
    }
    assert forall|i: int| 0 <= i < b.slots@.len() && (#[trigger] b.slots@[i]) is Some implies
        a.slots@[i] == b.slots@[i] && i != slot && !p.contains(b.slots@[i]->0.edge)
        && !w.contains(b.slots@[i]->0.edge) && b.slots@[i]->0.edge < b.work@.len() by {
        assert(a.slots@[i] is Some);
    }
    assert forall|e: usize| #[trigger] b.unsettled(e) <==> a.unsettled(e) && e != edge by {
        if flying(b.slots@, e) {
            let i = choose|i: int|
                0 <= i < b.slots@.len() && (#[trigger] b.slots@[i]) is Some && b.slots@[i]->0.edge
                    == e;
            assert(a.slots@[i] is Some);
            assert(flying(a.slots@, e));
            if e == edge {
                if i < slot {
                    assert(a.work@[a.slots@[i]->0.edge as int].0
                        != a.work@[a.slots@[slot]->0.edge as int].0);
                } else {
                    assert(a.work@[a.slots@[slot]->0.edge as int].0
                        != a.work@[a.slots@[i]->0.edge as int].0);
                }
            }
        }
        if flying(a.slots@, e) && e != edge {
            let i = choose|i: int|
                0 <= i < a.slots@.len() && (#[trigger] a.slots@[i]) is Some && a.slots@[i]->0.edge
                    == e;
            assert(b.slots@[i] is Some);
        }
    }
}

impl RmwMachine {
    /// Starts the next read: its slot and place. `None` where all slots are in use,
    /// or no pending edge has a free place.
    ///
    /// The edge that starts is the first pending one whose place is free; those before it
    /// wait. Where no pending edge has a free place all of them wait.
    #[verifier::rlimit(40)]
    pub fn arm(&mut self) -> (r: Option<(usize, u64)>)
        requires
            old(self).inv(),
        ensures
            final(self).inv(),
            final(self).work@ == old(self).work@,
            final(self).cold@ == old(self).cold@,
            forall|e: usize| #[trigger] final(self).unsettled(e) <==> old(self).unsettled(e),
            in_turn(old(self)) ==> in_turn(final(self)),
            match r {
                Some((slot, abs)) => {
                    &&& slot < 128
                    &&& old(self).slots@[slot as int] is None
                    &&& !busy(old(self).slots@, old(self).work@, abs)
                    &&& final(self).slots@[slot as int] is Some
                    &&& ({
                        let s = final(self).slots@[slot as int]->0;
                        &&& s.phase == Phase::Reading
                        &&& final(self).slots@ == old(self).slots@.update(slot as int, Some(s))
                        &&& final(self).work@[s.edge as int].0 == abs
                        &&& in_turn(old(self)) ==> next_of_place(old(self), s.edge)
                        &&& exists|k: int|
                            #![trigger old(self).pending@[k]]
                            {
                                &&& 0 <= k < old(self).pending@.len()
                                &&& s.edge == old(self).pending@[k]
                                &&& forall|j: int|
                                    0 <= j < k ==> busy(
                                        old(self).slots@,
                                        old(self).work@,
                                        old(self).work@[(#[trigger] old(
                                            self,
                                        ).pending@[j]) as int].0,
                                    )
                                &&& final(self).pending@ == old(self).pending@.subrange(
                                    k + 1,
                                    old(self).pending@.len() as int,
                                )
                                &&& final(self).waiting@ == old(self).waiting@
                                    + old(self).pending@.subrange(0, k)
                            }
                    })
                },
                None => if forall|i: int|
                    0 <= i < 128 ==> (#[trigger] old(self).slots@[i]) is Some {
                    *final(self) == *old(self)
                } else {
                    &&& final(self).slots@ == old(self).slots@
                    &&& final(self).pending@.len() == 0
                    &&& final(self).waiting@ == old(self).waiting@ + old(self).pending@
                    &&& forall|j: int|
                        0 <= j < old(self).pending@.len() ==> busy(
                            old(self).slots@,
                            old(self).work@,
                            old(self).work@[(#[trigger] old(self).pending@[j]) as int].0,
                        )
                },
            },
    {
        let mut slot: usize = 0;
        while slot < self.slots.len() && self.slots[slot].is_some()
            invariant
                *self == *old(self),
                slot <= self.slots@.len(),
                forall|i: int| 0 <= i < slot ==> (#[trigger] self.slots@[i]) is Some,
            decreases self.slots@.len() - slot,
        {
            slot += 1;
        }
        if slot == self.slots.len() {
            return None;
        }
        let next = self.next_ready();
        let ghost mid = *self;
        match next {
            None => {
                proof {
                    lemma_arm_none(*old(self), mid);
                    if in_turn(old(self)) {
                        lemma_turn_none(old(self), self);
                    }
                    assert(old(self).slots@[slot as int] is None);
                }
                None
            },
            Some(e) => {
                let abs: u64 = self.work[e].0;
                self.slots.set(
                    slot,
                    Some(RmwSlot { edge: e, phase: Phase::Reading, buf: [0;9] }),
                );
                proof {
                    let k = choose|k: int|
                        #![trigger old(self).pending@[k]]
                        {
                            &&& 0 <= k < old(self).pending@.len()
                            &&& e == old(self).pending@[k]
                            &&& forall|j: int|
                                0 <= j < k ==> busy(
                                    old(self).slots@,
                                    old(self).work@,
                                    old(self).work@[(#[trigger] old(self).pending@[j]) as int].0,
                                )
                            &&& mid.pending@ == old(self).pending@.subrange(
                                k + 1,
                                old(self).pending@.len() as int,
                            )
                            &&& mid.waiting@ == old(self).waiting@ + old(
                                self,
                            ).pending@.subrange(0, k)
                        };
                    lemma_arm_some(*old(self), *self, slot as int, k);
                    if in_turn(old(self)) {
                        lemma_next(old(self), k);
                        lemma_turn_some(old(self), self, slot as int, k);
                    }
                }
                Some((slot, abs))
            },
        }
    }

    /// Settles a slot, and lets the first edge that waits for its place come next.
    fn free(&mut self, slot: usize, cold: Option<ColdEdge>, release: bool)
        requires
            old(self).inv(),
            slot < 128,
            old(self).slots@[slot as int] is Some,
        ensures
            final(self).inv(),
            freed(
                *old(self),
                *final(self),
                slot as int,
                match cold {
                    Some(c) => seq![c],
                    None => Seq::empty(),
                },
                release,
            ),
            in_turn(old(self)) && release ==> in_turn(final(self)),
    {
        let ghost a = *self;
        let ghost added = match cold {
            Some(c) => seq![c],
            None => Seq::empty(),
        };
        let edge: usize = match &self.slots[slot] {
            Some(s) => s.edge,
            None => 0,
        };
        let abs: u64 = self.work[edge].0;
        self.slots.set(slot, None);
        if let Some(c) = cold {
            self.cold.push(c);
        }
        proof {
            assert(self.cold@ =~= a.cold@ + added);
        }
        if release {
            let mut k: usize = 0;
            proof {
                lemma_first_with(a.waiting@, a.work@, abs, 0);
            }
            while k < self.waiting.len() && self.work[self.waiting[k]].0 != abs
                invariant
                    k <= self.waiting@.len(),
                    self.waiting@ == a.waiting@,
                    self.work@ == a.work@,
                    a.inv(),
                    first_with(a.waiting@, a.work@, abs, 0) == first_with(
                        a.waiting@,
                        a.work@,
                        abs,
                        k as int,
                    ),
                decreases self.waiting@.len() - k,
            {
                k += 1;
            }
            if k < self.waiting.len() {
                let x: usize = self.waiting.remove(k);
                self.pending.push_front(x);
                proof {
                    assert(self.pending@ =~= seq![x] + a.pending@);
                }
            }
        }
        proof {
            law_freed(a, *self, slot as int, added, release);
            if in_turn(&a) && release {
                law_turn_freed(&a, self, slot as int, added);
            }
        }
    }

    /// Takes the result of a read or write and says what to submit next.
    ///
    /// A refused flag is dropped once (`retry`). An edge whose read or write is short
    /// is cold.
    #[verifier::rlimit(40)]
    pub fn complete(
        &mut self,
        spenders: &mut SpenderTable,
        slot: usize,
        res: i32,
        buf: [u8; 9],
        retry: bool,
    ) -> (r: Result<RmwAction, StoreError>)
        requires
            old(self).inv(),
            old(spenders).nodes@.len() + 2 <= u64::MAX,
        ensures
            final(self).inv(),
            in_turn(old(self)) && (res == 9 || (res == -95 && retry)) ==> in_turn(final(self)),
            slot < 128 && old(self).slots@[slot as int] is Some && old(self).slots@[slot as int]->0.phase
                == Phase::Reading && res == 9 && linked(old(spenders).nodes@) && within(
                Fk(u64_at(buf@, 0)),
                buf@[8],
                old(spenders).nodes@,
            ) ==> ({
                let spend = old(self).work@[old(self).slots@[slot as int]->0.edge as int].3;
                let sole = buf@[8] % 2 == 0 && u64_at(buf@, 0) == spend.0;
                match r {
                    Ok(RmwAction::Idle) => sole && final(spenders).nodes@ == old(spenders).nodes@,
                    Ok(RmwAction::Write { buf: b, .. }) => !sole && annotates(
                        b@,
                        Fk(u64_at(buf@, 0)),
                        buf@[8],
                        spend,
                        old(spenders).nodes@,
                        final(spenders).nodes@,
                    ),
                    _ => false,
                }
            }),
            if slot >= 128 {
                &&& r == Err::<RmwAction, StoreError>(
                    StoreError::Corrupt("spend annotate bad user_data"),
                )
                &&& *final(self) == *old(self) && *final(spenders) == *old(spenders)
            } else if old(self).slots@[slot as int] is None {
                &&& r == Err::<RmwAction, StoreError>(
                    StoreError::Corrupt("spend annotate empty slot"),
                )
                &&& *final(self) == *old(self) && *final(spenders) == *old(spenders)
            } else {
                let s = old(self).slots@[slot as int]->0;
                let e = old(self).work@[s.edge as int];
                let reading = s.phase == Phase::Reading;
                if res < 0 {
                    &&& *final(spenders) == *old(spenders)
                    &&& if res == -95 && retry {
                        &&& *final(self) == *old(self)
                        &&& r == Ok::<RmwAction, StoreError>(
                            if reading {
                                RmwAction::Reread { slot, abs: e.0 }
                            } else {
                                RmwAction::Write { slot, abs: e.0, buf: s.buf, plain: true }
                            },
                        )
                    } else {
                        &&& r == Err::<RmwAction, StoreError>(
                            StoreError::Io("spend annotate io failed"),
                        )
                        &&& freed(*old(self), *final(self), slot as int, Seq::empty(), false)
                    }
                } else if res != 9 {
                    &&& *final(spenders) == *old(spenders)
                    &&& r == Ok::<RmwAction, StoreError>(RmwAction::Idle)
                    &&& freed(
                        *old(self),
                        *final(self),
                        slot as int,
                        seq![cold_of(e)],
                        !reading,
                    )
                } else if reading {
                    &&& final(spenders).nodes@ == nodes_after(
                        meta_of(meta_field(buf@), buf@[8]),
                        e.3,
                        old(spenders).nodes@,
                    )
                    &&& match annotation(meta_field(buf@), buf@[8], e.3, old(spenders).nodes@) {
                        None => {
                            &&& r == Ok::<RmwAction, StoreError>(RmwAction::Idle)
                            &&& freed(*old(self), *final(self), slot as int, Seq::empty(), true)
                        },
                        Some(b) => {
                            &&& r is Ok && r->Ok_0 is Write
                            &&& r->Ok_0->Write_slot == slot
                            &&& r->Ok_0->Write_abs == e.0
                            &&& r->Ok_0->Write_buf@ == b
                            &&& !r->Ok_0->Write_plain
                            &&& final(self).work@ == old(self).work@
                            &&& final(self).pending@ == old(self).pending@
                            &&& final(self).waiting@ == old(self).waiting@
                            &&& final(self).cold@ == old(self).cold@
                            &&& final(self).slots@ == old(self).slots@.update(
                                slot as int,
                                Some(
                                    RmwSlot {
                                        edge: s.edge,
                                        phase: Phase::Writing,
                                        buf: r->Ok_0->Write_buf,
                                    },
                                ),
                            )
                        },
                    }
                } else {
                    &&& *final(spenders) == *old(spenders)
                    &&& r == Ok::<RmwAction, StoreError>(RmwAction::Idle)
                    &&& freed(*old(self), *final(self), slot as int, Seq::empty(), true)
                }
            },
    {
        if slot >= self.slots.len() {
            return Err(StoreError::Corrupt("spend annotate bad user_data"));
        }
        let s: RmwSlot = match &self.slots[slot] {
            Some(s) => *s,
            None => {
                return Err(StoreError::Corrupt("spend annotate empty slot"));
            },
        };
        let e: AbsEdge = self.work[s.edge];
        let reading = match s.phase {
            Phase::Reading => true,
            Phase::Writing => false,
        };
        if res < 0 {
            if res == -95 && retry {
                return Ok(
                    if reading {
                        RmwAction::Reread { slot, abs: e.0 }
                    } else {
                        RmwAction::Write { slot, abs: e.0, buf: s.buf, plain: true }
                    },
                );
            }
            self.free(slot, None, false);
            return Err(StoreError::Io("spend annotate io failed"));
        }
        if res != 9 {
            self.free(slot, Some((e.1, e.2, e.3)), !reading);
            return Ok(RmwAction::Idle);
        }
        if !reading {
            self.free(slot, None, true);
            return Ok(RmwAction::Idle);
        }
        let field = Fk(get_u64(buf.as_slice(), 0));
        match decide_annotate(field, buf[8], e.3, spenders) {
            Ok(AnnotateOp::Write(meta)) => {
                let ghost a = *self;
                self.slots.set(
                    slot,
                    Some(RmwSlot { edge: s.edge, phase: Phase::Writing, buf: meta }),
                );
                proof {
                    assert forall|i: int|
                        0 <= i < self.slots@.len() && (#[trigger] self.slots@[i])
                            is Some implies a.slots@[i] is Some && a.slots@[i]->0.edge
                        == self.slots@[i]->0.edge by {}
                    if in_turn(&a) {
                        lemma_turn_same(&a, self);
                    }
                }
                Ok(RmwAction::Write { slot, abs: e.0, buf: meta, plain: false })
            },
            Ok(AnnotateOp::Skip) => {
                self.free(slot, None, true);
                Ok(RmwAction::Idle)
            },
            Err(err) => Err(err),
        }
    }

    /// The edges that were not annotated, once nothing is in flight.
    pub fn finish(self) -> (r: Vec<ColdEdge>)
        requires
            self.inv(),
            forall|i: int| 0 <= i < 128 ==> (#[trigger] self.slots@[i]) is None,
        ensures
            r@ == self.cold@ + edges_cold(self.pending@, self.work@) + edges_cold(
                self.waiting@,
                self.work@,
            ),
            in_turn(&self) && self.pending@.len() == 0 ==> r@ == self.cold@,
    {
        proof {
            if in_turn(&self) && self.pending@.len() == 0 {
                law_none_left(&self);
            }
        }
        let ghost m = self;
        let mut this = self;
        let mut out: Vec<ColdEdge> = this.cold;
        let mut i: usize = 0;
        proof {
            assert(out@ =~= m.cold@ + edges_cold(m.pending@.subrange(0, 0), m.work@));
        }
        while i < this.pending.len()
            invariant
                i <= this.pending@.len(),
                m.inv(),
                this.pending@ == m.pending@,
                this.work@ == m.work@,
                out@ == m.cold@ + edges_cold(m.pending@.subrange(0, i as int), m.work@),
            decreases this.pending@.len() - i,
        {
            let e: AbsEdge = this.work[this.pending[i]];
            out.push((e.1, e.2, e.3));
            proof {
                assert(out@ =~= m.cold@ + edges_cold(m.pending@.subrange(0, i + 1), m.work@));
            }
            i += 1;
        }
        let ghost base = m.cold@ + edges_cold(m.pending@, m.work@);
        proof {
            assert(m.pending@.subrange(0, i as int) =~= m.pending@);
            assert(out@ =~= base + edges_cold(m.waiting@.subrange(0, 0), m.work@));
        }
        i = 0;
        while i < this.waiting.len()
            invariant
                i <= this.waiting@.len(),
                m.inv(),
                this.waiting@ == m.waiting@,
                this.work@ == m.work@,
                out@ == base + edges_cold(m.waiting@.subrange(0, i as int), m.work@),
            decreases this.waiting@.len() - i,
        {
            let e: AbsEdge = this.work[this.waiting[i]];
            out.push((e.1, e.2, e.3));
            proof {
                assert(out@ =~= base + edges_cold(m.waiting@.subrange(0, i + 1), m.work@));
            }
            i += 1;
        }
        proof {
            assert(m.waiting@.subrange(0, i as int) =~= m.waiting@);
        }
        out
    }
}

/// The edges of a list without their places.
pub open spec fn edges_cold(list: Seq<usize>, work: Seq<AbsEdge>) -> Seq<ColdEdge> {
    list.map_values(|e: usize| cold_of(work[e as int]))
}

proof fn lemma_arm_none(a: RmwMachine, b: RmwMachine)
    requires
        a.inv(),
        b.slots@ == a.slots@,
        b.pending@.len() == 0,
        b.waiting@ == a.waiting@ + a.pending@,
    ensures
        forall|e: usize| #[trigger] b.unsettled(e) <==> a.unsettled(e),
{
    assert forall|e: usize| #[trigger] b.unsettled(e) <==> a.unsettled(e) by {
        lemma_concat_contains(a.waiting@, a.pending@, e);
        if b.pending@.contains(e) {
            let j = choose|j: int| 0 <= j < b.pending@.len() && b.pending@[j] == e;
            assert(false);
        }
    }
}

proof fn lemma_concat_contains(a: Seq<usize>, b: Seq<usize>, e: usize)
    ensures
        (a + b).contains(e) <==> a.contains(e) || b.contains(e),
{
    if (a + b).contains(e) {
        let j = choose|j: int| 0 <= j < (a + b).len() && (a + b)[j] == e;
        if j < a.len() {
            assert(a[j] == e);
        } else {
            assert(b[j - a.len()] == e);
        }
    }
    if a.contains(e) {
        let j = choose|j: int| 0 <= j < a.len() && a[j] == e;
        assert((a + b)[j] == e);
    }
    if b.contains(e) {
        let j = choose|j: int| 0 <= j < b.len() && b[j] == e;
        assert((a + b)[a.len() + j] == e);
    }
}

proof fn lemma_arm_some(a: RmwMachine, b: RmwMachine, slot: int, k: int)
    requires
        a.inv(),
        0 <= slot < 128,
        0 <= k < a.pending@.len(),
        a.slots@[slot] is None,
        b.work@ == a.work@,
        b.slots@[slot] is Some,
        b.slots@[slot]->0.edge == a.pending@[k],
        b.slots@ == a.slots@.update(slot, b.slots@[slot]),
        !busy(a.slots@, a.work@, a.work@[a.pending@[k] as int].0),
        b.pending@ == a.pending@.subrange(k + 1, a.pending@.len() as int),
        b.waiting@ == a.waiting@ + a.pending@.subrange(0, k),
    ensures
        b.inv(),
        forall|e: usize| #[trigger] b.unsettled(e) <==> a.unsettled(e),
{
    let p = a.pending@;
    let edge = p[k];
    lemma_moved(p, a.waiting@, k);
    let lo = p.subrange(0, k);
    let hi = p.subrange(k + 1, p.len() as int);
    assert(p.contains(edge));
    assert forall|e: usize| #[trigger] p.contains(e) <==> lo.contains(e) || e == edge
        || hi.contains(e) by {
        if p.contains(e) {
            let j = choose|j: int| 0 <= j < p.len() && p[j] == e;
            if j < k {
                assert(lo[j] == e);
            } else if j > k {
                assert(hi[j - k - 1] == e);
            }
        }
        if lo.contains(e) {
            let j = choose|j: int| 0 <= j < lo.len() && lo[j] == e;
            assert(p[j] == e);
        }
        if hi.contains(e) {
            let j = choose|j: int| 0 <= j < hi.len() && hi[j] == e;
            assert(p[j + k + 1] == e);
        }
    }
    assert(!lo.contains(edge)) by {
        if lo.contains(edge) {
            let j = choose|j: int| 0 <= j < lo.len() && lo[j] == edge;
            assert(p[j] == p[k]);
        }
    }
    assert(!hi.contains(edge)) by {
        if hi.contains(edge) {
            let j = choose|j: int| 0 <= j < hi.len() && hi[j] == edge;
            assert(p[j + k + 1] == p[k]);
        }
    }
    assert forall|e: usize| #[trigger] b.waiting@.contains(e) <==> a.waiting@.contains(e)
        || lo.contains(e) by {
        lemma_concat_contains(a.waiting@, lo, e);
    }
    assert forall|i: int| 0 <= i < b.slots@.len() && (#[trigger] b.slots@[i]) is Some implies
        b.slots@[i]->0.edge < b.work@.len() && !b.pending@.contains(b.slots@[i]->0.edge)
        && !b.waiting@.contains(b.slots@[i]->0.edge) by {
        if i != slot {
            assert(a.slots@[i] is Some);
            assert(!p.contains(a.slots@[i]->0.edge));
        }
    }
    assert forall|i: int| 0 <= i < b.pending@.len() implies (#[trigger] b.pending@[i])
        < b.work@.len() by {
        assert(b.pending@[i] == p[k + 1 + i]);
    }
    assert forall|i: int| 0 <= i < b.waiting@.len() implies (#[trigger] b.waiting@[i])
        < b.work@.len() by {
        if i >= a.waiting@.len() {
            assert(b.waiting@[i] == p[i - a.waiting@.len()]);
        } else {
            assert(b.waiting@[i] == a.waiting@[i]);
        }
    }
    assert forall|i: int, j: int|
        0 <= i < j < b.slots@.len() && (#[trigger] b.slots@[i]) is Some && (
        #[trigger] b.slots@[j]) is Some implies b.work@[b.slots@[i]->0.edge as int].0
        != b.work@[b.slots@[j]->0.edge as int].0 by {
        if i != slot {
            assert(a.slots@[i] is Some);
        }
        if j != slot {
            assert(a.slots@[j] is Some);
        }
    }
    assert forall|e: usize| #[trigger] b.unsettled(e) <==> a.unsettled(e) by {
        if flying(b.slots@, e) {
            let i = choose|i: int|
                0 <= i < b.slots@.len() && (#[trigger] b.slots@[i]) is Some && b.slots@[i]->0.edge
                    == e;
            if i != slot {
                assert(a.slots@[i] is Some);
                assert(flying(a.slots@, e));
            }
        }
        if flying(a.slots@, e) {
            let i = choose|i: int|
                0 <= i < a.slots@.len() && (#[trigger] a.slots@[i]) is Some && a.slots@[i]->0.edge
                    == e;
            assert(b.slots@[i] is Some);
            assert(flying(b.slots@, e));
        }
        if e == edge {
            assert(b.slots@[slot] is Some);
            assert(flying(b.slots@, e));
        }
    }
}

} // verus!
