//! Lists of spenders, for outputs with more than one.
//!
//! A node is 16 bytes: the spending transaction and the next node. Nodes are
//! numbered from 1; number 0 ends a list.

use vstd::prelude::*;
use crate::bytes::{get_u64, le64, lemma_le_nat_of_seq, lemma_p256_values, push_u64, u64_at};
use crate::error::StoreError;
use crate::primitives::Fk;

verus! {

/// Bytes of a node.
pub const SPENDER_RECORD_LEN: usize = 16;

/// Header of the table file.
pub const SPENDER_FILE_HEADER_LEN: u64 = 16;

/// One node of a list.
#[derive(Clone, Copy, Debug, PartialEq, Eq, Structural)]
pub struct SpenderNode {
    pub spending_tx_fk: Fk,
    pub next: Fk,
}

/// Table of nodes.
pub struct SpenderTable {
    pub nodes: Vec<SpenderNode>,
}

/// Nodes point to earlier nodes only, so every list ends.
pub open spec fn linked(nodes: Seq<SpenderNode>) -> bool {
    forall|i: int| 0 <= i < nodes.len() ==> (#[trigger] nodes[i]).next.0 <= i
}

/// Bytes of the nodes.
pub open spec fn nodes_image(nodes: Seq<SpenderNode>) -> Seq<u8>
    decreases nodes.len(),
{
    if nodes.len() == 0 {
        Seq::empty()
    } else {
        nodes_image(nodes.drop_last()) + (le64(nodes.last().spending_tx_fk.0) + le64(
            nodes.last().next.0,
        ))
    }
}

/// Node at place `i` of the body.
pub open spec fn node_at(b: Seq<u8>, i: int) -> SpenderNode {
    SpenderNode { spending_tx_fk: Fk(u64_at(b, 16 * i)), next: Fk(u64_at(b, 16 * i + 8)) }
}

impl SpenderTable {
    /// An empty table.
    pub fn create() -> (r: Self)
        ensures
            r.nodes@.len() == 0,
    {
        SpenderTable { nodes: Vec::new() }
    }

    /// Reads the body behind its file header; without a file the table is empty.
    pub fn open(body: Option<&[u8]>) -> (r: Result<Self, StoreError>)
        ensures
            match (body, r) {
                (None, _) => r is Ok && r->Ok_0.nodes@.len() == 0,
                (Some(b), Ok(t)) => {
                    &&& b@.len() == 16 * t.nodes@.len()
                    &&& forall|i: int|
                        0 <= i < t.nodes@.len() ==> (#[trigger] t.nodes@[i]) == node_at(b@, i)
                },
                (Some(b), Err(e)) => b@.len() % 16 != 0 && e == StoreError::Corrupt(
                    "spenders body size",
                ),
            },
    {
        match body {
            None => Ok(Self::create()),
            Some(b) => {
                let blen: usize = b.len();
                if blen % SPENDER_RECORD_LEN != 0 {
                    return Err(StoreError::Corrupt("spenders body size"));
                }
                let n: usize = blen / SPENDER_RECORD_LEN;
                let mut nodes: Vec<SpenderNode> = Vec::new();
                let mut i: usize = 0;
                while i < n
                    invariant
                        i <= n,
                        blen == b@.len(),
                        blen == 16 * n,
                        nodes@.len() == i,
                        forall|j: int| 0 <= j < i ==> (#[trigger] nodes@[j]) == node_at(b@, j),
                    decreases n - i,
                {
                    let o: usize = i * 16;
                    nodes.push(
                        SpenderNode {
                            spending_tx_fk: Fk(get_u64(b, o)),
                            next: Fk(get_u64(b, o + 8)),
                        },
                    );
                    i += 1;
                }
                Ok(SpenderTable { nodes })
            },
        }
    }

    /// Body of the table file behind its header.
    pub fn body_bytes(&self) -> (r: Vec<u8>)
        ensures
            r@ == nodes_image(self.nodes@),
    {
        let mut out: Vec<u8> = Vec::new();
        let mut i: usize = 0;
        proof {
            assert(self.nodes@.subrange(0, 0) =~= Seq::empty());
        }
        while i < self.nodes.len()
            invariant
                i <= self.nodes@.len(),
                out@ == nodes_image(self.nodes@.subrange(0, i as int)),
            decreases self.nodes@.len() - i,
        {
            let n: SpenderNode = self.nodes[i];
            let ghost before = out@;
            push_u64(&mut out, n.spending_tx_fk.0);
            push_u64(&mut out, n.next.0);
            proof {
                let p = self.nodes@.subrange(0, i + 1);
                assert(p.drop_last() =~= self.nodes@.subrange(0, i as int));
                assert(p.last() == n);
                assert(out@ =~= nodes_image(p));
            }
            i += 1;
        }
        proof {
            assert(self.nodes@.subrange(0, i as int) =~= self.nodes@);
        }
        out
    }

    pub fn count(&self) -> (r: u64)
        ensures
            r == self.nodes@.len(),
    {
        self.nodes.len() as u64
    }

    /// Place of a node in the table file, and its length.
    pub fn record_range(fk: Fk) -> (r: Result<(u64, u64), StoreError>)
        requires
            fk.0 <= 0x0fff_ffff_ffff_ffff,
        ensures
            match r {
                Ok(v) => fk.0 != 0 && v.0 == 16 + (fk.0 - 1) * 16 && v.1 == 16,
                Err(e) => fk.0 == 0 && e == StoreError::InvalidFk,
            },
    {
        if fk.is_null() {
            return Err(StoreError::InvalidFk);
        }
        Ok((SPENDER_FILE_HEADER_LEN + (fk.0 - 1) * 16, 16))
    }

    /// Appends a node and returns its number.
    pub fn append(&mut self, spending_tx_fk: Fk, next: Fk) -> (r: Result<Fk, StoreError>)
        requires
            old(self).nodes@.len() < u64::MAX,
        ensures
            match r {
                Ok(fk) => {
                    &&& spending_tx_fk.0 != 0
                    &&& fk.0 == old(self).nodes@.len() + 1
                    &&& final(self).nodes@ == old(self).nodes@.push(
                        SpenderNode { spending_tx_fk, next },
                    )
                },
                Err(e) => spending_tx_fk.0 == 0 && e == StoreError::InvalidFk && *final(self)
                    == *old(self),
            },
    {
        if spending_tx_fk.is_null() {
            return Err(StoreError::InvalidFk);
        }
        self.nodes.push(SpenderNode { spending_tx_fk, next });
        Ok(Fk(self.nodes.len() as u64))
    }

    /// Spender and next node of a node.
    pub fn get(&self, fk: Fk) -> (r: Result<(Fk, Fk), StoreError>)
        ensures
            match r {
                Ok(v) => {
                    &&& 1 <= fk.0 <= self.nodes@.len()
                    &&& v.0 == self.nodes@[fk.0 - 1].spending_tx_fk
                    &&& v.1 == self.nodes@[fk.0 - 1].next
                },
                Err(e) => if fk.0 == 0 {
                    e == StoreError::InvalidFk
                } else {
                    fk.0 > self.nodes@.len() && e == StoreError::NotFound
                },
            },
    {
        if fk.is_null() {
            return Err(StoreError::InvalidFk);
        }
        if fk.0 > self.nodes.len() as u64 {
            return Err(StoreError::NotFound);
        }
        let n: SpenderNode = self.nodes[(fk.0 - 1) as usize];
        Ok((n.spending_tx_fk, n.next))
    }
}

proof fn lemma_nodes_image(nodes: Seq<SpenderNode>, tail: Seq<u8>)
    ensures
        nodes_image(nodes).len() == 16 * nodes.len(),
        forall|i: int|
            0 <= i < nodes.len() ==> #[trigger] node_at(nodes_image(nodes) + tail, i) == nodes[i],
    decreases nodes.len(),
{
    if nodes.len() > 0 {
        let d = nodes.last();
        let p = nodes.drop_last();
        let x = le64(d.spending_tx_fk.0) + le64(d.next.0);
        lemma_p256_values();
        lemma_le_nat_of_seq(d.spending_tx_fk.0 as nat, 8);
        lemma_le_nat_of_seq(d.next.0 as nat, 8);
        lemma_nodes_image(p, x + tail);
        let b = nodes_image(nodes) + tail;
        assert(b =~= nodes_image(p) + (x + tail));
        let o = 16 * (nodes.len() - 1);
        assert(b.subrange(o, o + 8) =~= le64(d.spending_tx_fk.0));
        assert(b.subrange(o + 8, o + 16) =~= le64(d.next.0));
        assert forall|i: int| 0 <= i < nodes.len() implies #[trigger] node_at(b, i) == nodes[i] by {
            if i < p.len() {
                assert(p[i] == nodes[i]);
            }
        }
    }
}

/// The table opens again with the nodes that were written.
pub proof fn law_nodes_roundtrip(nodes: Seq<SpenderNode>)
    ensures
        nodes_image(nodes).len() == 16 * nodes.len(),
        forall|i: int|
            0 <= i < nodes.len() ==> #[trigger] node_at(nodes_image(nodes), i) == nodes[i],
{
    lemma_nodes_image(nodes, Seq::empty());
    assert(nodes_image(nodes) + Seq::empty() =~= nodes_image(nodes));
}

} // verus!
