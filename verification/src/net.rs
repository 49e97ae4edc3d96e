//! The edge table: every edge of the graph, keyed by the identifier pair of
//! its writer and reader endpoints.
//!
//! Nodes do not hold references into one another; each holds only the
//! identifiers of its peers, and the table resolves a pair to the edge
//! between them. At most one edge exists per pair.

use vstd::prelude::*;

use crate::edge::{Edge, EdgeView, OfferOutcome, DequeueOutcome};

verus! {

/// One row of the edge table: the endpoint identifiers and the edge itself.
pub struct EdgeEntry {
    pub writer_id: u128,
    pub reader_id: u128,
    pub edge: Edge,
}

/// The mathematical model of a table row.
pub struct EdgeEntryView {
    pub writer_id: u128,
    pub reader_id: u128,
    pub edge: EdgeView,
}

impl View for EdgeEntry {
    type V = EdgeEntryView;

    open spec fn view(&self) -> EdgeEntryView {
        EdgeEntryView { writer_id: self.writer_id, reader_id: self.reader_id, edge: self.edge@ }
    }
}

/// The edge table, modelled as the sequence of its rows.
pub struct Net {
    entries: Vec<EdgeEntry>,
}

impl View for Net {
    type V = Seq<EdgeEntryView>;

    closed spec fn view(&self) -> Seq<EdgeEntryView> {
        self.entries@.map_values(|e: EdgeEntry| e@)
    }
}

/// There is an edge between writer `w` and reader `r`.
pub open spec fn has_edge(nv: Seq<EdgeEntryView>, w: u128, r: u128) -> bool {
    exists|i: int|
        0 <= i < nv.len() && (#[trigger] nv[i]).writer_id == w && nv[i].reader_id == r
}

/// The index of the edge between `w` and `r`; meaningful only when
/// `has_edge` holds, unambiguous only under `net_wf`.
pub open spec fn edge_index(nv: Seq<EdgeEntryView>, w: u128, r: u128) -> int {
    choose|i: int|
        0 <= i < nv.len() && (#[trigger] nv[i]).writer_id == w && nv[i].reader_id == r
}

/// The edge between `w` and `r`; meaningful only when `has_edge` holds.
pub open spec fn edge_at(nv: Seq<EdgeEntryView>, w: u128, r: u128) -> EdgeView {
    nv[edge_index(nv, w, r)].edge
}

/// Table well-formedness: identifier pairs are unique and every edge is
/// well formed.
pub open spec fn net_wf(nv: Seq<EdgeEntryView>) -> bool {
    &&& forall|i: int, j: int|
        0 <= i < nv.len() && 0 <= j < nv.len() && i != j
            ==> !((#[trigger] nv[i]).writer_id == (#[trigger] nv[j]).writer_id
                && nv[i].reader_id == nv[j].reader_id)
    &&& forall|i: int| 0 <= i < nv.len() ==> (#[trigger] nv[i]).edge.wf()
}

/// Under `net_wf`, an index whose row carries the pair is the index
/// `edge_index` denotes.
pub proof fn lemma_edge_index_unique(nv: Seq<EdgeEntryView>, w: u128, r: u128, i: int)
    requires
        net_wf(nv),
        0 <= i < nv.len(),
        nv[i].writer_id == w,
        nv[i].reader_id == r,
    ensures
        has_edge(nv, w, r),
        edge_index(nv, w, r) == i,
{
    assert(has_edge(nv, w, r));
    let j = edge_index(nv, w, r);
    assert(0 <= j < nv.len() && nv[j].writer_id == w && nv[j].reader_id == r);
    if i != j {
        assert(false);
    }
}

/// Appending a row for a pair not yet present keeps the table well formed;
/// every other pair's presence is unchanged.
pub proof fn lemma_push_entry_preserves(nv: Seq<EdgeEntryView>, en: EdgeEntryView)
    requires
        net_wf(nv),
        !has_edge(nv, en.writer_id, en.reader_id),
        en.edge.wf(),
    ensures
        net_wf(nv.push(en)),
        has_edge(nv.push(en), en.writer_id, en.reader_id),
        forall|a: u128, b: u128|
            !(a == en.writer_id && b == en.reader_id) ==> #[trigger] has_edge(nv.push(en), a, b)
                == has_edge(nv, a, b),
        edge_index(nv.push(en), en.writer_id, en.reader_id) == nv.len(),
{
    let m = nv.push(en);
    assert(m[nv.len() as int] == en);
    assert forall|a: u128, b: u128|
        !(a == en.writer_id && b == en.reader_id) implies #[trigger] has_edge(m, a, b)
        == has_edge(nv, a, b) by {
        if has_edge(nv, a, b) {
            let i = choose|i: int|
                0 <= i < nv.len() && (#[trigger] nv[i]).writer_id == a && nv[i].reader_id == b;
            assert(m[i].writer_id == a && m[i].reader_id == b);
        }
        if has_edge(m, a, b) {
            let i = choose|i: int|
                0 <= i < m.len() && (#[trigger] m[i]).writer_id == a && m[i].reader_id == b;
            assert(i < nv.len());
            assert(nv[i].writer_id == a && nv[i].reader_id == b);
        }
    }
    assert forall|i: int, j: int|
        0 <= i < m.len() && 0 <= j < m.len() && i != j implies !((#[trigger] m[i]).writer_id
        == (#[trigger] m[j]).writer_id && m[i].reader_id == m[j].reader_id) by {
        if i < nv.len() && j < nv.len() {
        } else if i == nv.len() {
            if nv[j].writer_id == en.writer_id && nv[j].reader_id == en.reader_id {
                assert(has_edge(nv, en.writer_id, en.reader_id));
            }
        } else {
            if nv[i].writer_id == en.writer_id && nv[i].reader_id == en.reader_id {
                assert(has_edge(nv, en.writer_id, en.reader_id));
            }
        }
    }
    lemma_edge_index_unique(m, en.writer_id, en.reader_id, nv.len() as int);
}

/// Removing a row keeps the table well formed; its pair is gone, and every
/// other pair's presence is unchanged.
pub proof fn lemma_remove_entry_preserves(nv: Seq<EdgeEntryView>, idx: int)
    requires
        net_wf(nv),
        0 <= idx < nv.len(),
    ensures
        net_wf(nv.remove(idx)),
        !has_edge(nv.remove(idx), nv[idx].writer_id, nv[idx].reader_id),
        forall|a: u128, b: u128|
            !(a == nv[idx].writer_id && b == nv[idx].reader_id)
                ==> #[trigger] has_edge(nv.remove(idx), a, b) == has_edge(nv, a, b),
{
    let m = nv.remove(idx);
    assert(forall|i: int| 0 <= i < idx ==> #[trigger] m[i] == nv[i]);
    assert(forall|i: int| idx <= i < m.len() ==> #[trigger] m[i] == nv[i + 1]);
    assert forall|a: u128, b: u128|
        !(a == nv[idx].writer_id && b == nv[idx].reader_id)
            implies #[trigger] has_edge(m, a, b) == has_edge(nv, a, b) by {
        if has_edge(nv, a, b) {
            let i = choose|i: int|
                0 <= i < nv.len() && (#[trigger] nv[i]).writer_id == a && nv[i].reader_id == b;
            assert(i != idx);
            if i < idx {
                assert(m[i].writer_id == a && m[i].reader_id == b);
            } else {
                assert(m[i - 1].writer_id == a && m[i - 1].reader_id == b);
            }
        }
        if has_edge(m, a, b) {
            let i = choose|i: int|
                0 <= i < m.len() && (#[trigger] m[i]).writer_id == a && m[i].reader_id == b;
            if i < idx {
                assert(nv[i].writer_id == a && nv[i].reader_id == b);
            } else {
                assert(nv[i + 1].writer_id == a && nv[i + 1].reader_id == b);
            }
        }
    }
    assert forall|i: int, j: int|
        0 <= i < m.len() && 0 <= j < m.len() && i != j implies !((#[trigger] m[i]).writer_id
        == (#[trigger] m[j]).writer_id && m[i].reader_id == m[j].reader_id) by {
        let ii = if i < idx { i } else { i + 1 };
        let jjj = if j < idx { j } else { j + 1 };
        assert(m[i] == nv[ii] && m[j] == nv[jjj] && ii != jjj);
    }
    if has_edge(m, nv[idx].writer_id, nv[idx].reader_id) {
        let i = choose|i: int|
            0 <= i < m.len() && (#[trigger] m[i]).writer_id == nv[idx].writer_id
                && m[i].reader_id == nv[idx].reader_id;
        let ii = if i < idx { i } else { i + 1 };
        assert(m[i] == nv[ii] && ii != idx);
        assert(false);
    }
}

impl Net {
    /// An empty edge table.
    pub fn new() -> (r: Net)
        ensures
            r@ == Seq::<EdgeEntryView>::empty(),
            net_wf(r@),
    {
        let r = Net { entries: Vec::new() };
        proof {
            assert(r@ =~= Seq::<EdgeEntryView>::empty());
        }
        r
    }

    pub fn len(&self) -> (r: usize)
        ensures
            r as int == self@.len(),
    {
        self.entries.len()
    }

    /// Find the edge between writer `w` and reader `r`, if one exists.
    pub fn lookup(&self, w: u128, r: u128) -> (res: Option<usize>)
        ensures
            match res {
                Some(i) => {
                    &&& i < self@.len()
                    &&& self@[i as int].writer_id == w
                    &&& self@[i as int].reader_id == r
                    &&& has_edge(self@, w, r)
                },
                None => !has_edge(self@, w, r),
            },
    {
        let n = self.entries.len();
        let mut i: usize = 0;
        while i < n
            invariant
                i <= n,
                n == self@.len(),
                forall|k: int|
                    0 <= k < i ==> !((#[trigger] self@[k]).writer_id == w
                        && self@[k].reader_id == r),
            decreases n - i,
        {
            if self.entries[i].writer_id == w && self.entries[i].reader_id == r {
                return Some(i);
            }
            i += 1;
        }
        None
    }

    /// Append a row; the caller is responsible for pair uniqueness.
    pub fn add_entry(&mut self, entry: EdgeEntry)
        ensures
            final(self)@ == old(self)@.push(entry@),
    {
        let ghost before = self@;
        let ghost ev = entry@;
        self.entries.push(entry);
        proof {
            assert(self@ =~= before.push(ev));
        }
    }

    /// Remove the row at index `i`.
    pub fn remove_entry(&mut self, i: usize)
        requires
            i < old(self)@.len(),
        ensures
            final(self)@ == old(self)@.remove(i as int),
    {
        let ghost before = self@;
        let _ = self.entries.remove(i);
        proof {
            assert(self@ =~= before.remove(i as int));
        }
    }

    pub fn writer_id_at(&self, i: usize) -> (r: u128)
        requires
            i < self@.len(),
        ensures
            r == self@[i as int].writer_id,
    {
        self.entries[i].writer_id
    }

    pub fn reader_id_at(&self, i: usize) -> (r: u128)
        requires
            i < self@.len(),
        ensures
            r == self@[i as int].reader_id,
    {
        self.entries[i].reader_id
    }

    pub fn has_chunk_at(&self, i: usize) -> (r: bool)
        requires
            i < self@.len(),
        ensures
            r == self@[i as int].edge.has_chunk(),
    {
        self.entries[i].edge.queue_len() > 0
    }

    pub fn is_drained_at(&self, i: usize) -> (r: bool)
        requires
            i < self@.len(),
        ensures
            r == self@[i as int].edge.is_drained(),
    {
        self.entries[i].edge.is_producer_closed() && self.entries[i].edge.queue_len() == 0
    }

    pub fn space_left_at(&self, i: usize) -> (r: bool)
        requires
            i < self@.len(),
        ensures
            r == self@[i as int].edge.space_left(),
    {
        self.entries[i].edge.queue_len() < self.entries[i].edge.capacity()
    }

    pub fn policy_at(&self, i: usize) -> (r: crate::edge::Policy)
        requires
            i < self@.len(),
        ensures
            r == self@[i as int].edge.policy,
    {
        self.entries[i].edge.policy_of()
    }

    pub fn provenance_at(&self, i: usize) -> (r: crate::edge::Provenance)
        requires
            i < self@.len(),
        ensures
            r == self@[i as int].edge.provenance,
    {
        self.entries[i].edge.provenance()
    }

    /// Offer a chunk to the edge at row `i` under its policy.
    pub fn offer_at(&mut self, i: usize, chunk: Vec<u8>) -> (r: OfferOutcome)
        requires
            i < old(self)@.len(),
            old(self)@[i as int].edge.wf(),
            chunk@.len() > 0,
        ensures
            final(self)@ == old(self)@.update(
                i as int,
                (EdgeEntryView {
                    edge: old(self)@[i as int].edge.offer(chunk@).0,
                    ..old(self)@[i as int]
                }),
            ),
            r == old(self)@[i as int].edge.offer(chunk@).1,
    {
        let ghost before = self@;
        let mut entry = self.entries.remove(i);
        let r = entry.edge.offer_chunk(chunk);
        let ghost ev = entry@;
        self.entries.insert(i, entry);
        proof {
            assert(self@ =~= before.update(i as int, ev));
        }
        r
    }

    /// Dequeue from the edge at row `i`.
    pub fn dequeue_at(&mut self, i: usize) -> (r: DequeueOutcome)
        requires
            i < old(self)@.len(),
            old(self)@[i as int].edge.wf(),
        ensures
            match r {
                DequeueOutcome::Chunk(c) => {
                    &&& old(self)@[i as int].edge.has_chunk()
                    &&& c@ == old(self)@[i as int].edge.chunks[0]
                    &&& final(self)@ == old(self)@.update(
                        i as int,
                        (EdgeEntryView {
                            edge: old(self)@[i as int].edge.take().0,
                            ..old(self)@[i as int]
                        }),
                    )
                },
                DequeueOutcome::Pending => {
                    &&& !old(self)@[i as int].edge.has_chunk()
                    &&& !old(self)@[i as int].edge.producer_closed
                    &&& final(self)@ == old(self)@
                },
                DequeueOutcome::EndOfData => {
                    &&& old(self)@[i as int].edge.is_drained()
                    &&& final(self)@ == old(self)@
                },
            },
    {
        let ghost before = self@;
        let mut entry = self.entries.remove(i);
        let r = entry.edge.dequeue_chunk();
        let ghost ev = entry@;
        self.entries.insert(i, entry);
        proof {
            assert(self@ =~= before.update(i as int, ev));
            match r {
                DequeueOutcome::Chunk(_) => {},
                _ => {
                    assert(ev == before[i as int]);
                    assert(self@ =~= before);
                },
            }
        }
        r
    }

    /// Close the producer endpoint of the edge at row `i`.
    pub fn close_producer_at(&mut self, i: usize)
        requires
            i < old(self)@.len(),
        ensures
            final(self)@ == old(self)@.update(
                i as int,
                (EdgeEntryView {
                    edge: (EdgeView { producer_closed: true, ..old(self)@[i as int].edge }),
                    ..old(self)@[i as int]
                }),
            ),
    {
        let ghost before = self@;
        let mut entry = self.entries.remove(i);
        entry.edge.close_producer();
        let ghost ev = entry@;
        self.entries.insert(i, entry);
        proof {
            assert(self@ =~= before.update(i as int, ev));
        }
    }
}

} // verus!
