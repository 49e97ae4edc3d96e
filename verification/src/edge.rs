//! Edges: bounded, ordered queues of byte chunks connecting one writer node
//! to one reader node.
//!
//! An edge holds a FIFO sequence of non-empty byte chunks, up to a fixed
//! capacity. What happens when a chunk is offered to a full edge is governed
//! by the edge's backpressure policy, fixed at creation: under `Block` the
//! producer must wait, under `DropNewest` the chunk is silently discarded and
//! the producer still sees success. An edge is also tagged with its
//! provenance: a `Spawn` edge was created together with a node spawned from
//! the peer and can never be detached; an `Explicit` edge came from a later
//! `attach` call and is detachable from either side.

use vstd::prelude::*;

verus! {

/// Backpressure policy of an edge: what happens when its queue is full.
#[derive(Clone, Copy, PartialEq, Eq, Structural, Debug)]
pub enum Policy {
    /// The producer suspends until space frees.
    Block,
    /// The chunk is discarded, the queue is unchanged, and success is
    /// reported to the producer.
    DropNewest,
}

/// How an edge came to exist, which decides whether it may be detached.
#[derive(Clone, Copy, PartialEq, Eq, Structural, Debug)]
pub enum Provenance {
    /// Created atomically with a node spawned from the peer; never
    /// detachable from either endpoint.
    Spawn,
    /// Created by a later `attach` call; detachable from either endpoint.
    Explicit,
}

/// Errors of the graph operations. They are local: a failed operation
/// changes no state.
#[derive(Clone, Copy, PartialEq, Eq, Structural, Debug)]
pub enum GraphError {
    /// An attach found an edge already installed for that identifier pair.
    EdgeAlreadyExists,
    /// A detach (or an add by identifier) referenced an unknown edge.
    EdgeNotFound,
    /// A detach was attempted on a `Spawn`-provenance edge.
    DetachForbidden,
}

/// What became of a chunk offered to an edge.
#[derive(Clone, Copy, PartialEq, Eq, Structural, Debug)]
pub enum OfferOutcome {
    /// The chunk was appended to the queue.
    Delivered,
    /// The queue was full and the edge's policy is `DropNewest`: the chunk
    /// was discarded, and the producer is not penalized.
    Dropped,
    /// The queue was full and the edge's policy is `Block`: the producer
    /// must wait for the consumer to drain a chunk.
    MustWait,
}

/// What a dequeue yielded.
#[derive(Clone, Debug, PartialEq, Eq)]
pub enum DequeueOutcome {
    /// The next chunk, in FIFO order.
    Chunk(Vec<u8>),
    /// The queue is empty but the producer may still enqueue.
    Pending,
    /// The queue is empty and the producer is gone: no chunk will ever
    /// arrive again.
    EndOfData,
}

/// A bounded FIFO queue of byte chunks, the channel between a writer node
/// and a reader node.
pub struct Edge {
    chunks: Vec<Vec<u8>>,
    capacity: usize,
    policy: Policy,
    provenance: Provenance,
    producer_closed: bool,
}

/// The mathematical model of an edge: the queued chunks as a sequence of
/// byte sequences, plus the fixed parameters.
pub struct EdgeView {
    pub chunks: Seq<Seq<u8>>,
    pub capacity: int,
    pub policy: Policy,
    pub provenance: Provenance,
    pub producer_closed: bool,
}

impl View for Edge {
    type V = EdgeView;

    closed spec fn view(&self) -> EdgeView {
        EdgeView {
            chunks: self.chunks@.map_values(|c: Vec<u8>| c@),
            capacity: self.capacity as int,
            policy: self.policy,
            provenance: self.provenance,
            producer_closed: self.producer_closed,
        }
    }
}

impl EdgeView {
    /// Well-formedness: positive capacity, queue within capacity, and no
    /// empty chunks queued.
    pub open spec fn wf(self) -> bool {
        &&& self.capacity >= 1
        &&& self.chunks.len() <= self.capacity
        &&& forall|i: int| 0 <= i < self.chunks.len() ==> (#[trigger] self.chunks[i]).len() > 0
    }

    /// A chunk is available to dequeue.
    pub open spec fn has_chunk(self) -> bool {
        self.chunks.len() > 0
    }

    /// The producer is gone and nothing is queued: the consumer observes
    /// end-of-data, never an error.
    pub open spec fn is_drained(self) -> bool {
        self.producer_closed && self.chunks.len() == 0
    }

    /// The queue has room for one more chunk.
    pub open spec fn space_left(self) -> bool {
        self.chunks.len() < self.capacity
    }

    /// One offer transition: the new edge state and what the producer is
    /// told.
    pub open spec fn offer(self, c: Seq<u8>) -> (EdgeView, OfferOutcome) {
        if self.space_left() {
            (EdgeView { chunks: self.chunks.push(c), ..self }, OfferOutcome::Delivered)
        } else if self.policy is DropNewest {
            (self, OfferOutcome::Dropped)
        } else {
            (self, OfferOutcome::MustWait)
        }
    }

    /// One dequeue transition: the new edge state and the chunk taken, if
    /// one was available.
    pub open spec fn take(self) -> (EdgeView, Option<Seq<u8>>) {
        if self.has_chunk() {
            (EdgeView { chunks: self.chunks.drop_first(), ..self }, Some(self.chunks[0]))
        } else {
            (self, None)
        }
    }
}

/// Offering a chunk cannot break edge well-formedness.
pub proof fn lemma_offer_preserves_wf(e: EdgeView, c: Seq<u8>)
    requires
        e.wf(),
        c.len() > 0,
    ensures
        e.offer(c).0.wf(),
{
    if e.space_left() {
        let chunks = e.chunks.push(c);
        assert(forall|i: int| 0 <= i < chunks.len() ==> (#[trigger] chunks[i]).len() > 0) by {
            assert(forall|i: int|
                0 <= i < e.chunks.len() ==> chunks[i] == (#[trigger] e.chunks[i]));
        }
    }
}

/// Taking a chunk cannot break edge well-formedness.
pub proof fn lemma_take_preserves_wf(e: EdgeView)
    requires
        e.wf(),
    ensures
        e.take().0.wf(),
{
    if e.has_chunk() {
        let chunks = e.chunks.drop_first();
        assert(forall|i: int| 0 <= i < chunks.len() ==> (#[trigger] chunks[i]).len() > 0) by {
            assert(forall|i: int| 0 <= i < chunks.len() ==> chunks[i] == e.chunks[i + 1]);
        }
    }
}

/// The state of a freshly created, empty edge.
pub open spec fn empty_edge_view(
    capacity: int,
    policy: Policy,
    provenance: Provenance,
) -> EdgeView {
    EdgeView {
        chunks: Seq::empty(),
        capacity: capacity,
        policy: policy,
        provenance: provenance,
        producer_closed: false,
    }
}

impl Edge {
    /// A new empty edge with the given fixed parameters.
    pub fn new(capacity: usize, policy: Policy, provenance: Provenance) -> (r: Edge)
        requires
            capacity >= 1,
        ensures
            r@ == empty_edge_view(capacity as int, policy, provenance),
            r@.wf(),
    {
        let r = Edge {
            chunks: Vec::new(),
            capacity: capacity,
            policy: policy,
            provenance: provenance,
            producer_closed: false,
        };
        proof {
            assert(r@.chunks =~= Seq::<Seq<u8>>::empty());
            assert(r@ =~= empty_edge_view(capacity as int, policy, provenance));
        }
        r
    }

    pub fn provenance(&self) -> (r: Provenance)
        ensures
            r == self@.provenance,
    {
        self.provenance
    }

    pub fn policy_of(&self) -> (r: Policy)
        ensures
            r == self@.policy,
    {
        self.policy
    }

    pub fn capacity(&self) -> (r: usize)
        ensures
            r as int == self@.capacity,
    {
        self.capacity
    }

    pub fn queue_len(&self) -> (r: usize)
        ensures
            r as int == self@.chunks.len(),
    {
        self.chunks.len()
    }

    pub fn is_producer_closed(&self) -> (r: bool)
        ensures
            r == self@.producer_closed,
    {
        self.producer_closed
    }

    /// Mark the producer endpoint gone; the consumer will observe
    /// end-of-data once the queue is drained.
    pub fn close_producer(&mut self)
        ensures
            final(self)@ == (EdgeView { producer_closed: true, ..old(self)@ }),
    {
        self.producer_closed = true;
    }

    /// Offer a chunk to this edge under its configured policy.
    pub fn offer_chunk(&mut self, chunk: Vec<u8>) -> (r: OfferOutcome)
        requires
            old(self)@.wf(),
            chunk@.len() > 0,
        ensures
            final(self)@ == old(self)@.offer(chunk@).0,
            r == old(self)@.offer(chunk@).1,
            final(self)@.wf(),
    {
        if self.chunks.len() < self.capacity {
            let ghost before = self@.chunks;
            self.chunks.push(chunk);
            proof {
                assert(self@.chunks =~= before.push(chunk@));
            }
            OfferOutcome::Delivered
        } else {
            match self.policy {
                Policy::DropNewest => OfferOutcome::Dropped,
                Policy::Block => OfferOutcome::MustWait,
            }
        }
    }

    /// Dequeue the next chunk in FIFO order, or report why none came.
    pub fn dequeue_chunk(&mut self) -> (r: DequeueOutcome)
        requires
            old(self)@.wf(),
        ensures
            final(self)@.wf(),
            match r {
                DequeueOutcome::Chunk(c) => {
                    &&& old(self)@.has_chunk()
                    &&& c@ == old(self)@.chunks[0]
                    &&& final(self)@ == old(self)@.take().0
                },
                DequeueOutcome::Pending => {
                    &&& !old(self)@.has_chunk()
                    &&& !old(self)@.producer_closed
                    &&& *final(self) == *old(self)
                },
                DequeueOutcome::EndOfData => {
                    &&& old(self)@.is_drained()
                    &&& *final(self) == *old(self)
                },
            },
    {
        if self.chunks.len() > 0 {
            let ghost before = self@.chunks;
            let c = self.chunks.remove(0);
            proof {
                assert(self@.chunks =~= before.drop_first());
            }
            DequeueOutcome::Chunk(c)
        } else if self.producer_closed {
            DequeueOutcome::EndOfData
        } else {
            DequeueOutcome::Pending
        }
    }
}

} // verus!
