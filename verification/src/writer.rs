//! Writer nodes: broadcast caller-supplied bytes to one downstream
//! transport and any number of outbound edges.
//!
//! The downstream transport is authoritative: the runtime performs the
//! transport write and hands its outcome to [`MultiWriter::write_step`].
//! Only the bytes the transport actually accepted are then offered to every
//! outbound edge under its configured policy. An edge under `DropNewest`
//! never slows the node down; an edge under `Block` that is full suspends
//! the broadcast, which [`MultiWriter::resume_broadcast`] continues after
//! the consumer drains a chunk — so the overall write completes only once
//! every edge has accepted, making the slowest `Block` edge the throughput
//! ceiling by design.

use vstd::prelude::*;

use crate::DEFAULT_EDGE_CAPACITY;
use crate::edge::{Edge, EdgeView, Policy, Provenance, GraphError, empty_edge_view,
    lemma_offer_preserves_wf};
use crate::net::{Net, EdgeEntry, EdgeEntryView, has_edge, edge_at, edge_index, net_wf,
    lemma_edge_index_unique, lemma_push_entry_preserves, lemma_remove_entry_preserves};
use crate::ids::{fresh_id, distinct_ids, remove_first, remove_id, contains_id,
    lemma_remove_first_props};
use crate::reader::{MultiReader, ReaderView, detach_contract};

verus! {

/// The outcome of the downstream transport write, handed in by the runtime.
#[derive(Clone, Debug, PartialEq, Eq)]
pub enum WritePoll {
    /// The transport accepted this many bytes.
    Accepted(usize),
    /// The transport is not ready.
    Pending,
    /// The transport failed.
    Error,
}

/// What one write round returned to the caller.
#[derive(Clone, Debug, PartialEq, Eq)]
pub enum WriteOutcome {
    /// The transport accepted this many bytes and every outbound edge has
    /// been offered them under its policy.
    Complete(usize),
    /// The transport accepted this many bytes, but a full `Block` edge
    /// suspended the broadcast; the caller must resume it once the
    /// consumer drains a chunk.
    Blocked(usize),
    /// The transport was not ready; nothing was written anywhere.
    Pending,
    /// The transport failed; the error is propagated verbatim and no edge
    /// delivery is attempted on this call.
    TransportError,
}

/// A broadcast suspended at a full `Block` edge: the accepted bytes and the
/// outbound position to offer them to next.
pub struct InFlight {
    chunk: Vec<u8>,
    next: usize,
}

/// The mathematical model of a suspended broadcast.
pub struct InFlightView {
    pub chunk: Seq<u8>,
    pub next: int,
}

impl View for InFlight {
    type V = InFlightView;

    closed spec fn view(&self) -> InFlightView {
        InFlightView { chunk: self.chunk@, next: self.next as int }
    }
}

/// A writer node: one optional downstream transport and a set of outbound
/// edges.
pub struct MultiWriter {
    id: u128,
    transport_open: bool,
    outbound: Vec<u128>,
    buffer_size: usize,
    policy: Policy,
    shut: bool,
    in_flight: Option<InFlight>,
}

/// The mathematical model of a writer node.
pub struct WriterView {
    pub id: u128,
    pub transport_open: bool,
    pub outbound: Seq<u128>,
    pub buffer_size: int,
    pub policy: Policy,
    pub shut: bool,
    pub in_flight: Option<InFlightView>,
}

impl View for MultiWriter {
    type V = WriterView;

    closed spec fn view(&self) -> WriterView {
        WriterView {
            id: self.id,
            transport_open: self.transport_open,
            outbound: self.outbound@,
            buffer_size: self.buffer_size as int,
            policy: self.policy,
            shut: self.shut,
            in_flight: match self.in_flight {
                Some(f) => Some(f@),
                None => None,
            },
        }
    }
}

impl WriterView {
    /// The node's own shape: the outbound readers are distinct and a
    /// suspended broadcast, if any, is at a valid outbound position with a
    /// non-empty chunk.
    pub open spec fn shape_wf(self) -> bool {
        &&& self.buffer_size >= 1
        &&& distinct_ids(self.outbound)
        &&& match self.in_flight {
            Some(f) => 0 <= f.next <= self.outbound.len() && f.chunk.len() > 0,
            None => true,
        }
    }

    /// Well-formedness against the edge table: the shape holds and every
    /// outbound reader has an edge from this node.
    pub open spec fn wf(self, nv: Seq<EdgeEntryView>) -> bool {
        &&& self.shape_wf()
        &&& forall|i: int|
            0 <= i < self.outbound.len() ==> has_edge(nv, self.id, #[trigger] self.outbound[i])
    }

    /// The outbound edge at position `j` of the outbound list.
    pub open spec fn out_edge(self, nv: Seq<EdgeEntryView>, j: int) -> EdgeView {
        edge_at(nv, self.id, self.outbound[j])
    }

    /// The first outbound position at or past `k` whose edge is full and
    /// under `Block` policy — where a broadcast must suspend.
    pub open spec fn first_blocked_from(self, nv: Seq<EdgeEntryView>, k: int) -> Option<int>
        decreases self.outbound.len() - k,
    {
        if k < 0 || k >= self.outbound.len() {
            None
        } else if !self.out_edge(nv, k).space_left() && self.out_edge(nv, k).policy is Block {
            Some(k)
        } else {
            self.first_blocked_from(nv, k + 1)
        }
    }

    /// The edge table after `c` has been offered to the outbound edges at
    /// positions `from` up to (excluding) `stop`.
    pub open spec fn offered_net(
        self,
        nv: Seq<EdgeEntryView>,
        c: Seq<u8>,
        from: int,
        stop: int,
    ) -> Seq<EdgeEntryView> {
        Seq::new(
            nv.len(),
            |i: int|
                {
                    let en = nv[i];
                    if en.writer_id == self.id && (exists|j: int|
                        from <= j < stop && #[trigger] self.outbound[j] == en.reader_id) {
                        EdgeEntryView { edge: en.edge.offer(c).0, ..en }
                    } else {
                        en
                    }
                },
        )
    }

    /// The edge table after the producer endpoint of every outbound edge
    /// at a position below `stop` has been closed.
    pub open spec fn closed_net(self, nv: Seq<EdgeEntryView>, stop: int) -> Seq<EdgeEntryView> {
        Seq::new(
            nv.len(),
            |i: int|
                {
                    let en = nv[i];
                    if en.writer_id == self.id && (exists|j: int|
                        0 <= j < stop && #[trigger] self.outbound[j] == en.reader_id) {
                        EdgeEntryView { edge: (EdgeView { producer_closed: true, ..en.edge }), ..en }
                    } else {
                        en
                    }
                },
        )
    }
}

/// Offering a chunk to a window of outbound edges keeps the table well
/// formed and preserves every edge key.
pub proof fn lemma_offered_net_preserves(
    w: WriterView,
    nv: Seq<EdgeEntryView>,
    c: Seq<u8>,
    from: int,
    stop: int,
)
    requires
        net_wf(nv),
        c.len() > 0,
    ensures
        w.offered_net(nv, c, from, stop).len() == nv.len(),
        forall|i: int|
            0 <= i < nv.len() ==> (#[trigger] w.offered_net(nv, c, from, stop)[i]).writer_id
                == nv[i].writer_id && w.offered_net(nv, c, from, stop)[i].reader_id
                == nv[i].reader_id,
        net_wf(w.offered_net(nv, c, from, stop)),
        forall|a: u128, b: u128|
            #[trigger] has_edge(w.offered_net(nv, c, from, stop), a, b) == has_edge(nv, a, b),
{
    let m = w.offered_net(nv, c, from, stop);
    assert forall|i: int|
        0 <= i < nv.len() implies (#[trigger] m[i]).writer_id == nv[i].writer_id
        && m[i].reader_id == nv[i].reader_id && m[i].edge.wf() by {
        if nv[i].writer_id == w.id && (exists|j: int|
            from <= j < stop && #[trigger] w.outbound[j] == nv[i].reader_id) {
            lemma_offer_preserves_wf(nv[i].edge, c);
        }
    }
    assert forall|a: u128, b: u128| #[trigger] has_edge(m, a, b) == has_edge(nv, a, b) by {
        if has_edge(nv, a, b) {
            let i = choose|i: int|
                0 <= i < nv.len() && (#[trigger] nv[i]).writer_id == a && nv[i].reader_id == b;
            assert(m[i].writer_id == a && m[i].reader_id == b);
        }
        if has_edge(m, a, b) {
            let i = choose|i: int|
                0 <= i < m.len() && (#[trigger] m[i]).writer_id == a && m[i].reader_id == b;
            assert(nv[i].writer_id == a && nv[i].reader_id == b);
        }
    }
}

/// Closing a window of outbound producers keeps the table well formed and
/// preserves every edge key.
pub proof fn lemma_closed_net_preserves(w: WriterView, nv: Seq<EdgeEntryView>, stop: int)
    requires
        net_wf(nv),
    ensures
        w.closed_net(nv, stop).len() == nv.len(),
        forall|i: int|
            0 <= i < nv.len() ==> (#[trigger] w.closed_net(nv, stop)[i]).writer_id
                == nv[i].writer_id && w.closed_net(nv, stop)[i].reader_id == nv[i].reader_id,
        net_wf(w.closed_net(nv, stop)),
        forall|a: u128, b: u128|
            #[trigger] has_edge(w.closed_net(nv, stop), a, b) == has_edge(nv, a, b),
{
    let m = w.closed_net(nv, stop);
    assert forall|i: int|
        0 <= i < nv.len() implies (#[trigger] m[i]).writer_id == nv[i].writer_id
        && m[i].reader_id == nv[i].reader_id && m[i].edge.wf() by {}
    assert forall|a: u128, b: u128| #[trigger] has_edge(m, a, b) == has_edge(nv, a, b) by {
        if has_edge(nv, a, b) {
            let i = choose|i: int|
                0 <= i < nv.len() && (#[trigger] nv[i]).writer_id == a && nv[i].reader_id == b;
            assert(m[i].writer_id == a && m[i].reader_id == b);
        }
        if has_edge(m, a, b) {
            let i = choose|i: int|
                0 <= i < m.len() && (#[trigger] m[i]).writer_id == a && m[i].reader_id == b;
            assert(nv[i].writer_id == a && nv[i].reader_id == b);
        }
    }
}

/// Widening the offered window by one position touches exactly the entry
/// of the edge at that position.
pub proof fn lemma_offered_net_step(
    w: WriterView,
    n0: Seq<EdgeEntryView>,
    c: Seq<u8>,
    start: int,
    jj: int,
    idx: int,
)
    requires
        net_wf(n0),
        distinct_ids(w.outbound),
        0 <= start <= jj < w.outbound.len(),
        0 <= idx < n0.len(),
        n0[idx].writer_id == w.id,
        n0[idx].reader_id == w.outbound[jj],
    ensures
        forall|i: int|
            0 <= i < n0.len() && i != idx ==> #[trigger] w.offered_net(n0, c, start, jj + 1)[i]
                == w.offered_net(n0, c, start, jj)[i],
        w.offered_net(n0, c, start, jj + 1)[idx] == (EdgeEntryView {
            edge: n0[idx].edge.offer(c).0,
            ..n0[idx]
        }),
{
    let m1 = w.offered_net(n0, c, start, jj + 1);
    let m0 = w.offered_net(n0, c, start, jj);
    assert forall|i: int| 0 <= i < n0.len() && i != idx implies #[trigger] m1[i] == m0[i] by {
        let en = n0[i];
        if en.writer_id == w.id && (exists|j: int|
            start <= j < jj + 1 && #[trigger] w.outbound[j] == en.reader_id) {
            let j = choose|j: int|
                start <= j < jj + 1 && #[trigger] w.outbound[j] == en.reader_id;
            if j == jj {
                assert(en.writer_id == n0[idx].writer_id && en.reader_id == n0[idx].reader_id);
                assert(false);
            } else {
                assert(start <= j < jj && w.outbound[j] == en.reader_id);
            }
        }
    }
    assert(w.outbound[jj] == n0[idx].reader_id);
    assert(m1[idx] == (EdgeEntryView { edge: n0[idx].edge.offer(c).0, ..n0[idx] }));
}

impl MultiWriter {
    /// A new writer node wrapping a downstream transport, with no outbound
    /// edges yet. A missing identifier is drawn fresh; a missing capacity
    /// defaults to [`DEFAULT_EDGE_CAPACITY`]. `buffer_size` and `policy`
    /// fix the capacity and backpressure policy of edges this node creates.
    pub fn new(id: Option<u128>, buffer_size: Option<usize>, policy: Policy) -> (r: MultiWriter)
        requires
            buffer_size matches Some(b) ==> b >= 1,
        ensures
            (id matches Some(v) ==> r@.id == v),
            r@.transport_open,
            r@.outbound == Seq::<u128>::empty(),
            r@.buffer_size == (match buffer_size {
                Some(b) => b as int,
                None => DEFAULT_EDGE_CAPACITY as int,
            }),
            r@.policy == policy,
            !r@.shut,
            r@.in_flight is None,
            forall|nv: Seq<EdgeEntryView>| #[trigger] r@.wf(nv),
    {
        let node_id = match id {
            Some(v) => v,
            None => fresh_id(),
        };
        let cap = match buffer_size {
            Some(b) => b,
            None => DEFAULT_EDGE_CAPACITY,
        };
        let r = MultiWriter {
            id: node_id,
            transport_open: true,
            outbound: Vec::new(),
            buffer_size: cap,
            policy: policy,
            shut: false,
            in_flight: None,
        };
        proof {
            assert(r@.outbound =~= Seq::<u128>::empty());
        }
        r
    }

    pub fn id(&self) -> (r: u128)
        ensures
            r == self@.id,
    {
        self.id
    }

    /// A broadcast is suspended at a full `Block` edge.
    pub fn is_blocked(&self) -> (r: bool)
        ensures
            r == (self@.in_flight is Some),
    {
        self.in_flight.is_some()
    }

    /// The node has shut its outbound edges down and accepts no more
    /// writes.
    pub fn is_shut(&self) -> (r: bool)
        ensures
            r == self@.shut,
    {
        self.shut
    }

    /// Offer `chunk` to the outbound edges from position `start` on, in
    /// order, each under its own policy, stopping at the first full
    /// `Block` edge.
    #[verifier::loop_isolation(false)]
    fn broadcast_from(&mut self, net: &mut Net, chunk: Vec<u8>, start: usize) -> (done: bool)
        requires
            old(self)@.wf(old(net)@),
            net_wf(old(net)@),
            old(self)@.in_flight is None,
            chunk@.len() > 0,
            start <= old(self)@.outbound.len(),
        ensures
            final(self)@.wf(final(net)@),
            net_wf(final(net)@),
            ({
                let w0 = old(self)@;
                let n0 = old(net)@;
                let s1 = final(self)@;
                let n1 = final(net)@;
                match w0.first_blocked_from(n0, start as int) {
                    None => {
                        &&& done
                        &&& n1 == w0.offered_net(n0, chunk@, start as int,
                            w0.outbound.len() as int)
                        &&& s1 == w0
                    },
                    Some(b) => {
                        &&& !done
                        &&& n1 == w0.offered_net(n0, chunk@, start as int, b)
                        &&& s1 == (WriterView {
                            in_flight: Some(InFlightView { chunk: chunk@, next: b }),
                            ..w0
                        })
                    },
                }
            }),
    {
        let ghost w0 = old(self)@;
        let ghost n0 = old(net)@;
        let n = self.outbound.len();
        let mut jj: usize = start;
        proof {
            assert(net@ =~= w0.offered_net(n0, chunk@, start as int, start as int));
        }
        while jj < n
            invariant
                start <= jj <= n,
                n == w0.outbound.len(),
                self@ == w0,
                net@ == w0.offered_net(n0, chunk@, start as int, jj as int),
                w0.first_blocked_from(n0, start as int) == w0.first_blocked_from(n0, jj as int),
            decreases n - jj,
        {
            let rdr = self.outbound[jj];
            proof {
                assert(has_edge(n0, w0.id, w0.outbound[jj as int]));
                lemma_offered_net_preserves(w0, n0, chunk@, start as int, jj as int);
            }
            let idx = match net.lookup(self.id, rdr) {
                Some(i) => i,
                None => unreached(),
            };
            proof {
                assert(net@[idx as int].writer_id == w0.id && net@[idx as int].reader_id == rdr);
                assert(n0[idx as int].writer_id == w0.id && n0[idx as int].reader_id == rdr);
                lemma_edge_index_unique(n0, w0.id, rdr, idx as int);
                // This edge has not been offered to yet: its reader is not
                // among the outbound positions already visited.
                if exists|j: int|
                    start <= j < jj && #[trigger] w0.outbound[j] == n0[idx as int].reader_id {
                    let j = choose|j: int|
                        start <= j < jj && #[trigger] w0.outbound[j]
                            == n0[idx as int].reader_id;
                    assert(w0.outbound[j] == w0.outbound[jj as int]);
                    assert(false);
                }
                assert(net@[idx as int] == n0[idx as int]);
                assert(w0.out_edge(n0, jj as int) == n0[idx as int].edge);
            }
            if net.space_left_at(idx) {
                let copy = crate::copy_bytes(&chunk);
                let _ = net.offer_at(idx, copy);
                proof {
                    lemma_offered_net_step(w0, n0, chunk@, start as int, jj as int, idx as int);
                    assert(net@ =~= w0.offered_net(n0, chunk@, start as int, jj + 1));
                }
            } else {
                match net.policy_at(idx) {
                    Policy::DropNewest => {
                        proof {
                            lemma_offered_net_step(w0, n0, chunk@, start as int, jj as int,
                                idx as int);
                            assert(n0[idx as int].edge.offer(chunk@).0 == n0[idx as int].edge);
                            assert(net@ =~= w0.offered_net(n0, chunk@, start as int, jj + 1));
                        }
                    },
                    Policy::Block => {
                        proof {
                            assert(w0.first_blocked_from(n0, jj as int) == Some(jj as int));
                            lemma_offered_net_preserves(w0, n0, chunk@, start as int, jj as int);
                        }
                        self.in_flight = Some(InFlight { chunk: chunk, next: jj });
                        return false;
                    },
                }
            }
            proof {
                assert(w0.first_blocked_from(n0, jj + 1) == w0.first_blocked_from(n0,
                    start as int));
            }
            jj += 1;
        }
        proof {
            lemma_offered_net_preserves(w0, n0, chunk@, start as int, n as int);
        }
        true
    }

    /// One write round, entered only with no broadcast suspended.
    ///
    /// `transport` is the outcome the runtime got from writing `bytes` to
    /// the downstream transport; it is ignored if the node has no
    /// transport, in which case all of `bytes` counts as accepted. The
    /// transport's count is authoritative and returned to the caller; the
    /// bytes it accepted are then offered to every outbound edge in order,
    /// each under its own policy. A full `Block` edge suspends the
    /// broadcast, to be continued by [`MultiWriter::resume_broadcast`];
    /// transport throughput is never held back retroactively.
    pub fn write_step(&mut self, net: &mut Net, transport: WritePoll, bytes: &Vec<u8>) -> (r:
        WriteOutcome)
        requires
            old(self)@.wf(old(net)@),
            net_wf(old(net)@),
            old(self)@.in_flight is None,
            !old(self)@.shut,
            old(self)@.transport_open ==> (transport matches WritePoll::Accepted(m) ==> m
                <= bytes@.len()),
        ensures
            final(self)@.wf(final(net)@),
            net_wf(final(net)@),
            ({
                let w0 = old(self)@;
                let n0 = old(net)@;
                let s1 = final(self)@;
                let n1 = final(net)@;
                match r {
                    WriteOutcome::Pending => {
                        &&& w0.transport_open
                        &&& transport is Pending
                        &&& s1 == w0
                        &&& n1 == n0
                    },
                    WriteOutcome::TransportError => {
                        &&& w0.transport_open
                        &&& transport is Error
                        &&& s1 == w0
                        &&& n1 == n0
                    },
                    WriteOutcome::Complete(nn) => {
                        &&& (w0.transport_open ==> transport == WritePoll::Accepted(nn))
                        &&& (!w0.transport_open ==> nn as int == bytes@.len())
                        &&& if nn == 0 {
                            s1 == w0 && n1 == n0
                        } else {
                            let c = bytes@.subrange(0, nn as int);
                            &&& w0.first_blocked_from(n0, 0) is None
                            &&& n1 == w0.offered_net(n0, c, 0, w0.outbound.len() as int)
                            &&& s1 == w0
                        }
                    },
                    WriteOutcome::Blocked(nn) => {
                        &&& (w0.transport_open ==> transport == WritePoll::Accepted(nn))
                        &&& (!w0.transport_open ==> nn as int == bytes@.len())
                        &&& nn > 0
                        &&& (w0.first_blocked_from(n0, 0) matches Some(b) && {
                            let c = bytes@.subrange(0, nn as int);
                            &&& n1 == w0.offered_net(n0, c, 0, b)
                            &&& s1 == (WriterView {
                                in_flight: Some(InFlightView { chunk: c, next: b }),
                                ..w0
                            })
                        })
                    },
                }
            }),
    {
        let n: usize;
        if self.transport_open {
            match transport {
                WritePoll::Pending => {
                    return WriteOutcome::Pending;
                },
                WritePoll::Error => {
                    return WriteOutcome::TransportError;
                },
                WritePoll::Accepted(m) => {
                    n = m;
                },
            }
        } else {
            n = bytes.len();
        }
        if n == 0 {
            return WriteOutcome::Complete(0);
        }
        let chunk = crate::copy_prefix(bytes, n);
        let done = self.broadcast_from(net, chunk, 0);
        if done {
            WriteOutcome::Complete(n)
        } else {
            WriteOutcome::Blocked(n)
        }
    }

    /// Continue a suspended broadcast from the edge that blocked it.
    /// Returns whether every remaining edge has now been offered the
    /// chunk; if not, the broadcast is suspended again at the next full
    /// `Block` edge.
    pub fn resume_broadcast(&mut self, net: &mut Net) -> (done: bool)
        requires
            old(self)@.wf(old(net)@),
            net_wf(old(net)@),
            old(self)@.in_flight is Some,
        ensures
            final(self)@.wf(final(net)@),
            net_wf(final(net)@),
            ({
                let w0 = old(self)@;
                let n0 = old(net)@;
                let s1 = final(self)@;
                let n1 = final(net)@;
                w0.in_flight matches Some(f) ==> match w0.first_blocked_from(n0, f.next) {
                    None => {
                        &&& done
                        &&& n1 == w0.offered_net(n0, f.chunk, f.next, w0.outbound.len() as int)
                        &&& s1 == (WriterView { in_flight: None, ..w0 })
                    },
                    Some(b) => {
                        &&& !done
                        &&& n1 == w0.offered_net(n0, f.chunk, f.next, b)
                        &&& s1 == (WriterView {
                            in_flight: Some(InFlightView { chunk: f.chunk, next: b }),
                            ..w0
                        })
                    },
                }
            }),
    {
        let ghost w0 = old(self)@;
        let ghost n0 = old(net)@;
        let f = match self.in_flight.take() {
            Some(f) => f,
            None => unreached(),
        };
        let ghost base = self@;
        let done = self.broadcast_from(net, f.chunk, f.next);
        proof {
            lemma_scan_congruent(base, w0, n0, f@.chunk);
        }
        done
    }

    /// Close the producer endpoint of every outbound edge, so that each
    /// consumer observes end-of-data once it drains what is queued, and
    /// mark this node shut.
    #[verifier::loop_isolation(false)]
    pub fn shutdown_edges(&mut self, net: &mut Net)
        requires
            old(self)@.wf(old(net)@),
            net_wf(old(net)@),
            old(self)@.in_flight is None,
        ensures
            final(self)@.wf(final(net)@),
            net_wf(final(net)@),
            final(net)@ == old(self)@.closed_net(old(net)@, old(self)@.outbound.len() as int),
            final(self)@ == (WriterView { shut: true, ..old(self)@ }),
    {
        let ghost w0 = old(self)@;
        let ghost n0 = old(net)@;
        let n = self.outbound.len();
        let mut q: usize = 0;
        proof {
            assert(net@ =~= w0.closed_net(n0, 0));
        }
        while q < n
            invariant
                q <= n,
                n == w0.outbound.len(),
                self@ == w0,
                net@ == w0.closed_net(n0, q as int),
            decreases n - q,
        {
            let rdr = self.outbound[q];
            proof {
                assert(has_edge(n0, w0.id, w0.outbound[q as int]));
                lemma_closed_net_preserves(w0, n0, q as int);
            }
            let idx = match net.lookup(self.id, rdr) {
                Some(i) => i,
                None => unreached(),
            };
            proof {
                assert(n0[idx as int].writer_id == w0.id && n0[idx as int].reader_id == rdr);
                lemma_edge_index_unique(n0, w0.id, rdr, idx as int);
                lemma_closed_net_step(w0, n0, q as int, idx as int);
                assert(net@[idx as int] == n0[idx as int]);
            }
            net.close_producer_at(idx);
            proof {
                assert(net@ =~= w0.closed_net(n0, q + 1));
            }
            q += 1;
        }
        self.shut = true;
        proof {
            lemma_closed_net_preserves(w0, n0, n as int);
        }
    }

    /// A writer created together with a spawn edge to `sink`; it has no
    /// downstream transport of its own.
    pub(crate) fn new_spawned(id: u128, sink: u128, buffer_size: usize, policy: Policy) -> (r:
        MultiWriter)
        requires
            buffer_size >= 1,
        ensures
            r@ == (WriterView {
                id: id,
                transport_open: false,
                outbound: seq![sink],
                buffer_size: buffer_size as int,
                policy: policy,
                shut: false,
                in_flight: None,
            }),
    {
        let mut outbound: Vec<u128> = Vec::new();
        outbound.push(sink);
        let r = MultiWriter {
            id: id,
            transport_open: false,
            outbound: outbound,
            buffer_size: buffer_size,
            policy: policy,
            shut: false,
            in_flight: None,
        };
        proof {
            assert(r@.outbound =~= seq![sink]);
        }
        r
    }

    /// The capacity this node gives to edges it creates.
    pub fn buffer_size(&self) -> (r: usize)
        ensures
            r as int == self@.buffer_size,
    {
        self.buffer_size
    }

    /// The backpressure policy this node gives to edges it creates.
    pub fn policy(&self) -> (r: Policy)
        ensures
            r == self@.policy,
    {
        self.policy
    }

    /// Record one more outbound reader.
    pub(crate) fn push_outbound(&mut self, r: u128)
        ensures
            final(self)@ == (WriterView { outbound: old(self)@.outbound.push(r), ..old(self)@ }),
    {
        self.outbound.push(r);
    }

    /// Forget an outbound reader.
    pub(crate) fn remove_outbound(&mut self, x: u128)
        ensures
            final(self)@ == (WriterView {
                outbound: remove_first(old(self)@.outbound, x),
                ..old(self)@
            }),
    {
        let _ = remove_id(&mut self.outbound, x);
    }

    /// After pushing a fresh outbound reader and the matching table row,
    /// the node is still well formed.
    pub(crate) proof fn lemma_wf_after_push_outbound(
        &self,
        w0: WriterView,
        n0: Seq<EdgeEntryView>,
        n1: Seq<EdgeEntryView>,
        r: u128,
    )
        requires
            w0.wf(n0),
            net_wf(n0),
            !has_edge(n0, w0.id, r),
            self@ == (WriterView { outbound: w0.outbound.push(r), ..w0 }),
            has_edge(n1, w0.id, r),
            forall|a: u128, b: u128|
                !(a == w0.id && b == r) ==> #[trigger] has_edge(n1, a, b) == has_edge(n0, a, b),
        ensures
            self@.wf(n1),
    {
        let w1 = self@;
        assert(!w0.outbound.contains(r)) by {
            if w0.outbound.contains(r) {
                let i = choose|i: int| 0 <= i < w0.outbound.len() && w0.outbound[i] == r;
                assert(has_edge(n0, w0.id, w0.outbound[i]));
            }
        }
        assert(distinct_ids(w1.outbound)) by {
            assert(forall|i: int|
                0 <= i < w0.outbound.len() ==> w1.outbound[i] == (#[trigger] w0.outbound[i]));
            assert(w1.outbound[w0.outbound.len() as int] == r);
        }
        assert forall|i: int|
            0 <= i < w1.outbound.len() implies has_edge(n1, w1.id,
            #[trigger] w1.outbound[i]) by {
            if i < w0.outbound.len() {
                assert(w1.outbound[i] == w0.outbound[i]);
                assert(has_edge(n0, w0.id, w0.outbound[i]));
                assert(w0.outbound[i] != r || has_edge(n0, w0.id, r));
            } else {
                assert(w1.outbound[i] == r);
            }
        }
    }

    /// After removing an outbound reader and the matching table row, the
    /// node is still well formed.
    pub(crate) proof fn lemma_wf_after_remove_outbound(
        &self,
        w0: WriterView,
        n0: Seq<EdgeEntryView>,
        n1: Seq<EdgeEntryView>,
        x: u128,
    )
        requires
            w0.wf(n0),
            net_wf(n0),
            w0.in_flight is None,
            self@ == (WriterView { outbound: remove_first(w0.outbound, x), ..w0 }),
            forall|a: u128, b: u128|
                !(a == w0.id && b == x) ==> #[trigger] has_edge(n1, a, b) == has_edge(n0, a, b),
        ensures
            self@.wf(n1),
    {
        let w1 = self@;
        if w0.outbound.contains(x) {
            lemma_remove_first_props(w0.outbound, x);
        }
        assert forall|i: int|
            0 <= i < w1.outbound.len() implies has_edge(n1, w1.id,
            #[trigger] w1.outbound[i]) by {
            assert(w1.outbound.contains(w1.outbound[i]));
            let y = w1.outbound[i];
            assert(w0.outbound.contains(y));
            assert(y != x);
            let q = choose|q: int| 0 <= q < w0.outbound.len() && w0.outbound[q] == y;
            assert(has_edge(n0, w0.id, w0.outbound[q]));
        }
    }

    /// Create a new outbound `Explicit` edge whose consumer side is meant
    /// for the reader named by `reader_id` (drawn fresh when absent), and
    /// install its producer side on this node. The edge takes this node's
    /// capacity and policy. Fails, changing nothing, if that pair already
    /// has an edge.
    pub fn make_reader(&mut self, net: &mut Net, reader_id: Option<u128>) -> (r: Result<
        u128,
        GraphError,
    >)
        requires
            old(self)@.wf(old(net)@),
            net_wf(old(net)@),
        ensures
            final(self)@.wf(final(net)@),
            net_wf(final(net)@),
            ({
                let w0 = old(self)@;
                let n0 = old(net)@;
                let s1 = final(self)@;
                let n1 = final(net)@;
                match r {
                    Ok(rd) => {
                        &&& (reader_id matches Some(v) ==> rd == v)
                        &&& !has_edge(n0, w0.id, rd)
                        &&& n1 == n0.push((EdgeEntryView {
                            writer_id: w0.id,
                            reader_id: rd,
                            edge: empty_edge_view(w0.buffer_size, w0.policy,
                                Provenance::Explicit),
                        }))
                        &&& s1 == (WriterView { outbound: w0.outbound.push(rd), ..w0 })
                    },
                    Err(e) => {
                        &&& e == GraphError::EdgeAlreadyExists
                        &&& (reader_id matches Some(v) ==> has_edge(n0, w0.id, v))
                        &&& s1 == w0
                        &&& n1 == n0
                    },
                }
            }),
    {
        let ghost w0 = old(self)@;
        let ghost n0 = old(net)@;
        let rd = match reader_id {
            Some(v) => v,
            None => fresh_id(),
        };
        if net.lookup(self.id, rd).is_some() {
            return Err(GraphError::EdgeAlreadyExists);
        }
        let edge = Edge::new(self.buffer_size, self.policy, Provenance::Explicit);
        let entry = EdgeEntry { writer_id: self.id, reader_id: rd, edge: edge };
        proof {
            lemma_push_entry_preserves(n0, entry@);
        }
        net.add_entry(entry);
        self.push_outbound(rd);
        proof {
            self.lemma_wf_after_push_outbound(w0, n0, final(net)@, rd);
        }
        Ok(rd)
    }

    /// Install the producer side of a pre-existing edge to `reader_id`.
    /// Fails, changing nothing, if no such edge exists or if this node
    /// already feeds that reader.
    pub fn add_writer(&mut self, net: &Net, reader_id: u128) -> (r: Result<(), GraphError>)
        requires
            old(self)@.wf(net@),
            net_wf(net@),
        ensures
            final(self)@.wf(net@),
            ({
                let w0 = old(self)@;
                let s1 = final(self)@;
                match r {
                    Ok(()) => {
                        &&& has_edge(net@, w0.id, reader_id)
                        &&& !w0.outbound.contains(reader_id)
                        &&& s1 == (WriterView { outbound: w0.outbound.push(reader_id), ..w0 })
                    },
                    Err(e) => {
                        &&& s1 == w0
                        &&& (e == GraphError::EdgeNotFound || e == GraphError::EdgeAlreadyExists)
                        &&& (e == GraphError::EdgeNotFound <==> !has_edge(net@, w0.id,
                            reader_id))
                        &&& (e == GraphError::EdgeAlreadyExists <==> (has_edge(net@, w0.id,
                            reader_id) && w0.outbound.contains(reader_id)))
                    },
                }
            }),
    {
        let ghost w0 = old(self)@;
        if net.lookup(self.id, reader_id).is_none() {
            return Err(GraphError::EdgeNotFound);
        }
        if contains_id(&self.outbound, reader_id) {
            return Err(GraphError::EdgeAlreadyExists);
        }
        self.push_outbound(reader_id);
        proof {
            let s1 = self@;
            assert(distinct_ids(s1.outbound)) by {
                assert(forall|i: int|
                    0 <= i < w0.outbound.len() ==> s1.outbound[i] == (#[trigger] w0.outbound[i]));
                assert(s1.outbound[w0.outbound.len() as int] == reader_id);
            }
            assert forall|i: int|
                0 <= i < s1.outbound.len() implies has_edge(net@, s1.id,
                #[trigger] s1.outbound[i]) by {
                if i < w0.outbound.len() {
                    assert(has_edge(net@, w0.id, w0.outbound[i]));
                }
            }
        }
        Ok(())
    }

    /// Install a new `Explicit` edge from this node to `reader`, on both
    /// endpoints at once. The edge takes the reader's capacity and policy.
    /// Fails, changing nothing, if that pair already has an edge.
    pub fn attach(&mut self, net: &mut Net, reader: &mut MultiReader) -> (r: Result<
        (),
        GraphError,
    >)
        requires
            old(self)@.wf(old(net)@),
            old(reader)@.wf(old(net)@),
            net_wf(old(net)@),
        ensures
            final(self)@.wf(final(net)@),
            final(reader)@.wf(final(net)@),
            net_wf(final(net)@),
            ({
                let w0 = old(self)@;
                let r0 = old(reader)@;
                let n0 = old(net)@;
                let w1 = final(self)@;
                let s1 = final(reader)@;
                let n1 = final(net)@;
                match r {
                    Err(e) => {
                        &&& e == GraphError::EdgeAlreadyExists
                        &&& has_edge(n0, w0.id, r0.id)
                        &&& s1 == r0
                        &&& w1 == w0
                        &&& n1 == n0
                    },
                    Ok(()) => {
                        &&& !has_edge(n0, w0.id, r0.id)
                        &&& n1 == n0.push((EdgeEntryView {
                            writer_id: w0.id,
                            reader_id: r0.id,
                            edge: empty_edge_view(r0.buffer_size, r0.policy,
                                Provenance::Explicit),
                        }))
                        &&& s1 == (ReaderView { inbound: r0.inbound.push(w0.id), ..r0 })
                        &&& w1 == (WriterView { outbound: w0.outbound.push(r0.id), ..w0 })
                    },
                }
            }),
    {
        let ghost w0 = old(self)@;
        let ghost r0 = old(reader)@;
        let ghost n0 = old(net)@;
        if net.lookup(self.id, reader.id()).is_some() {
            return Err(GraphError::EdgeAlreadyExists);
        }
        let edge = Edge::new(reader.buffer_size(), reader.policy(), Provenance::Explicit);
        let entry = EdgeEntry { writer_id: self.id, reader_id: reader.id(), edge: edge };
        proof {
            lemma_push_entry_preserves(n0, entry@);
        }
        net.add_entry(entry);
        self.push_outbound(reader.id());
        reader.push_inbound(self.id);
        proof {
            self.lemma_wf_after_push_outbound(w0, n0, final(net)@, r0.id);
            reader.lemma_wf_after_push_inbound(r0, n0, final(net)@, w0.id);
        }
        Ok(())
    }

    /// Remove the edge between this node and `reader` from both endpoints
    /// at once; the mirror of [`MultiReader::detach`], with the same
    /// contract.
    pub fn detach(&mut self, net: &mut Net, reader: &mut MultiReader) -> (r: Result<
        (),
        GraphError,
    >)
        requires
            old(self)@.wf(old(net)@),
            old(reader)@.wf(old(net)@),
            net_wf(old(net)@),
            old(self)@.in_flight is None,
        ensures
            final(self)@.wf(final(net)@),
            final(reader)@.wf(final(net)@),
            net_wf(final(net)@),
            detach_contract(old(reader)@, old(self)@, old(net)@, final(reader)@, final(self)@,
                final(net)@, r),
    {
        let ghost w0 = old(self)@;
        let ghost r0 = old(reader)@;
        let ghost n0 = old(net)@;
        let idx = match net.lookup(self.id, reader.id()) {
            Some(i) => i,
            None => {
                return Err(GraphError::EdgeNotFound);
            },
        };
        proof {
            lemma_edge_index_unique(n0, w0.id, r0.id, idx as int);
        }
        match net.provenance_at(idx) {
            Provenance::Spawn => Err(GraphError::DetachForbidden),
            Provenance::Explicit => {
                net.remove_entry(idx);
                proof {
                    lemma_remove_entry_preserves(n0, idx as int);
                }
                reader.remove_inbound(self.id);
                self.remove_outbound(reader.id());
                proof {
                    reader.lemma_wf_after_remove_inbound(r0, n0, final(net)@, w0.id);
                    self.lemma_wf_after_remove_outbound(w0, n0, final(net)@, r0.id);
                }
                Ok(())
            },
        }
    }

    /// Spawn a new reader node fed by this writer through a new `Spawn`
    /// edge, created atomically with the node, under the given
    /// identifier. The edge takes this node's capacity and policy and can
    /// never be detached. Fails, changing nothing, if the identifier pair
    /// already has an edge.
    pub fn reader_with_id(&mut self, net: &mut Net, id: u128, buffer_size: Option<usize>) -> (r:
        Result<MultiReader, GraphError>)
        requires
            old(self)@.wf(old(net)@),
            net_wf(old(net)@),
            buffer_size matches Some(b) ==> b >= 1,
        ensures
            final(self)@.wf(final(net)@),
            net_wf(final(net)@),
            (r matches Ok(rd) ==> rd@.wf(final(net)@)),
            ({
                let w0 = old(self)@;
                let n0 = old(net)@;
                let s1 = final(self)@;
                let n1 = final(net)@;
                match r {
                    Ok(rd) => {
                        &&& rd@ == (ReaderView {
                            id: id,
                            upstream_open: false,
                            pending: Seq::empty(),
                            cursor: 0,
                            inbound: seq![w0.id],
                            rr: 0,
                            buffer_size: (match buffer_size {
                                Some(b) => b as int,
                                None => DEFAULT_EDGE_CAPACITY as int,
                            }),
                            policy: w0.policy,
                        })
                        &&& !has_edge(n0, w0.id, id)
                        &&& n1 == n0.push((EdgeEntryView {
                            writer_id: w0.id,
                            reader_id: id,
                            edge: empty_edge_view(w0.buffer_size, w0.policy, Provenance::Spawn),
                        }))
                        &&& s1 == (WriterView { outbound: w0.outbound.push(id), ..w0 })
                    },
                    Err(e) => {
                        &&& e == GraphError::EdgeAlreadyExists
                        &&& has_edge(n0, w0.id, id)
                        &&& s1 == w0
                        &&& n1 == n0
                    },
                }
            }),
    {
        let ghost w0 = old(self)@;
        let ghost n0 = old(net)@;
        if net.lookup(self.id, id).is_some() {
            return Err(GraphError::EdgeAlreadyExists);
        }
        let edge = Edge::new(self.buffer_size, self.policy, Provenance::Spawn);
        let entry = EdgeEntry { writer_id: self.id, reader_id: id, edge: edge };
        proof {
            lemma_push_entry_preserves(n0, entry@);
        }
        net.add_entry(entry);
        self.push_outbound(id);
        let cap = match buffer_size {
            Some(b) => b,
            None => DEFAULT_EDGE_CAPACITY,
        };
        let rd = MultiReader::new_spawned(id, self.id, cap, self.policy);
        proof {
            self.lemma_wf_after_push_outbound(w0, n0, final(net)@, id);
            assert(rd@.inbound =~= seq![w0.id]);
        }
        Ok(rd)
    }

    /// Spawn a new reader node under a fresh identifier; see
    /// [`MultiWriter::reader_with_id`].
    pub fn reader(&mut self, net: &mut Net, buffer_size: Option<usize>) -> (r: Result<
        MultiReader,
        GraphError,
    >)
        requires
            old(self)@.wf(old(net)@),
            net_wf(old(net)@),
            buffer_size matches Some(b) ==> b >= 1,
        ensures
            final(self)@.wf(final(net)@),
            net_wf(final(net)@),
            (r matches Ok(rd) ==> rd@.wf(final(net)@)),
            ({
                let w0 = old(self)@;
                let n0 = old(net)@;
                let s1 = final(self)@;
                let n1 = final(net)@;
                match r {
                    Ok(rd) => {
                        &&& rd@ == (ReaderView {
                            id: rd@.id,
                            upstream_open: false,
                            pending: Seq::empty(),
                            cursor: 0,
                            inbound: seq![w0.id],
                            rr: 0,
                            buffer_size: (match buffer_size {
                                Some(b) => b as int,
                                None => DEFAULT_EDGE_CAPACITY as int,
                            }),
                            policy: w0.policy,
                        })
                        &&& !has_edge(n0, w0.id, rd@.id)
                        &&& n1 == n0.push((EdgeEntryView {
                            writer_id: w0.id,
                            reader_id: rd@.id,
                            edge: empty_edge_view(w0.buffer_size, w0.policy, Provenance::Spawn),
                        }))
                        &&& s1 == (WriterView { outbound: w0.outbound.push(rd@.id), ..w0 })
                    },
                    Err(e) => {
                        &&& e == GraphError::EdgeAlreadyExists
                        &&& s1 == w0
                        &&& n1 == n0
                    },
                }
            }),
    {
        let id = fresh_id();
        self.reader_with_id(net, id, buffer_size)
    }
}

/// The scans and the offered table depend only on a writer's identifier
/// and outbound list.
pub proof fn lemma_scan_congruent(a: WriterView, b: WriterView, nv: Seq<EdgeEntryView>, c: Seq<u8>)
    requires
        a.id == b.id,
        a.outbound == b.outbound,
    ensures
        forall|k: int| #[trigger] a.first_blocked_from(nv, k) == b.first_blocked_from(nv, k),
        forall|from: int, stop: int| #[trigger] a.offered_net(nv, c, from, stop)
            == b.offered_net(nv, c, from, stop),
{
    assert forall|k: int| #[trigger] a.first_blocked_from(nv, k) == b.first_blocked_from(nv,
        k) by {
        lemma_first_blocked_congruent(a, b, nv, k);
    }
    assert forall|from: int, stop: int| #[trigger] a.offered_net(nv, c, from, stop)
        == b.offered_net(nv, c, from, stop) by {
        assert(a.offered_net(nv, c, from, stop) =~= b.offered_net(nv, c, from, stop));
    }
}

proof fn lemma_first_blocked_congruent(a: WriterView, b: WriterView, nv: Seq<EdgeEntryView>, k: int)
    requires
        a.id == b.id,
        a.outbound == b.outbound,
    ensures
        a.first_blocked_from(nv, k) == b.first_blocked_from(nv, k),
    decreases a.outbound.len() - k,
{
    if 0 <= k < a.outbound.len() {
        assert(a.out_edge(nv, k) == b.out_edge(nv, k));
        lemma_first_blocked_congruent(a, b, nv, k + 1);
    }
}

/// Widening the closed window by one position touches exactly the entry of
/// the edge at that position.
proof fn lemma_closed_net_step(w: WriterView, n0: Seq<EdgeEntryView>, q: int, idx: int)
    requires
        net_wf(n0),
        distinct_ids(w.outbound),
        0 <= q < w.outbound.len(),
        0 <= idx < n0.len(),
        n0[idx].writer_id == w.id,
        n0[idx].reader_id == w.outbound[q],
    ensures
        forall|i: int|
            0 <= i < n0.len() && i != idx ==> #[trigger] w.closed_net(n0, q + 1)[i]
                == w.closed_net(n0, q)[i],
        w.closed_net(n0, q + 1)[idx] == (EdgeEntryView {
            edge: (EdgeView { producer_closed: true, ..n0[idx].edge }),
            ..n0[idx]
        }),
{
    let m1 = w.closed_net(n0, q + 1);
    let m0 = w.closed_net(n0, q);
    assert forall|i: int| 0 <= i < n0.len() && i != idx implies #[trigger] m1[i] == m0[i] by {
        let en = n0[i];
        if en.writer_id == w.id && (exists|j: int|
            0 <= j < q + 1 && #[trigger] w.outbound[j] == en.reader_id) {
            let j = choose|j: int| 0 <= j < q + 1 && #[trigger] w.outbound[j] == en.reader_id;
            if j == q {
                assert(en.writer_id == n0[idx].writer_id && en.reader_id == n0[idx].reader_id);
                assert(false);
            } else {
                assert(0 <= j < q && w.outbound[j] == en.reader_id);
            }
        }
    }
    assert(w.outbound[q] == n0[idx].reader_id);
    assert(m1[idx] == (EdgeEntryView {
        edge: (EdgeView { producer_closed: true, ..n0[idx].edge }),
        ..n0[idx]
    }));
}

} // verus!
