//! Reader nodes: merge one upstream transport and any number of inbound
//! edges into a single ordered byte sequence.
//!
//! A reader is a polling state machine over plain values. The surrounding
//! runtime polls the upstream transport and hands the outcome to
//! [`MultiReader::read_step`], which decides what to buffer and what to
//! serve. Bytes of a buffered chunk are served through
//! [`MultiReader::take_pending`] until the chunk is exhausted; only then may
//! a new source be consulted — so a chunk is never partially delivered and
//! then abandoned for another source.
//!
//! When no pending bytes remain, `read_step` gives the upstream transport
//! strict priority; if it has nothing, the inbound edges are polled in a
//! fixed round-robin order starting at a cursor, which advances past the
//! winning edge so that no edge can starve its siblings indefinitely.

use vstd::prelude::*;

use crate::DEFAULT_EDGE_CAPACITY;
use crate::edge::{Edge, EdgeView, Policy, Provenance, GraphError, DequeueOutcome};
use crate::net::{Net, EdgeEntry, EdgeEntryView, has_edge, edge_index, edge_at, net_wf,
    lemma_edge_index_unique};
use crate::ids::{fresh_id, distinct_ids, remove_first, first_index_of, lemma_first_index_of,
    lemma_first_index_in_range, lemma_remove_first_props, contains_id};
use crate::net::{lemma_push_entry_preserves, lemma_remove_entry_preserves};
use crate::edge::empty_edge_view;
use crate::writer::{MultiWriter, WriterView};

verus! {

/// The outcome of polling the upstream transport, handed in by the runtime.
#[derive(Clone, Debug, PartialEq, Eq)]
pub enum ReadPoll {
    /// The transport yielded these bytes.
    Data(Vec<u8>),
    /// The transport is not ready.
    Pending,
    /// The transport reached permanent end-of-data.
    EndOfData,
    /// The transport failed.
    Error,
}

/// What one read round returned to the caller.
#[derive(Clone, Debug, PartialEq, Eq)]
pub enum ReadOutcome {
    /// Up to `max_len` bytes, served from a single source.
    Data(Vec<u8>),
    /// Every source was consulted and none was ready.
    Pending,
    /// The upstream transport is done and every inbound edge is drained.
    EndOfData,
    /// The upstream transport failed; the error is propagated verbatim and
    /// the node makes no further forwarding attempt on this call.
    TransportError,
}

/// A reader node: one optional upstream transport, a set of inbound edges,
/// and a pending buffer with a read cursor.
pub struct MultiReader {
    id: u128,
    upstream_open: bool,
    pending: Vec<u8>,
    cursor: usize,
    inbound: Vec<u128>,
    rr: usize,
    buffer_size: usize,
    policy: Policy,
}

/// The mathematical model of a reader node.
pub struct ReaderView {
    pub id: u128,
    pub upstream_open: bool,
    pub pending: Seq<u8>,
    pub cursor: int,
    pub inbound: Seq<u128>,
    pub rr: int,
    pub buffer_size: int,
    pub policy: Policy,
}

impl View for MultiReader {
    type V = ReaderView;

    closed spec fn view(&self) -> ReaderView {
        ReaderView {
            id: self.id,
            upstream_open: self.upstream_open,
            pending: self.pending@,
            cursor: self.cursor as int,
            inbound: self.inbound@,
            rr: self.rr as int,
            buffer_size: self.buffer_size as int,
            policy: self.policy,
        }
    }
}

impl ReaderView {
    /// The node's own shape: the cursor is within the pending buffer, the
    /// round-robin cursor is within the inbound list, and the inbound
    /// writers are distinct.
    pub open spec fn shape_wf(self) -> bool {
        &&& 0 <= self.cursor <= self.pending.len()
        &&& self.buffer_size >= 1
        &&& if self.inbound.len() == 0 {
            self.rr == 0
        } else {
            0 <= self.rr < self.inbound.len()
        }
        &&& distinct_ids(self.inbound)
    }

    /// Well-formedness against the edge table: the shape holds and every
    /// inbound writer has an edge to this node.
    pub open spec fn wf(self, nv: Seq<EdgeEntryView>) -> bool {
        &&& self.shape_wf()
        &&& forall|i: int|
            0 <= i < self.inbound.len() ==> has_edge(nv, #[trigger] self.inbound[i], self.id)
    }

    /// Where the round-robin cursor stands after the first occurrence of
    /// `x` leaves the inbound list: positions after the removed one shift
    /// down, and a cursor left out of range resets to the front.
    pub open spec fn rr_after_remove(self, x: u128) -> int {
        if !self.inbound.contains(x) {
            self.rr
        } else {
            let p = first_index_of(self.inbound, x);
            let shifted = if self.rr > p {
                self.rr - 1
            } else {
                self.rr
            };
            let new_len = self.inbound.len() - 1;
            if new_len == 0 {
                0
            } else if shifted >= new_len {
                0
            } else {
                shifted
            }
        }
    }

    /// Every byte of the pending buffer has been delivered.
    pub open spec fn pending_drained(self) -> bool {
        self.cursor == self.pending.len()
    }

    /// One serving step from the pending buffer: the state with the cursor
    /// advanced, and the bytes served — the next `max_len` undelivered
    /// pending bytes, or all of them if fewer remain.
    pub open spec fn serve_pending(self, max_len: int) -> (ReaderView, Seq<u8>) {
        let k = if max_len <= self.pending.len() - self.cursor {
            max_len
        } else {
            self.pending.len() - self.cursor
        };
        (
            ReaderView { cursor: self.cursor + k, ..self },
            self.pending.subrange(self.cursor, self.cursor + k),
        )
    }

    /// The position in the inbound list that is `k` polling steps after the
    /// round-robin cursor, wrapping around.
    pub open spec fn rot_index(self, k: int) -> int {
        if self.rr + k < self.inbound.len() {
            self.rr + k
        } else {
            self.rr + k - self.inbound.len()
        }
    }

    /// The inbound edge at position `j` of the inbound list.
    pub open spec fn inbound_edge(self, nv: Seq<EdgeEntryView>, j: int) -> EdgeView {
        edge_at(nv, self.inbound[j], self.id)
    }

    /// The position of the first edge, in round-robin order starting `k`
    /// steps past the cursor, that has a chunk available.
    pub open spec fn first_ready_from(self, nv: Seq<EdgeEntryView>, k: int) -> Option<int>
        decreases self.inbound.len() - k,
    {
        if k < 0 || k >= self.inbound.len() {
            None
        } else if self.inbound_edge(nv, self.rot_index(k)).has_chunk() {
            Some(self.rot_index(k))
        } else {
            self.first_ready_from(nv, k + 1)
        }
    }

    /// The inbound edge the next read round will serve from, if any.
    pub open spec fn winner(self, nv: Seq<EdgeEntryView>) -> Option<int> {
        self.first_ready_from(nv, 0)
    }

    /// Every inbound edge has a gone producer and an empty queue.
    pub open spec fn all_inbound_drained(self, nv: Seq<EdgeEntryView>) -> bool {
        forall|j: int|
            0 <= j < self.inbound.len() ==> (#[trigger] self.inbound_edge(nv, j)).is_drained()
    }
}

impl MultiReader {
    /// A new reader node wrapping an upstream transport, with no inbound
    /// edges yet. A missing identifier is drawn fresh; a missing capacity
    /// defaults to [`DEFAULT_EDGE_CAPACITY`]. `buffer_size` and `policy`
    /// fix the capacity and backpressure policy of edges this node creates.
    pub fn new(id: Option<u128>, buffer_size: Option<usize>, policy: Policy) -> (r: MultiReader)
        requires
            buffer_size matches Some(b) ==> b >= 1,
        ensures
            (id matches Some(v) ==> r@.id == v),
            r@.upstream_open,
            r@.pending.len() == 0,
            r@.cursor == 0,
            r@.inbound == Seq::<u128>::empty(),
            r@.rr == 0,
            r@.buffer_size == (match buffer_size {
                Some(b) => b as int,
                None => DEFAULT_EDGE_CAPACITY as int,
            }),
            r@.policy == policy,
            forall|nv: Seq<EdgeEntryView>| #[trigger] r@.wf(nv),
    {
        let node_id = match id {
            Some(v) => v,
            None => fresh_id(),
        };
        let cap = match buffer_size {
            Some(b) => b,
            None => DEFAULT_EDGE_CAPACITY,
        };
        let r = MultiReader {
            id: node_id,
            upstream_open: true,
            pending: Vec::new(),
            cursor: 0,
            inbound: Vec::new(),
            rr: 0,
            buffer_size: cap,
            policy: policy,
        };
        proof {
            assert(r@.inbound =~= Seq::<u128>::empty());
        }
        r
    }

    pub fn id(&self) -> (r: u128)
        ensures
            r == self@.id,
    {
        self.id
    }

    /// Undelivered bytes remain buffered from an earlier round.
    pub fn has_pending(&self) -> (r: bool)
        requires
            self@.cursor <= self@.pending.len(),
        ensures
            r == !self@.pending_drained(),
    {
        self.cursor < self.pending.len()
    }

    /// Serve up to `max_len` of the undelivered pending bytes, in order,
    /// consulting no source. The cursor advances by exactly the number of
    /// bytes served.
    pub fn take_pending(&mut self, max_len: usize) -> (out: Vec<u8>)
        requires
            old(self)@.cursor <= old(self)@.pending.len(),
        ensures
            final(self)@ == old(self)@.serve_pending(max_len as int).0,
            out@ == old(self)@.serve_pending(max_len as int).1,
    {
        let plen = self.pending.len();
        let remaining = plen - self.cursor;
        let k = if max_len <= remaining {
            max_len
        } else {
            remaining
        };
        let mut out: Vec<u8> = Vec::new();
        let start = self.cursor;
        let mut t: usize = 0;
        while t < k
            invariant
                t <= k,
                start + k <= plen,
                plen == self.pending@.len(),
                self@ == old(self)@,
                start == self@.cursor,
                out@ == self@.pending.subrange(start as int, start + t),
            decreases k - t,
        {
            out.push(self.pending[start + t]);
            proof {
                assert(out@ =~= self@.pending.subrange(start as int, start + t + 1));
            }
            t += 1;
        }
        self.cursor = start + k;
        out
    }

    /// One polling round, entered only with the pending buffer drained.
    ///
    /// `upstream` is the outcome the runtime got from polling the upstream
    /// transport this round; it is ignored if the upstream is already
    /// closed. The upstream has strict priority: a non-empty upstream chunk
    /// is buffered and its prefix served before any edge is consulted.
    /// Otherwise the inbound edges are polled in round-robin order from the
    /// cursor; the first edge with a chunk wins, the chunk is buffered, its
    /// prefix served, and the cursor advances past the winner. When the
    /// upstream is done and every inbound edge is drained, the round
    /// reports end-of-data; when every source is merely not ready, it
    /// reports pending.
    #[verifier::loop_isolation(false)]
    pub fn read_step(&mut self, net: &mut Net, upstream: ReadPoll, max_len: usize) -> (r:
        ReadOutcome)
        requires
            old(self)@.wf(old(net)@),
            net_wf(old(net)@),
            old(self)@.pending_drained(),
        ensures
            final(self)@.wf(final(net)@),
            net_wf(final(net)@),
            ({
                let o = old(self)@;
                let n0 = old(net)@;
                let s1 = final(self)@;
                let n1 = final(net)@;
                let up_err = o.upstream_open && upstream is Error;
                let up_data = o.upstream_open && (upstream matches ReadPoll::Data(c)
                    && c@.len() > 0);
                let open1 = o.upstream_open && !(upstream is EndOfData);
                match r {
                    ReadOutcome::TransportError => {
                        &&& up_err
                        &&& s1 == o
                        &&& n1 == n0
                    },
                    ReadOutcome::Data(out) => {
                        ||| (upstream matches ReadPoll::Data(c) && o.upstream_open
                            && c@.len() > 0 && {
                            let k = if max_len as int <= c@.len() {
                                max_len as int
                            } else {
                                c@.len() as int
                            };
                            &&& n1 == n0
                            &&& s1 == (ReaderView { pending: c@, cursor: k, ..o })
                            &&& out@ == c@.subrange(0, k)
                        })
                        ||| (o.winner(n0) matches Some(j) && !up_data && !up_err && {
                            let e = o.inbound_edge(n0, j);
                            let chunk = e.chunks[0];
                            let k = if max_len as int <= chunk.len() {
                                max_len as int
                            } else {
                                chunk.len() as int
                            };
                            let idx = edge_index(n0, o.inbound[j], o.id);
                            let n = o.inbound.len() as int;
                            &&& n1 == n0.update(
                                idx,
                                (EdgeEntryView { edge: e.take().0, ..n0[idx] }),
                            )
                            &&& s1 == (ReaderView {
                                pending: chunk,
                                cursor: k,
                                rr: if j + 1 < n { j + 1 } else { 0 },
                                upstream_open: open1,
                                ..o
                            })
                            &&& out@ == chunk.subrange(0, k)
                        })
                    },
                    ReadOutcome::Pending => {
                        &&& !up_err
                        &&& !up_data
                        &&& o.winner(n0) is None
                        &&& !(!open1 && o.all_inbound_drained(n0))
                        &&& n1 == n0
                        &&& s1 == (ReaderView { upstream_open: open1, ..o })
                    },
                    ReadOutcome::EndOfData => {
                        &&& !up_err
                        &&& !up_data
                        &&& o.winner(n0) is None
                        &&& !open1
                        &&& o.all_inbound_drained(n0)
                        &&& n1 == n0
                        &&& s1 == (ReaderView { upstream_open: false, ..o })
                    },
                }
            }),
    {
        let ghost o = old(self)@;
        let ghost n0 = old(net)@;
        let mut new_open = self.upstream_open;
        if self.upstream_open {
            match upstream {
                ReadPoll::Error => {
                    return ReadOutcome::TransportError;
                },
                ReadPoll::Data(c) => {
                    if c.len() > 0 {
                        let k = if max_len <= c.len() {
                            max_len
                        } else {
                            c.len()
                        };
                        let out = crate::copy_prefix(&c, k);
                        self.pending = c;
                        self.cursor = k;
                        return ReadOutcome::Data(out);
                    }
                },
                ReadPoll::EndOfData => {
                    new_open = false;
                },
                ReadPoll::Pending => {},
            }
        }
        // Poll the inbound edges in round-robin order from the cursor.
        let n = self.inbound.len();
        let mut k: usize = 0;
        while k < n
            invariant
                k <= n,
                n == o.inbound.len(),
                self@ == o,
                net@ == n0,
                o.wf(n0),
                net_wf(n0),
                o.first_ready_from(n0, k as int) == o.winner(n0),
            decreases n - k,
        {
            let j = if k < n - self.rr {
                self.rr + k
            } else {
                k - (n - self.rr)
            };
            proof {
                assert(j as int == o.rot_index(k as int));
            }
            let w = self.inbound[j];
            proof {
                assert(has_edge(n0, o.inbound[j as int], o.id));
            }
            let idx = match net.lookup(w, self.id) {
                Some(i) => i,
                None => unreached(),
            };
            proof {
                lemma_edge_index_unique(n0, w, o.id, idx as int);
            }
            if net.has_chunk_at(idx) {
                proof {
                    assert(o.inbound_edge(n0, j as int) == n0[idx as int].edge);
                    assert(o.first_ready_from(n0, k as int) == Some(j as int));
                }
                self.upstream_open = new_open;
                let ghost e = n0[idx as int].edge;
                let dq = net.dequeue_at(idx);
                match dq {
                    DequeueOutcome::Chunk(c) => {
                        let kk = if max_len <= c.len() {
                            max_len
                        } else {
                            c.len()
                        };
                        let out = crate::copy_prefix(&c, kk);
                        self.pending = c;
                        self.cursor = kk;
                        self.rr = if j + 1 < n {
                            j + 1
                        } else {
                            0
                        };
                        proof {
                            crate::edge::lemma_take_preserves_wf(e);
                            assert(final(net)@ == n0.update(
                                idx as int,
                                (EdgeEntryView { edge: e.take().0, ..n0[idx as int] }),
                            ));
                            assert forall|t: int|
                                0 <= t < o.inbound.len() implies has_edge(
                                final(net)@,
                                #[trigger] o.inbound[t],
                                o.id,
                            ) by {
                                let ti = edge_index(n0, o.inbound[t], o.id);
                                assert(final(net)@[ti].writer_id == o.inbound[t]
                                    && final(net)@[ti].reader_id == o.id);
                            }
                            assert(net_wf(final(net)@));
                        }
                        return ReadOutcome::Data(out);
                    },
                    _ => unreached(),
                }
            }
            proof {
                assert(o.first_ready_from(n0, k + 1) == o.winner(n0));
            }
            k += 1;
        }
        proof {
            assert(o.winner(n0) is None);
        }
        if !new_open {
            // The upstream is done; end-of-data is owed exactly when every
            // inbound edge is drained.
            let mut all = true;
            let mut q: usize = 0;
            while q < n
                invariant
                    q <= n,
                    n == o.inbound.len(),
                    self@ == o,
                    net@ == n0,
                    o.wf(n0),
                    net_wf(n0),
                    all ==> forall|t: int|
                        0 <= t < q ==> (#[trigger] o.inbound_edge(n0, t)).is_drained(),
                    !all ==> !o.all_inbound_drained(n0),
                decreases n - q,
            {
                let w = self.inbound[q];
                proof {
                    assert(has_edge(n0, o.inbound[q as int], o.id));
                }
                let idx = match net.lookup(w, self.id) {
                    Some(i) => i,
                    None => unreached(),
                };
                proof {
                    lemma_edge_index_unique(n0, w, o.id, idx as int);
                    assert(o.inbound_edge(n0, q as int) == n0[idx as int].edge);
                }
                if !net.is_drained_at(idx) {
                    all = false;
                }
                q += 1;
            }
            if all {
                self.upstream_open = false;
                return ReadOutcome::EndOfData;
            }
        }
        self.upstream_open = new_open;
        ReadOutcome::Pending
    }

    /// A reader created together with a spawn edge from `source`; it has
    /// no upstream transport of its own.
    pub(crate) fn new_spawned(id: u128, source: u128, buffer_size: usize, policy: Policy) -> (r:
        MultiReader)
        requires
            buffer_size >= 1,
        ensures
            r@ == (ReaderView {
                id: id,
                upstream_open: false,
                pending: Seq::empty(),
                cursor: 0,
                inbound: seq![source],
                rr: 0,
                buffer_size: buffer_size as int,
                policy: policy,
            }),
    {
        let mut inbound: Vec<u128> = Vec::new();
        inbound.push(source);
        let r = MultiReader {
            id: id,
            upstream_open: false,
            pending: Vec::new(),
            cursor: 0,
            inbound: inbound,
            rr: 0,
            buffer_size: buffer_size,
            policy: policy,
        };
        proof {
            assert(r@.inbound =~= seq![source]);
            assert(r@.pending =~= Seq::<u8>::empty());
        }
        r
    }

    /// The capacity this node gives to edges it creates.
    pub fn buffer_size(&self) -> (r: usize)
        ensures
            r as int == self@.buffer_size,
    {
        self.buffer_size
    }

    /// The backpressure policy this node gives to edges it creates.
    pub fn policy(&self) -> (r: Policy)
        ensures
            r == self@.policy,
    {
        self.policy
    }

    /// Record one more inbound writer.
    pub(crate) fn push_inbound(&mut self, w: u128)
        ensures
            final(self)@ == (ReaderView { inbound: old(self)@.inbound.push(w), ..old(self)@ }),
    {
        self.inbound.push(w);
    }

    /// Forget an inbound writer, shifting the round-robin cursor as
    /// needed.
    #[verifier::loop_isolation(false)]
    pub(crate) fn remove_inbound(&mut self, x: u128)
        requires
            old(self)@.shape_wf(),
        ensures
            final(self)@ == (ReaderView {
                inbound: remove_first(old(self)@.inbound, x),
                rr: old(self)@.rr_after_remove(x),
                ..old(self)@
            }),
    {
        let ghost o = old(self)@;
        let n = self.inbound.len();
        let mut i: usize = 0;
        while i < n
            invariant
                i <= n,
                n == o.inbound.len(),
                self@ == o,
                forall|q: int| 0 <= q < i ==> o.inbound[q] != x,
            decreases n - i,
        {
            if self.inbound[i] == x {
                proof {
                    lemma_first_index_of(o.inbound, x, i as int);
                }
                let _ = self.inbound.remove(i);
                if self.rr > i {
                    self.rr = self.rr - 1;
                }
                let new_len = self.inbound.len();
                if new_len == 0 {
                    self.rr = 0;
                } else if self.rr >= new_len {
                    self.rr = 0;
                }
                return;
            }
            i += 1;
        }
        proof {
            if o.inbound.contains(x) {
                let w = choose|q: int| 0 <= q < o.inbound.len() && o.inbound[q] == x;
                assert(false);
            }
        }
    }

    /// Create a new inbound `Explicit` edge whose producer side is meant
    /// for the writer named by `writer_id` (drawn fresh when absent), and
    /// install its consumer side on this node. The edge takes this node's
    /// capacity and policy. Fails, changing nothing, if that pair already
    /// has an edge.
    pub fn make_writer(&mut self, net: &mut Net, writer_id: Option<u128>) -> (r: Result<
        u128,
        GraphError,
    >)
        requires
            old(self)@.wf(old(net)@),
            net_wf(old(net)@),
        ensures
            final(self)@.wf(final(net)@),
            net_wf(final(net)@),
            ({
                let r0 = old(self)@;
                let n0 = old(net)@;
                let s1 = final(self)@;
                let n1 = final(net)@;
                match r {
                    Ok(w) => {
                        &&& (writer_id matches Some(v) ==> w == v)
                        &&& !has_edge(n0, w, r0.id)
                        &&& n1 == n0.push((EdgeEntryView {
                            writer_id: w,
                            reader_id: r0.id,
                            edge: empty_edge_view(r0.buffer_size, r0.policy,
                                Provenance::Explicit),
                        }))
                        &&& s1 == (ReaderView { inbound: r0.inbound.push(w), ..r0 })
                    },
                    Err(e) => {
                        &&& e == GraphError::EdgeAlreadyExists
                        &&& (writer_id matches Some(v) ==> has_edge(n0, v, r0.id))
                        &&& s1 == r0
                        &&& n1 == n0
                    },
                }
            }),
    {
        let ghost r0 = old(self)@;
        let ghost n0 = old(net)@;
        let w = match writer_id {
            Some(v) => v,
            None => fresh_id(),
        };
        if net.lookup(w, self.id).is_some() {
            return Err(GraphError::EdgeAlreadyExists);
        }
        let edge = Edge::new(self.buffer_size, self.policy, Provenance::Explicit);
        let entry = EdgeEntry { writer_id: w, reader_id: self.id, edge: edge };
        proof {
            lemma_push_entry_preserves(n0, entry@);
        }
        net.add_entry(entry);
        self.push_inbound(w);
        proof {
            self.lemma_wf_after_push_inbound(r0, n0, final(net)@, w);
        }
        Ok(w)
    }

    /// After pushing a fresh inbound writer and the matching table row,
    /// the node is still well formed.
    pub(crate) proof fn lemma_wf_after_push_inbound(
        &self,
        r0: ReaderView,
        n0: Seq<EdgeEntryView>,
        n1: Seq<EdgeEntryView>,
        w: u128,
    )
        requires
            r0.wf(n0),
            net_wf(n0),
            !has_edge(n0, w, r0.id),
            self@ == (ReaderView { inbound: r0.inbound.push(w), ..r0 }),
            has_edge(n1, w, r0.id),
            forall|a: u128, b: u128|
                !(a == w && b == r0.id) ==> #[trigger] has_edge(n1, a, b) == has_edge(n0, a, b),
        ensures
            self@.wf(n1),
    {
        let s1 = self@;
        assert(!r0.inbound.contains(w)) by {
            if r0.inbound.contains(w) {
                let i = choose|i: int| 0 <= i < r0.inbound.len() && r0.inbound[i] == w;
                assert(has_edge(n0, r0.inbound[i], r0.id));
            }
        }
        assert(distinct_ids(s1.inbound)) by {
            assert(forall|i: int|
                0 <= i < r0.inbound.len() ==> s1.inbound[i] == (#[trigger] r0.inbound[i]));
            assert(s1.inbound[r0.inbound.len() as int] == w);
        }
        assert forall|i: int|
            0 <= i < s1.inbound.len() implies has_edge(n1, #[trigger] s1.inbound[i],
            s1.id) by {
            if i < r0.inbound.len() {
                assert(s1.inbound[i] == r0.inbound[i]);
                assert(has_edge(n0, r0.inbound[i], r0.id));
                assert(r0.inbound[i] != w || has_edge(n0, w, r0.id));
            } else {
                assert(s1.inbound[i] == w);
            }
        }
    }

    /// Install the consumer side of a pre-existing edge from `writer_id`.
    /// Fails, changing nothing, if no such edge exists or if this node
    /// already polls that writer.
    pub fn add_reader(&mut self, net: &Net, writer_id: u128) -> (r: Result<(), GraphError>)
        requires
            old(self)@.wf(net@),
            net_wf(net@),
        ensures
            final(self)@.wf(net@),
            ({
                let r0 = old(self)@;
                let s1 = final(self)@;
                match r {
                    Ok(()) => {
                        &&& has_edge(net@, writer_id, r0.id)
                        &&& !r0.inbound.contains(writer_id)
                        &&& s1 == (ReaderView { inbound: r0.inbound.push(writer_id), ..r0 })
                    },
                    Err(e) => {
                        &&& s1 == r0
                        &&& (e == GraphError::EdgeNotFound || e == GraphError::EdgeAlreadyExists)
                        &&& (e == GraphError::EdgeNotFound <==> !has_edge(net@, writer_id,
                            r0.id))
                        &&& (e == GraphError::EdgeAlreadyExists <==> (has_edge(net@, writer_id,
                            r0.id) && r0.inbound.contains(writer_id)))
                    },
                }
            }),
    {
        let ghost r0 = old(self)@;
        if net.lookup(writer_id, self.id).is_none() {
            return Err(GraphError::EdgeNotFound);
        }
        if contains_id(&self.inbound, writer_id) {
            return Err(GraphError::EdgeAlreadyExists);
        }
        self.push_inbound(writer_id);
        proof {
            let s1 = self@;
            assert(distinct_ids(s1.inbound)) by {
                assert(forall|i: int|
                    0 <= i < r0.inbound.len() ==> s1.inbound[i] == (#[trigger] r0.inbound[i]));
                assert(s1.inbound[r0.inbound.len() as int] == writer_id);
            }
            assert forall|i: int|
                0 <= i < s1.inbound.len() implies has_edge(net@, #[trigger] s1.inbound[i],
                s1.id) by {
                if i < r0.inbound.len() {
                    assert(has_edge(net@, r0.inbound[i], r0.id));
                }
            }
        }
        Ok(())
    }

    /// Install a new `Explicit` edge from `writer` to this node, on both
    /// endpoints at once. The edge takes the writer's capacity and policy.
    /// Fails, changing nothing, if that pair already has an edge.
    pub fn attach(&mut self, net: &mut Net, writer: &mut MultiWriter) -> (r: Result<
        (),
        GraphError,
    >)
        requires
            old(self)@.wf(old(net)@),
            old(writer)@.wf(old(net)@),
            net_wf(old(net)@),
        ensures
            final(self)@.wf(final(net)@),
            final(writer)@.wf(final(net)@),
            net_wf(final(net)@),
            ({
                let r0 = old(self)@;
                let w0 = old(writer)@;
                let n0 = old(net)@;
                let s1 = final(self)@;
                let w1 = final(writer)@;
                let n1 = final(net)@;
                match r {
                    Err(e) => {
                        &&& e == GraphError::EdgeAlreadyExists
                        &&& has_edge(n0, w0.id, r0.id)
                        &&& s1 == r0
                        &&& w1 == w0
                        &&& n1 == n0
                    },
                    Ok(()) => {
                        &&& !has_edge(n0, w0.id, r0.id)
                        &&& n1 == n0.push((EdgeEntryView {
                            writer_id: w0.id,
                            reader_id: r0.id,
                            edge: empty_edge_view(w0.buffer_size, w0.policy,
                                Provenance::Explicit),
                        }))
                        &&& s1 == (ReaderView { inbound: r0.inbound.push(w0.id), ..r0 })
                        &&& w1 == (WriterView { outbound: w0.outbound.push(r0.id), ..w0 })
                    },
                }
            }),
    {
        let ghost r0 = old(self)@;
        let ghost w0 = old(writer)@;
        let ghost n0 = old(net)@;
        if net.lookup(writer.id(), self.id).is_some() {
            return Err(GraphError::EdgeAlreadyExists);
        }
        let edge = Edge::new(writer.buffer_size(), writer.policy(), Provenance::Explicit);
        let entry = EdgeEntry { writer_id: writer.id(), reader_id: self.id, edge: edge };
        proof {
            lemma_push_entry_preserves(n0, entry@);
        }
        net.add_entry(entry);
        self.push_inbound(writer.id());
        writer.push_outbound(self.id);
        proof {
            self.lemma_wf_after_push_inbound(r0, n0, final(net)@, w0.id);
            writer.lemma_wf_after_push_outbound(w0, n0, final(net)@, r0.id);
        }
        Ok(())
    }

    /// Remove the edge between `writer` and this node from both endpoints
    /// at once. Fails, changing nothing, if no such edge exists
    /// (`EdgeNotFound`) or if the edge is of `Spawn` provenance
    /// (`DetachForbidden`) — a spawn edge is the structural link that gave
    /// the spawned node its data source, and neither endpoint may break
    /// it.
    pub fn detach(&mut self, net: &mut Net, writer: &mut MultiWriter) -> (r: Result<
        (),
        GraphError,
    >)
        requires
            old(self)@.wf(old(net)@),
            old(writer)@.wf(old(net)@),
            net_wf(old(net)@),
            old(writer)@.in_flight is None,
        ensures
            final(self)@.wf(final(net)@),
            final(writer)@.wf(final(net)@),
            net_wf(final(net)@),
            detach_contract(old(self)@, old(writer)@, old(net)@, final(self)@, final(writer)@,
                final(net)@, r),
    {
        let ghost r0 = old(self)@;
        let ghost w0 = old(writer)@;
        let ghost n0 = old(net)@;
        let idx = match net.lookup(writer.id(), self.id) {
            Some(i) => i,
            None => {
                return Err(GraphError::EdgeNotFound);
            },
        };
        proof {
            lemma_edge_index_unique(n0, w0.id, r0.id, idx as int);
        }
        match net.provenance_at(idx) {
            Provenance::Spawn => Err(GraphError::DetachForbidden),
            Provenance::Explicit => {
                net.remove_entry(idx);
                proof {
                    lemma_remove_entry_preserves(n0, idx as int);
                }
                self.remove_inbound(writer.id());
                writer.remove_outbound(self.id);
                proof {
                    self.lemma_wf_after_remove_inbound(r0, n0, final(net)@, w0.id);
                    writer.lemma_wf_after_remove_outbound(w0, n0, final(net)@, r0.id);
                }
                Ok(())
            },
        }
    }

    /// After removing an inbound writer and the matching table row, the
    /// node is still well formed.
    pub(crate) proof fn lemma_wf_after_remove_inbound(
        &self,
        r0: ReaderView,
        n0: Seq<EdgeEntryView>,
        n1: Seq<EdgeEntryView>,
        x: u128,
    )
        requires
            r0.wf(n0),
            net_wf(n0),
            self@ == (ReaderView {
                inbound: remove_first(r0.inbound, x),
                rr: r0.rr_after_remove(x),
                ..r0
            }),
            forall|a: u128, b: u128|
                !(a == x && b == r0.id) ==> #[trigger] has_edge(n1, a, b) == has_edge(n0, a, b),
        ensures
            self@.wf(n1),
    {
        let s1 = self@;
        if r0.inbound.contains(x) {
            lemma_remove_first_props(r0.inbound, x);
            lemma_first_index_in_range(r0.inbound, x);
        }
        assert forall|i: int|
            0 <= i < s1.inbound.len() implies has_edge(n1, #[trigger] s1.inbound[i],
            s1.id) by {
            assert(s1.inbound.contains(s1.inbound[i]));
            let y = s1.inbound[i];
            if r0.inbound.contains(x) {
                assert(y != x);
                assert(r0.inbound.contains(y));
            } else {
                assert(r0.inbound.contains(y));
                assert(y != x);
            }
            let q = choose|q: int| 0 <= q < r0.inbound.len() && r0.inbound[q] == y;
            assert(has_edge(n0, r0.inbound[q], r0.id));
        }
    }

    /// Spawn a new writer node whose output feeds this reader through a
    /// new `Spawn` edge, created atomically with the node, under the given
    /// identifier. The edge takes this node's capacity and policy and can
    /// never be detached. Fails, changing nothing, if the identifier pair
    /// already has an edge.
    pub fn writer_with_id(&mut self, net: &mut Net, id: u128, buffer_size: Option<usize>) -> (r:
        Result<MultiWriter, GraphError>)
        requires
            old(self)@.wf(old(net)@),
            net_wf(old(net)@),
            buffer_size matches Some(b) ==> b >= 1,
        ensures
            final(self)@.wf(final(net)@),
            net_wf(final(net)@),
            (r matches Ok(w) ==> w@.wf(final(net)@)),
            ({
                let r0 = old(self)@;
                let n0 = old(net)@;
                let s1 = final(self)@;
                let n1 = final(net)@;
                match r {
                    Ok(w) => {
                        &&& w@ == (WriterView {
                            id: id,
                            transport_open: false,
                            outbound: seq![r0.id],
                            buffer_size: (match buffer_size {
                                Some(b) => b as int,
                                None => DEFAULT_EDGE_CAPACITY as int,
                            }),
                            policy: r0.policy,
                            shut: false,
                            in_flight: None,
                        })
                        &&& !has_edge(n0, id, r0.id)
                        &&& n1 == n0.push((EdgeEntryView {
                            writer_id: id,
                            reader_id: r0.id,
                            edge: empty_edge_view(r0.buffer_size, r0.policy, Provenance::Spawn),
                        }))
                        &&& s1 == (ReaderView { inbound: r0.inbound.push(id), ..r0 })
                    },
                    Err(e) => {
                        &&& e == GraphError::EdgeAlreadyExists
                        &&& has_edge(n0, id, r0.id)
                        &&& s1 == r0
                        &&& n1 == n0
                    },
                }
            }),
    {
        let ghost r0 = old(self)@;
        let ghost n0 = old(net)@;
        if net.lookup(id, self.id).is_some() {
            return Err(GraphError::EdgeAlreadyExists);
        }
        let edge = Edge::new(self.buffer_size, self.policy, Provenance::Spawn);
        let entry = EdgeEntry { writer_id: id, reader_id: self.id, edge: edge };
        proof {
            lemma_push_entry_preserves(n0, entry@);
        }
        net.add_entry(entry);
        self.push_inbound(id);
        let cap = match buffer_size {
            Some(b) => b,
            None => DEFAULT_EDGE_CAPACITY,
        };
        let w = MultiWriter::new_spawned(id, self.id, cap, self.policy);
        proof {
            self.lemma_wf_after_push_inbound(r0, n0, final(net)@, id);
            assert(w@.outbound =~= seq![r0.id]);
        }
        Ok(w)
    }

    /// Spawn a new writer node under a fresh identifier; see
    /// [`MultiReader::writer_with_id`].
    pub fn writer(&mut self, net: &mut Net, buffer_size: Option<usize>) -> (r: Result<
        MultiWriter,
        GraphError,
    >)
        requires
            old(self)@.wf(old(net)@),
            net_wf(old(net)@),
            buffer_size matches Some(b) ==> b >= 1,
        ensures
            final(self)@.wf(final(net)@),
            net_wf(final(net)@),
            (r matches Ok(w) ==> w@.wf(final(net)@)),
            ({
                let r0 = old(self)@;
                let n0 = old(net)@;
                let s1 = final(self)@;
                let n1 = final(net)@;
                match r {
                    Ok(w) => {
                        &&& w@ == (WriterView {
                            id: w@.id,
                            transport_open: false,
                            outbound: seq![r0.id],
                            buffer_size: (match buffer_size {
                                Some(b) => b as int,
                                None => DEFAULT_EDGE_CAPACITY as int,
                            }),
                            policy: r0.policy,
                            shut: false,
                            in_flight: None,
                        })
                        &&& !has_edge(n0, w@.id, r0.id)
                        &&& n1 == n0.push((EdgeEntryView {
                            writer_id: w@.id,
                            reader_id: r0.id,
                            edge: empty_edge_view(r0.buffer_size, r0.policy, Provenance::Spawn),
                        }))
                        &&& s1 == (ReaderView { inbound: r0.inbound.push(w@.id), ..r0 })
                    },
                    Err(e) => {
                        &&& e == GraphError::EdgeAlreadyExists
                        &&& s1 == r0
                        &&& n1 == n0
                    },
                }
            }),
    {
        let id = fresh_id();
        self.writer_with_id(net, id, buffer_size)
    }
}

/// The exact contract of a detach, shared by both calling directions: a
/// missing edge and a `Spawn` edge fail without any state change; an
/// `Explicit` edge is removed from the table and from both endpoints'
/// lists atomically.
pub open spec fn detach_contract(
    r0: ReaderView,
    w0: WriterView,
    n0: Seq<EdgeEntryView>,
    s1: ReaderView,
    w1: WriterView,
    n1: Seq<EdgeEntryView>,
    r: Result<(), GraphError>,
) -> bool {
    match r {
        Err(e) => {
            &&& s1 == r0
            &&& w1 == w0
            &&& n1 == n0
            &&& (e == GraphError::EdgeNotFound || e == GraphError::DetachForbidden)
            &&& (e == GraphError::EdgeNotFound <==> !has_edge(n0, w0.id, r0.id))
            &&& (e == GraphError::DetachForbidden <==> (has_edge(n0, w0.id, r0.id) && edge_at(
                n0,
                w0.id,
                r0.id,
            ).provenance is Spawn))
        },
        Ok(()) => {
            &&& has_edge(n0, w0.id, r0.id)
            &&& edge_at(n0, w0.id, r0.id).provenance is Explicit
            &&& n1 == n0.remove(edge_index(n0, w0.id, r0.id))
            &&& s1 == (ReaderView {
                inbound: remove_first(r0.inbound, w0.id),
                rr: r0.rr_after_remove(w0.id),
                ..r0
            })
            &&& w1 == (WriterView { outbound: remove_first(w0.outbound, r0.id), ..w0 })
        },
    }
}

} // verus!
