//! The engine's guarantees, stated and proved over the models that the
//! operations' contracts use: FIFO ordering on an edge, chunk integrity at
//! the reader, spawn-edge immutability, and attach/detach symmetry.

use vstd::prelude::*;

use crate::edge::{EdgeView, Provenance, GraphError, empty_edge_view, lemma_offer_preserves_wf};
use crate::net::{EdgeEntryView, has_edge, edge_at, edge_index, net_wf, lemma_push_entry_preserves};
use crate::ids::{lemma_first_index_of, lemma_remove_first_of_push};
use crate::reader::{ReaderView, detach_contract};
use crate::writer::WriterView;

verus! {

/// The edge after every chunk of `cs` has been offered to it in order.
pub open spec fn offer_all(e: EdgeView, cs: Seq<Seq<u8>>) -> EdgeView
    decreases cs.len(),
{
    if cs.len() == 0 {
        e
    } else {
        offer_all(e.offer(cs[0]).0, cs.drop_first())
    }
}

/// The chunks a consumer that dequeues until the queue is empty observes,
/// in order.
pub open spec fn drain(e: EdgeView) -> Seq<Seq<u8>>
    decreases e.chunks.len(),
{
    if e.has_chunk() {
        seq![e.chunks[0]] + drain(e.take().0)
    } else {
        Seq::empty()
    }
}

/// Offering chunks to an edge with room for all of them queues every one,
/// in order, after what was already there.
pub proof fn lemma_offer_all_uncongested(e: EdgeView, cs: Seq<Seq<u8>>)
    requires
        e.wf(),
        e.chunks.len() + cs.len() <= e.capacity,
        forall|i: int| 0 <= i < cs.len() ==> (#[trigger] cs[i]).len() > 0,
    ensures
        offer_all(e, cs).chunks == e.chunks + cs,
        offer_all(e, cs) == (EdgeView { chunks: e.chunks + cs, ..e }),
    decreases cs.len(),
{
    if cs.len() == 0 {
        assert(e.chunks + cs =~= e.chunks);
        assert(offer_all(e, cs) == e);
        assert((EdgeView { chunks: e.chunks + cs, ..e }) =~= e);
    } else {
        assert(e.space_left());
        let e1 = e.offer(cs[0]).0;
        lemma_offer_preserves_wf(e, cs[0]);
        assert(forall|i: int|
            0 <= i < cs.drop_first().len() ==> (#[trigger] cs.drop_first()[i]).len() > 0);
        lemma_offer_all_uncongested(e1, cs.drop_first());
        assert(e.chunks.push(cs[0]) + cs.drop_first() =~= e.chunks + cs);
    }
}

/// A consumer drains exactly the queued chunks, in FIFO order.
pub proof fn lemma_drain_fifo(e: EdgeView)
    ensures
        drain(e) == e.chunks,
    decreases e.chunks.len(),
{
    if e.has_chunk() {
        lemma_drain_fifo(e.take().0);
        assert(seq![e.chunks[0]] + e.chunks.drop_first() =~= e.chunks);
    } else {
        assert(drain(e) =~= e.chunks);
    }
}

/// Ordering: for any sequence of writes on one edge with no congestion,
/// the consumer observes the chunks — and so their concatenated bytes — in
/// exactly the order they were offered.
pub proof fn lemma_edge_ordering(e: EdgeView, cs: Seq<Seq<u8>>)
    requires
        e.wf(),
        e.chunks.len() == 0,
        cs.len() <= e.capacity,
        forall|i: int| 0 <= i < cs.len() ==> (#[trigger] cs[i]).len() > 0,
    ensures
        drain(offer_all(e, cs)) == cs,
        drain(offer_all(e, cs)).flatten() == cs.flatten(),
{
    lemma_offer_all_uncongested(e, cs);
    assert(e.chunks + cs =~= cs);
    lemma_drain_fifo(offer_all(e, cs));
}

/// The reader state and the bytes served after a sequence of serving
/// rounds against the pending buffer, each with its own length bound.
pub open spec fn serve_rounds(r: ReaderView, maxes: Seq<int>) -> (ReaderView, Seq<u8>)
    decreases maxes.len(),
{
    if maxes.len() == 0 {
        (r, Seq::empty())
    } else {
        let step = r.serve_pending(maxes[0]);
        let rest = serve_rounds(step.0, maxes.drop_first());
        (rest.0, step.1 + rest.1)
    }
}

/// No split-chunk interleaving: however many serving rounds run and
/// whatever their length bounds, everything delivered is one contiguous
/// piece of the buffered chunk, in order — and a new source may only be
/// consulted once the chunk is exhausted, since the polling step requires
/// the pending buffer drained.
pub proof fn lemma_no_split_chunk(r: ReaderView, maxes: Seq<int>)
    requires
        0 <= r.cursor <= r.pending.len(),
        forall|i: int| 0 <= i < maxes.len() ==> (#[trigger] maxes[i]) >= 0,
    ensures
        ({
            let end = serve_rounds(r, maxes);
            &&& r.cursor <= end.0.cursor <= r.pending.len()
            &&& end.0 == (ReaderView { cursor: end.0.cursor, ..r })
            &&& end.1 == r.pending.subrange(r.cursor, end.0.cursor)
        }),
    decreases maxes.len(),
{
    if maxes.len() == 0 {
        assert(serve_rounds(r, maxes).1 =~= r.pending.subrange(r.cursor, r.cursor));
        assert((ReaderView { cursor: r.cursor, ..r }) =~= r);
    } else {
        let step = r.serve_pending(maxes[0]);
        assert(forall|i: int|
            0 <= i < maxes.drop_first().len() ==> (#[trigger] maxes.drop_first()[i]) >= 0);
        lemma_no_split_chunk(step.0, maxes.drop_first());
        let end = serve_rounds(r, maxes);
        assert(step.1 + step.0.pending.subrange(step.0.cursor, end.0.cursor) =~= r.pending
            .subrange(r.cursor, end.0.cursor));
    }
}

/// Spawn immutability: in every graph state, a detach aimed at a
/// `Spawn`-provenance edge — from either endpoint, since both directions
/// meet the same contract — fails with `DetachForbidden` and changes
/// nothing.
pub proof fn lemma_spawn_edge_immutable(
    r0: ReaderView,
    w0: WriterView,
    n0: Seq<EdgeEntryView>,
    s1: ReaderView,
    w1: WriterView,
    n1: Seq<EdgeEntryView>,
    res: Result<(), GraphError>,
)
    requires
        has_edge(n0, w0.id, r0.id),
        edge_at(n0, w0.id, r0.id).provenance is Spawn,
        detach_contract(r0, w0, n0, s1, w1, n1, res),
    ensures
        res == Err::<(), GraphError>(GraphError::DetachForbidden),
        s1 == r0,
        w1 == w0,
        n1 == n0,
{
}

/// Attach/detach symmetry: a successful attach followed by a detach of the
/// same pair — in either call direction, since both directions meet the
/// same contracts — restores both nodes' edge lists and the edge table to
/// exactly their pre-attach contents.
pub proof fn lemma_attach_detach_symmetry(
    r0: ReaderView,
    w0: WriterView,
    n0: Seq<EdgeEntryView>,
    s1: ReaderView,
    w1: WriterView,
    n1: Seq<EdgeEntryView>,
    s2: ReaderView,
    w2: WriterView,
    n2: Seq<EdgeEntryView>,
    capacity: int,
    policy: crate::edge::Policy,
    res: Result<(), GraphError>,
)
    requires
        r0.wf(n0),
        w0.wf(n0),
        net_wf(n0),
        capacity >= 1,
        // a successful attach of the pair:
        !has_edge(n0, w0.id, r0.id),
        n1 == n0.push((EdgeEntryView {
            writer_id: w0.id,
            reader_id: r0.id,
            edge: empty_edge_view(capacity, policy, Provenance::Explicit),
        })),
        s1 == (ReaderView { inbound: r0.inbound.push(w0.id), ..r0 }),
        w1 == (WriterView { outbound: w0.outbound.push(r0.id), ..w0 }),
        // followed by a detach of the same pair:
        detach_contract(s1, w1, n1, s2, w2, n2, res),
    ensures
        res is Ok,
        s2 == r0,
        w2 == w0,
        n2 == n0,
{
    let en = EdgeEntryView {
        writer_id: w0.id,
        reader_id: r0.id,
        edge: empty_edge_view(capacity, policy, Provenance::Explicit),
    };
    lemma_push_entry_preserves(n0, en);
    assert(has_edge(n1, w1.id, s1.id));
    assert(edge_index(n1, w1.id, s1.id) == n0.len());
    assert(edge_at(n1, w1.id, s1.id) == en.edge);
    assert(!(edge_at(n1, w1.id, s1.id).provenance is Spawn));
    match res {
        Err(e) => {
            assert(false);
        },
        Ok(()) => {
            assert(n2 == n1.remove(n0.len() as int));
            assert(n2 =~= n0);
            assert(!r0.inbound.contains(w0.id)) by {
                if r0.inbound.contains(w0.id) {
                    let i = choose|i: int|
                        0 <= i < r0.inbound.len() && r0.inbound[i] == w0.id;
                    assert(has_edge(n0, r0.inbound[i], r0.id));
                }
            }
            assert(!w0.outbound.contains(r0.id)) by {
                if w0.outbound.contains(r0.id) {
                    let i = choose|i: int|
                        0 <= i < w0.outbound.len() && w0.outbound[i] == r0.id;
                    assert(has_edge(n0, w0.id, w0.outbound[i]));
                }
            }
            lemma_remove_first_of_push(r0.inbound, w0.id);
            lemma_remove_first_of_push(w0.outbound, r0.id);
            assert(s2.inbound == r0.inbound);
            assert(w2.outbound == w0.outbound);
            // The round-robin cursor comes back unchanged: the attached
            // writer sat at the end of the list, past the cursor.
            assert(s1.inbound[r0.inbound.len() as int] == w0.id);
            assert(forall|q: int| 0 <= q < r0.inbound.len() ==> s1.inbound[q] == (
            #[trigger] r0.inbound[q]));
            assert forall|q: int|
                0 <= q < r0.inbound.len() implies s1.inbound[q] != w0.id by {
                assert(has_edge(n0, r0.inbound[q], r0.id));
            }
            lemma_first_index_of(s1.inbound, w0.id, r0.inbound.len() as int);
            assert(s1.rr_after_remove(w0.id) == r0.rr);
            assert(s2 =~= r0);
            assert(w2 =~= w0);
        },
    }
}

} // verus!
