use encrypted_pipe::{Net, Policy, GraphError, MultiReader, MultiWriter};
use encrypted_pipe::{ReadPoll, ReadOutcome, WritePoll, WriteOutcome};

fn read_all(r: &mut MultiReader, net: &mut Net, upstream: ReadPoll) -> ReadOutcome {
    if r.has_pending() {
        ReadOutcome::Data(r.take_pending(4096))
    } else {
        r.read_step(net, upstream, 4096)
    }
}

#[test]
fn transport_loopback() {
    // Scenario: a reader and a writer wrap the two ends of one stream;
    // what the writer sends, the runtime hands to the reader's upstream.
    let mut net = Net::new();
    let mut w1 = MultiWriter::new(None, Some(4096), Policy::Block);
    let mut r1 = MultiReader::new(None, Some(4096), Policy::Block);

    let hello = b"hello".to_vec();
    let out = w1.write_step(&mut net, WritePoll::Accepted(5), &hello);
    assert_eq!(out, WriteOutcome::Complete(5));

    let got = read_all(&mut r1, &mut net, ReadPoll::Data(hello.clone()));
    assert_eq!(got, ReadOutcome::Data(b"hello".to_vec()));
}

#[test]
fn spawned_reader_sees_broadcast() {
    // Scenario: R2 spawned from W1 observes what W1 writes, as does the
    // reader on the other end of W1's transport.
    let mut net = Net::new();
    let mut w1 = MultiWriter::new(None, Some(4096), Policy::Block);
    let mut r1 = MultiReader::new(None, Some(4096), Policy::Block);
    let mut r2 = w1.reader(&mut net, None).unwrap();

    let world = b"world".to_vec();
    let out = w1.write_step(&mut net, WritePoll::Accepted(5), &world);
    assert_eq!(out, WriteOutcome::Complete(5));

    let got1 = read_all(&mut r1, &mut net, ReadPoll::Data(world.clone()));
    assert_eq!(got1, ReadOutcome::Data(b"world".to_vec()));
    let got2 = read_all(&mut r2, &mut net, ReadPoll::Pending);
    assert_eq!(got2, ReadOutcome::Data(b"world".to_vec()));
}

#[test]
fn spawned_writer_feeds_only_its_reader() {
    // Scenario: W2 spawned from R2 writes into R2 only; R1 sees nothing.
    let mut net = Net::new();
    let mut w1 = MultiWriter::new(None, Some(4096), Policy::Block);
    let mut r1 = MultiReader::new(None, Some(4096), Policy::Block);
    let mut r2 = w1.reader(&mut net, None).unwrap();
    let mut w2 = r2.writer(&mut net, None).unwrap();

    let x = b"x".to_vec();
    // W2 has no transport of its own: the edge carries everything.
    let out = w2.write_step(&mut net, WritePoll::Pending, &x);
    assert_eq!(out, WriteOutcome::Complete(1));

    let got2 = read_all(&mut r2, &mut net, ReadPoll::Pending);
    assert_eq!(got2, ReadOutcome::Data(b"x".to_vec()));
    let got1 = read_all(&mut r1, &mut net, ReadPoll::Pending);
    assert_eq!(got1, ReadOutcome::Pending);
}

#[test]
fn attach_then_detach_stops_delivery() {
    // Scenario: attach(W1, R3), a write reaches R3; after detach(W1, R3),
    // a further write does not.
    let mut net = Net::new();
    let mut w1 = MultiWriter::new(None, Some(4096), Policy::Block);
    let mut r3 = MultiReader::new(None, Some(4096), Policy::Block);

    w1.attach(&mut net, &mut r3).unwrap();
    let y = b"y".to_vec();
    assert_eq!(w1.write_step(&mut net, WritePoll::Accepted(1), &y), WriteOutcome::Complete(1));
    assert_eq!(read_all(&mut r3, &mut net, ReadPoll::Pending), ReadOutcome::Data(b"y".to_vec()));

    w1.detach(&mut net, &mut r3).unwrap();
    let z = b"z".to_vec();
    assert_eq!(w1.write_step(&mut net, WritePoll::Accepted(1), &z), WriteOutcome::Complete(1));
    assert_eq!(read_all(&mut r3, &mut net, ReadPoll::Pending), ReadOutcome::Pending);
}

#[test]
fn attach_detach_symmetric_directions() {
    // Attach from one side, detach from the other; then the reverse.
    let mut net = Net::new();
    let mut w = MultiWriter::new(None, Some(8), Policy::Block);
    let mut r = MultiReader::new(None, Some(8), Policy::Block);

    w.attach(&mut net, &mut r).unwrap();
    r.detach(&mut net, &mut w).unwrap();
    // The maps are restored: the pair can be attached again, from the
    // other direction this time.
    r.attach(&mut net, &mut w).unwrap();
    w.detach(&mut net, &mut r).unwrap();
    // And once more, to the same effect.
    assert!(w.attach(&mut net, &mut r).is_ok());
}

#[test]
fn attach_twice_fails() {
    let mut net = Net::new();
    let mut w = MultiWriter::new(None, Some(8), Policy::Block);
    let mut r = MultiReader::new(None, Some(8), Policy::Block);
    w.attach(&mut net, &mut r).unwrap();
    assert_eq!(w.attach(&mut net, &mut r), Err(GraphError::EdgeAlreadyExists));
    assert_eq!(r.attach(&mut net, &mut w), Err(GraphError::EdgeAlreadyExists));
}

#[test]
fn detach_without_edge_fails() {
    let mut net = Net::new();
    let mut w = MultiWriter::new(None, Some(8), Policy::Block);
    let mut r = MultiReader::new(None, Some(8), Policy::Block);
    assert_eq!(w.detach(&mut net, &mut r), Err(GraphError::EdgeNotFound));
    assert_eq!(r.detach(&mut net, &mut w), Err(GraphError::EdgeNotFound));
}

#[test]
fn spawn_edge_never_detaches() {
    // A spawn edge refuses detach from either endpoint, and a later write
    // still reaches the spawned reader.
    let mut net = Net::new();
    let mut w1 = MultiWriter::new(None, Some(4096), Policy::Block);
    let mut r2 = w1.reader(&mut net, None).unwrap();

    assert_eq!(w1.detach(&mut net, &mut r2), Err(GraphError::DetachForbidden));
    assert_eq!(r2.detach(&mut net, &mut w1), Err(GraphError::DetachForbidden));

    let still = b"still".to_vec();
    assert_eq!(
        w1.write_step(&mut net, WritePoll::Accepted(5), &still),
        WriteOutcome::Complete(5)
    );
    assert_eq!(
        read_all(&mut r2, &mut net, ReadPoll::Pending),
        ReadOutcome::Data(b"still".to_vec())
    );
}

#[test]
fn block_policy_suspends_second_write() {
    // Scenario: edge capacity 1, policy Block; the second of two
    // back-to-back writes stays suspended until the consumer dequeues.
    let mut net = Net::new();
    let mut r = MultiReader::new(None, Some(1), Policy::Block);
    let mut w = r.writer(&mut net, None).unwrap();

    let a = b"a".to_vec();
    let b = b"b".to_vec();
    assert_eq!(w.write_step(&mut net, WritePoll::Pending, &a), WriteOutcome::Complete(1));
    assert_eq!(w.write_step(&mut net, WritePoll::Pending, &b), WriteOutcome::Blocked(1));
    assert!(w.is_blocked());

    // The consumer drains one chunk; the suspended broadcast can finish.
    assert_eq!(read_all(&mut r, &mut net, ReadPoll::Pending), ReadOutcome::Data(b"a".to_vec()));
    assert!(w.resume_broadcast(&mut net));
    assert!(!w.is_blocked());
    assert_eq!(read_all(&mut r, &mut net, ReadPoll::Pending), ReadOutcome::Data(b"b".to_vec()));
}

#[test]
fn drop_newest_policy_discards_silently() {
    // Scenario: edge capacity 1, policy DropNewest; the second write still
    // reports success, and the consumer observes only the first chunk.
    let mut net = Net::new();
    let mut r = MultiReader::new(None, Some(1), Policy::DropNewest);
    let mut w = r.writer(&mut net, None).unwrap();

    let a = b"a".to_vec();
    let b = b"b".to_vec();
    assert_eq!(w.write_step(&mut net, WritePoll::Pending, &a), WriteOutcome::Complete(1));
    assert_eq!(w.write_step(&mut net, WritePoll::Pending, &b), WriteOutcome::Complete(1));
    assert!(!w.is_blocked());

    assert_eq!(read_all(&mut r, &mut net, ReadPoll::Pending), ReadOutcome::Data(b"a".to_vec()));
    assert_eq!(read_all(&mut r, &mut net, ReadPoll::Pending), ReadOutcome::Pending);
}

#[test]
fn edge_preserves_write_order() {
    // Ordering: writes on one uncongested edge come out as the identical
    // concatenated byte sequence, in order.
    let mut net = Net::new();
    let mut r = MultiReader::new(None, Some(8), Policy::Block);
    let mut w = r.writer(&mut net, None).unwrap();

    for part in [b"ab".to_vec(), b"cd".to_vec(), b"ef".to_vec()] {
        assert_eq!(
            w.write_step(&mut net, WritePoll::Pending, &part),
            WriteOutcome::Complete(2)
        );
    }
    let mut observed = Vec::new();
    for _ in 0..3 {
        match read_all(&mut r, &mut net, ReadPoll::Pending) {
            ReadOutcome::Data(d) => observed.extend(d),
            other => panic!("expected data, got {:?}", other),
        }
    }
    assert_eq!(observed, b"abcdef".to_vec());
}

#[test]
fn buffered_chunk_served_without_interleaving() {
    // No split-chunk interleaving: a buffered chunk is served to the end,
    // in contiguous pieces, before any source is consulted again.
    let mut net = Net::new();
    let mut r = MultiReader::new(None, Some(8), Policy::Block);
    let mut w = r.writer(&mut net, None).unwrap();

    let first = b"hello".to_vec();
    let second = b"XY".to_vec();
    assert_eq!(w.write_step(&mut net, WritePoll::Pending, &first), WriteOutcome::Complete(5));
    assert_eq!(w.write_step(&mut net, WritePoll::Pending, &second), WriteOutcome::Complete(2));

    let got = r.read_step(&mut net, ReadPoll::Pending, 2);
    assert_eq!(got, ReadOutcome::Data(b"he".to_vec()));
    assert!(r.has_pending());
    assert_eq!(r.take_pending(2), b"ll".to_vec());
    assert_eq!(r.take_pending(10), b"o".to_vec());
    assert!(!r.has_pending());
    // Only now is the next chunk pulled.
    assert_eq!(read_all(&mut r, &mut net, ReadPoll::Pending), ReadOutcome::Data(b"XY".to_vec()));
}

#[test]
fn round_robin_alternates_ready_edges() {
    // The cursor advances past the winning edge, so two always-ready
    // edges alternate instead of one starving the other.
    let mut net = Net::new();
    let mut r = MultiReader::new(None, Some(8), Policy::Block);
    let mut wa = MultiWriter::new(None, Some(8), Policy::Block);
    let mut wb = MultiWriter::new(None, Some(8), Policy::Block);
    r.attach(&mut net, &mut wa).unwrap();
    r.attach(&mut net, &mut wb).unwrap();

    let a = b"A".to_vec();
    let b = b"B".to_vec();
    assert_eq!(wa.write_step(&mut net, WritePoll::Accepted(1), &a), WriteOutcome::Complete(1));
    assert_eq!(wa.write_step(&mut net, WritePoll::Accepted(1), &a), WriteOutcome::Complete(1));
    assert_eq!(wb.write_step(&mut net, WritePoll::Accepted(1), &b), WriteOutcome::Complete(1));

    assert_eq!(read_all(&mut r, &mut net, ReadPoll::Pending), ReadOutcome::Data(b"A".to_vec()));
    // Both edges are ready again; the cursor now favors the second.
    assert_eq!(read_all(&mut r, &mut net, ReadPoll::Pending), ReadOutcome::Data(b"B".to_vec()));
    assert_eq!(read_all(&mut r, &mut net, ReadPoll::Pending), ReadOutcome::Data(b"A".to_vec()));
}

#[test]
fn upstream_has_priority_over_edges() {
    let mut net = Net::new();
    let mut r = MultiReader::new(None, Some(8), Policy::Block);
    let mut w = r.writer(&mut net, None).unwrap();
    let edge_data = b"edge".to_vec();
    assert_eq!(
        w.write_step(&mut net, WritePoll::Pending, &edge_data),
        WriteOutcome::Complete(4)
    );
    // With upstream data present in the same round, upstream wins.
    let got = read_all(&mut r, &mut net, ReadPoll::Data(b"up".to_vec()));
    assert_eq!(got, ReadOutcome::Data(b"up".to_vec()));
    // The edge chunk is still queued and comes next.
    assert_eq!(
        read_all(&mut r, &mut net, ReadPoll::Pending),
        ReadOutcome::Data(b"edge".to_vec())
    );
}

#[test]
fn shutdown_lets_reader_observe_end_of_data() {
    // A gone producer surfaces as ordinary end-of-data after the queue is
    // drained, never as an error.
    let mut net = Net::new();
    let mut w = MultiWriter::new(None, Some(8), Policy::Block);
    let mut r = w.reader(&mut net, None).unwrap();

    let x = b"x".to_vec();
    assert_eq!(w.write_step(&mut net, WritePoll::Accepted(1), &x), WriteOutcome::Complete(1));
    w.shutdown_edges(&mut net);

    assert_eq!(read_all(&mut r, &mut net, ReadPoll::Pending), ReadOutcome::Data(b"x".to_vec()));
    assert_eq!(read_all(&mut r, &mut net, ReadPoll::Pending), ReadOutcome::EndOfData);
}

#[test]
fn upstream_end_of_data_with_no_edges() {
    let mut net = Net::new();
    let mut r = MultiReader::new(None, Some(8), Policy::Block);
    assert_eq!(read_all(&mut r, &mut net, ReadPoll::EndOfData), ReadOutcome::EndOfData);
}

#[test]
fn transport_errors_propagate() {
    let mut net = Net::new();
    let mut r = MultiReader::new(None, Some(8), Policy::Block);
    let mut w = MultiWriter::new(None, Some(8), Policy::Block);
    assert_eq!(
        r.read_step(&mut net, ReadPoll::Error, 4096),
        ReadOutcome::TransportError
    );
    let data = b"d".to_vec();
    assert_eq!(
        w.write_step(&mut net, WritePoll::Error, &data),
        WriteOutcome::TransportError
    );
    assert_eq!(
        w.write_step(&mut net, WritePoll::Pending, &data),
        WriteOutcome::Pending
    );
}

#[test]
fn make_writer_and_add_writer_connect_nodes() {
    // The two halves of an attach, done by hand with a shared identifier.
    let mut net = Net::new();
    let mut r = MultiReader::new(None, Some(8), Policy::Block);
    let mut w = MultiWriter::new(Some(7), Some(8), Policy::Block);

    let id = r.make_writer(&mut net, Some(7)).unwrap();
    assert_eq!(id, 7);
    w.add_writer(&net, r.id()).unwrap();
    assert_eq!(w.add_writer(&net, r.id()), Err(GraphError::EdgeAlreadyExists));
    assert_eq!(w.add_writer(&net, 12345), Err(GraphError::EdgeNotFound));

    let data = b"via edge".to_vec();
    assert_eq!(
        w.write_step(&mut net, WritePoll::Accepted(8), &data),
        WriteOutcome::Complete(8)
    );
    assert_eq!(
        read_all(&mut r, &mut net, ReadPoll::Pending),
        ReadOutcome::Data(b"via edge".to_vec())
    );
}

#[test]
fn make_reader_and_add_reader_connect_nodes() {
    let mut net = Net::new();
    let mut w = MultiWriter::new(None, Some(8), Policy::Block);
    let mut r = MultiReader::new(Some(9), Some(8), Policy::Block);

    let id = w.make_reader(&mut net, Some(9)).unwrap();
    assert_eq!(id, 9);
    r.add_reader(&net, w.id()).unwrap();
    assert_eq!(r.add_reader(&net, w.id()), Err(GraphError::EdgeAlreadyExists));
    assert_eq!(r.add_reader(&net, 54321), Err(GraphError::EdgeNotFound));

    let data = b"down".to_vec();
    assert_eq!(
        w.write_step(&mut net, WritePoll::Accepted(4), &data),
        WriteOutcome::Complete(4)
    );
    assert_eq!(
        read_all(&mut r, &mut net, ReadPoll::Pending),
        ReadOutcome::Data(b"down".to_vec())
    );
}

#[test]
fn fresh_identifiers_differ() {
    let r1 = MultiReader::new(None, None, Policy::Block);
    let r2 = MultiReader::new(None, None, Policy::Block);
    assert_ne!(r1.id(), r2.id());
}

#[test]
fn partial_transport_acceptance_bounds_broadcast() {
    // Only the bytes the transport accepted are offered to the edges.
    let mut net = Net::new();
    let mut w = MultiWriter::new(None, Some(8), Policy::Block);
    let mut r = w.reader(&mut net, None).unwrap();

    let data = b"abcdef".to_vec();
    assert_eq!(w.write_step(&mut net, WritePoll::Accepted(3), &data), WriteOutcome::Complete(3));
    assert_eq!(read_all(&mut r, &mut net, ReadPoll::Pending), ReadOutcome::Data(b"abc".to_vec()));
}
