use encrypted_pipe::{Edge, Policy, Provenance, OfferOutcome, DequeueOutcome};

#[test]
fn offer_until_full_then_policy_decides() {
    let mut blocked = Edge::new(2, Policy::Block, Provenance::Explicit);
    assert_eq!(blocked.offer_chunk(b"one".to_vec()), OfferOutcome::Delivered);
    assert_eq!(blocked.offer_chunk(b"two".to_vec()), OfferOutcome::Delivered);
    assert_eq!(blocked.offer_chunk(b"three".to_vec()), OfferOutcome::MustWait);
    assert_eq!(blocked.queue_len(), 2);

    let mut dropping = Edge::new(1, Policy::DropNewest, Provenance::Explicit);
    assert_eq!(dropping.offer_chunk(b"kept".to_vec()), OfferOutcome::Delivered);
    assert_eq!(dropping.offer_chunk(b"lost".to_vec()), OfferOutcome::Dropped);
    assert_eq!(dropping.queue_len(), 1);
    assert_eq!(dropping.dequeue_chunk(), DequeueOutcome::Chunk(b"kept".to_vec()));
}

#[test]
fn dequeue_order_and_end_of_data() {
    let mut edge = Edge::new(4, Policy::Block, Provenance::Spawn);
    assert_eq!(edge.provenance(), Provenance::Spawn);
    assert_eq!(edge.capacity(), 4);

    assert_eq!(edge.dequeue_chunk(), DequeueOutcome::Pending);
    edge.offer_chunk(b"first".to_vec());
    edge.offer_chunk(b"second".to_vec());
    assert_eq!(edge.dequeue_chunk(), DequeueOutcome::Chunk(b"first".to_vec()));
    edge.close_producer();
    assert!(edge.is_producer_closed());
    // What was queued before the close still comes out, in order.
    assert_eq!(edge.dequeue_chunk(), DequeueOutcome::Chunk(b"second".to_vec()));
    assert_eq!(edge.dequeue_chunk(), DequeueOutcome::EndOfData);
    assert_eq!(edge.dequeue_chunk(), DequeueOutcome::EndOfData);
}
