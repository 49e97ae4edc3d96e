//! A fan-out/fan-in multiplexing engine for byte streams.
//!
//! Reader nodes merge bytes arriving from one upstream transport and any
//! number of inbound edges into a single ordered sequence; writer nodes
//! broadcast bytes to one downstream transport and any number of outbound
//! edges. Edges are bounded FIFO queues of byte chunks, attachable and
//! detachable at runtime. A cipher layer turns any transport into a
//! confidentiality-protected one with a keystream cipher.
//!
//! The engine itself is a cooperative polling state machine over plain
//! values: the surrounding runtime polls the transports and hands the
//! outcome of each poll to the node, which decides what to buffer, what to
//! serve, and what to broadcast.

use vstd::prelude::*;

pub mod crypto;
pub mod edge;
pub mod ids;
pub mod laws;
pub mod net;
pub mod reader;
pub mod writer;

pub use crypto::{EncryptedPipe, CipherStream, CipherError, encrypted_duplex};
pub use edge::{Policy, Provenance, GraphError, OfferOutcome, DequeueOutcome, Edge, EdgeView};
pub use net::{Net, EdgeEntry, EdgeEntryView};
pub use reader::{MultiReader, ReaderView, ReadPoll, ReadOutcome};
pub use writer::{MultiWriter, WriterView, WritePoll, WriteOutcome};

verus! {

/// Default capacity, in chunks, of a newly created edge.
pub const DEFAULT_EDGE_CAPACITY: usize = 64;

/// Copy the first `k` bytes of `src` into a fresh vector.
pub fn copy_prefix(src: &Vec<u8>, k: usize) -> (r: Vec<u8>)
    requires
        k <= src@.len(),
    ensures
        r@ == src@.subrange(0, k as int),
{
    let mut out: Vec<u8> = Vec::new();
    let mut i: usize = 0;
    while i < k
        invariant
            i <= k,
            k <= src@.len(),
            out@ == src@.subrange(0, i as int),
        decreases k - i,
    {
        out.push(src[i]);
        proof {
            assert(out@ =~= src@.subrange(0, i + 1));
        }
        i += 1;
    }
    out
}

/// Copy all of `src` into a fresh vector.
pub fn copy_bytes(src: &Vec<u8>) -> (r: Vec<u8>)
    ensures
        r@ == src@,
{
    let r = copy_prefix(src, src.len());
    proof {
        assert(src@.subrange(0, src@.len() as int) =~= src@);
    }
    r
}

} // verus!
