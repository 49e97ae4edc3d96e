use encrypted_pipe::{EncryptedPipe, CipherStream, CipherError, encrypted_duplex};
use encrypted_pipe::{Net, Policy, MultiReader, MultiWriter, ReadPoll, ReadOutcome, WritePoll,
    WriteOutcome};

use chacha20::ChaCha20;
use chacha20::cipher::{KeyIvInit, StreamCipher};

#[test]
fn round_trip_single_chunk() {
    let key = [0u8; 32];
    let (mut a, mut b) = encrypted_duplex(&key);

    let data = b"test data".to_vec();
    let ct = a.encrypt(&data);
    let pt = b.decrypt(&ct);
    assert_eq!(pt, data);
}

#[test]
fn round_trip_repeated_messages() {
    // A second message still round-trips: both directions' positions
    // advanced in lockstep after the first.
    let key = [7u8; 32];
    let (mut a, mut b) = encrypted_duplex(&key);

    let first = b"test data".to_vec();
    assert_eq!(b.decrypt(&a.encrypt(&first)), first);
    let second = b"test data 2".to_vec();
    assert_eq!(b.decrypt(&a.encrypt(&second)), second);
}

#[test]
fn round_trip_independent_of_chunking() {
    // Encrypt in three pieces, decrypt the concatenation in one call.
    let key = [3u8; 32];
    let (mut a, mut b) = encrypted_duplex(&key);

    let parts = [b"test ".to_vec(), b"data ".to_vec(), b"again".to_vec()];
    let mut ciphertext = Vec::new();
    let mut plaintext = Vec::new();
    for part in &parts {
        ciphertext.extend(a.encrypt(part));
        plaintext.extend(part.iter().copied());
    }
    assert_eq!(b.decrypt(&ciphertext), plaintext);
}

#[test]
fn directions_are_independent() {
    // Traffic in one direction does not advance the other direction's
    // keystream: after a->b traffic, b->a still starts at position zero.
    let key = [9u8; 32];
    let (mut a, mut b) = encrypted_duplex(&key);

    let noise = b"noise noise noise".to_vec();
    let _ = b.decrypt(&a.encrypt(&noise));

    let reply = b"reply".to_vec();
    assert_eq!(a.decrypt(&b.encrypt(&reply)), reply);
}

#[test]
fn ciphertext_differs_from_plaintext() {
    // The keystream is real: encrypting zeros must not return zeros, and
    // the transform must agree with the cipher applied directly.
    let key = [0u8; 32];
    let nonce = [0u8; 12];
    let mut pipe = EncryptedPipe::new(&key, &nonce);

    let zeros = vec![0u8; 64];
    let ct = pipe.encrypt(&zeros);
    assert_eq!(ct.len(), 64);
    assert_ne!(ct, zeros);

    let mut reference = zeros.clone();
    let mut cipher = ChaCha20::new((&key).into(), (&nonce).into());
    cipher.apply_keystream(&mut reference);
    assert_eq!(ct, reference);
}

#[test]
fn stream_positions_advance_by_bytes() {
    let key = [1u8; 32];
    let nonce = [2u8; 12];
    let mut s = CipherStream::new(&key, &nonce);
    assert_eq!(s.position(), 0);
    let _ = s.apply(&b"12345".to_vec());
    assert_eq!(s.position(), 5);
    let _ = s.apply(&b"678".to_vec());
    assert_eq!(s.position(), 8);
}

#[test]
fn desync_is_detected_and_fatal() {
    let key = [4u8; 32];
    let nonce = [5u8; 12];
    let mut sender = EncryptedPipe::new(&key, &nonce);
    let mut receiver = EncryptedPipe::new(&key, &nonce);

    let first = b"first".to_vec();
    let second = b"second".to_vec();
    let _lost = sender.encrypt(&first);
    let ct2 = sender.encrypt(&second);

    // The first ciphertext never arrived: the receiver is still at
    // position 0 while the peer says 5.
    assert_eq!(receiver.decrypt_at(5, &ct2), Err(CipherError::Desync));
    // The state is untouched: delivery in the right order still works.
    let ct1 = EncryptedPipe::new(&key, &nonce).encrypt(&first);
    assert_eq!(receiver.decrypt_at(0, &ct1).unwrap(), first);
    assert_eq!(receiver.decrypt_at(5, &ct2).unwrap(), second);
}

#[test]
fn encrypted_transport_through_nodes() {
    // The cipher composes with the multiplexer: one end encrypts what its
    // writer node sends, the other end's reader node hands ciphertext up
    // to be decrypted.
    let key = [6u8; 32];
    let (mut enc_end, mut dec_end) = encrypted_duplex(&key);
    let mut net = Net::new();
    let mut w = MultiWriter::new(None, Some(4096), Policy::Block);
    let mut r = MultiReader::new(None, Some(4096), Policy::Block);

    let data = b"integration test data".to_vec();
    let ciphertext = enc_end.encrypt(&data);
    assert_eq!(
        w.write_step(&mut net, WritePoll::Accepted(ciphertext.len()), &ciphertext),
        WriteOutcome::Complete(ciphertext.len())
    );
    // The runtime carries the ciphertext to the reader's upstream.
    match r.read_step(&mut net, ReadPoll::Data(ciphertext.clone()), 4096) {
        ReadOutcome::Data(received) => {
            assert_eq!(dec_end.decrypt(&received), data);
        }
        other => panic!("expected data, got {:?}", other),
    }
}
