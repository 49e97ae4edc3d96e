//! The cipher layer: a keystream transform that turns any transport into a
//! confidentiality-protected one.
//!
//! Each direction of a session keeps an independently advancing keystream
//! position from construction on — one cipher object is never applied to
//! both directions, which would reuse keystream. The two ends of a duplex
//! pair derive complementary streams from the same key and nonce: one end's
//! write-direction state and the peer's read-direction state advance in
//! lockstep, byte for byte. The cipher has no resynchronization primitive:
//! lost or reordered ciphertext desynchronizes the stream permanently,
//! which a position check surfaces as a fatal [`CipherError::Desync`].

use vstd::prelude::*;

use chacha20::cipher::{KeyIvInit, StreamCipher, StreamCipherSeek};
use rand::RngCore;

verus! {

/// The keystream byte that the cipher produces at position `pos` for this
/// key and nonce. The stream is a pure function of the three; nothing else
/// enters it.
pub uninterp spec fn keystream_byte(key: Seq<u8>, nonce: Seq<u8>, pos: int) -> u8;

/// The highest keystream position the cipher can reach: its block counter
/// is 32 bits wide and each block covers 64 bytes.
pub const KEYSTREAM_LIMIT: u64 = 0x3FFFFFFFC0;

/// `data` transformed by the keystream for `(key, nonce)` starting at
/// position `pos`: each byte XORed with the keystream byte at its
/// position. Its own inverse at equal positions.
pub open spec fn cipher_of(key: Seq<u8>, nonce: Seq<u8>, pos: int, data: Seq<u8>) -> Seq<u8> {
    Seq::new(data.len(), |i: int| data[i] ^ keystream_byte(key, nonce, pos + i))
}

/// Relies on `chacha20::ChaCha20` (`KeyIvInit::new`, `StreamCipherSeek::seek`
/// and `StreamCipher::apply_keystream`) to produce the keystream segment of
/// the given length at the given position, which depends on the key, the
/// nonce and the position alone.
#[verifier::external_body]
fn keystream_segment(key: &[u8; 32], nonce: &[u8; 12], pos: u64, len: usize) -> (r: Vec<u8>)
    requires
        pos + len <= KEYSTREAM_LIMIT,
    ensures
        r@.len() == len,
        forall|i: int| 0 <= i < len ==> r@[i] == keystream_byte(key@, nonce@, pos + i),
{
    let mut cipher = chacha20::ChaCha20::new(key.into(), nonce.into());
    cipher.seek(pos);
    let mut buf = vec![0u8; len];
    cipher.apply_keystream(&mut buf);
    buf
}

/// Relies on `rand::rngs::OsRng` (`RngCore::fill_bytes`) to draw a fresh
/// random session nonce. Nothing is promised of the value.
#[verifier::external_body]
fn fresh_nonce() -> [u8; 12] {
    let mut nonce = [0u8; 12];
    rand::rngs::OsRng.fill_bytes(&mut nonce);
    nonce
}

/// Cipher errors.
#[derive(Clone, Copy, PartialEq, Eq, Structural, Debug)]
pub enum CipherError {
    /// Ciphertext was lost or reordered: the keystream positions no longer
    /// agree. Fatal and not recoverable in-band; the session must be
    /// re-established with a fresh nonce.
    Desync,
}

/// One direction's cipher state: the shared key and session nonce, and the
/// keystream position this direction has advanced to.
pub struct CipherStream {
    key: [u8; 32],
    nonce: [u8; 12],
    pos: u64,
}

/// The mathematical model of one direction's cipher state.
pub struct CipherStreamView {
    pub key: Seq<u8>,
    pub nonce: Seq<u8>,
    pub pos: int,
}

impl View for CipherStream {
    type V = CipherStreamView;

    closed spec fn view(&self) -> CipherStreamView {
        CipherStreamView { key: self.key@, nonce: self.nonce@, pos: self.pos as int }
    }
}

impl CipherStream {
    /// The keystream position is within the cipher's reach.
    pub open spec fn wf(self) -> bool {
        0 <= self@.pos <= KEYSTREAM_LIMIT as int
    }

    /// A fresh direction state at keystream position zero.
    pub fn new(key: &[u8; 32], nonce: &[u8; 12]) -> (r: CipherStream)
        ensures
            r@ == (CipherStreamView { key: key@, nonce: nonce@, pos: 0 }),
            r.wf(),
    {
        CipherStream { key: *key, nonce: *nonce, pos: 0 }
    }

    /// The keystream position this direction has advanced to.
    pub fn position(&self) -> (r: u64)
        ensures
            r as int == self@.pos,
    {
        self.pos
    }

    /// Apply the keystream to `data`, advancing this direction's position
    /// by exactly `data.len()`. The same call on the complementary state
    /// undoes it.
    pub fn apply(&mut self, data: &Vec<u8>) -> (r: Vec<u8>)
        requires
            old(self).wf(),
            old(self)@.pos + data@.len() <= KEYSTREAM_LIMIT as int,
        ensures
            final(self).wf(),
            final(self)@ == (CipherStreamView {
                pos: old(self)@.pos + data@.len(),
                ..old(self)@
            }),
            r@ == cipher_of(old(self)@.key, old(self)@.nonce, old(self)@.pos, data@),
    {
        let len = data.len();
        let ks = keystream_segment(&self.key, &self.nonce, self.pos, len);
        let mut out: Vec<u8> = Vec::new();
        let mut i: usize = 0;
        while i < len
            invariant
                i <= len,
                len == data@.len(),
                ks@.len() == len,
                self@ == old(self)@,
                forall|t: int|
                    0 <= t < len ==> ks@[t] == keystream_byte(self@.key, self@.nonce,
                        self@.pos + t),
                out@ == cipher_of(self@.key, self@.nonce, self@.pos, data@).subrange(0, i as int),
            decreases len - i,
        {
            out.push(data[i] ^ ks[i]);
            proof {
                assert(out@ =~= cipher_of(self@.key, self@.nonce, self@.pos, data@).subrange(
                    0,
                    i + 1,
                ));
            }
            i += 1;
        }
        self.pos = self.pos + (len as u64);
        proof {
            assert(out@ =~= cipher_of(old(self)@.key, old(self)@.nonce, old(self)@.pos, data@));
        }
        out
    }

    /// Apply the keystream only if the caller's expected position matches
    /// this direction's: a mismatch means ciphertext was lost or
    /// reordered, which is fatal, and the state is left untouched.
    pub fn apply_at(&mut self, expected_pos: u64, data: &Vec<u8>) -> (r: Result<
        Vec<u8>,
        CipherError,
    >)
        requires
            old(self).wf(),
            old(self)@.pos + data@.len() <= KEYSTREAM_LIMIT as int,
        ensures
            final(self).wf(),
            match r {
                Ok(out) => {
                    &&& expected_pos as int == old(self)@.pos
                    &&& out@ == cipher_of(old(self)@.key, old(self)@.nonce, old(self)@.pos,
                        data@)
                    &&& final(self)@ == (CipherStreamView {
                        pos: old(self)@.pos + data@.len(),
                        ..old(self)@
                    })
                },
                Err(e) => {
                    &&& e == CipherError::Desync
                    &&& expected_pos as int != old(self)@.pos
                    &&& *final(self) == *old(self)
                },
            },
    {
        if expected_pos != self.pos {
            return Err(CipherError::Desync);
        }
        Ok(self.apply(data))
    }
}

/// One end of an encrypted duplex session: an independently advancing
/// cipher state per direction, derived from the same key and nonce.
pub struct EncryptedPipe {
    read_dir: CipherStream,
    write_dir: CipherStream,
}

/// The mathematical model of one session end.
pub struct EncryptedPipeView {
    pub read_dir: CipherStreamView,
    pub write_dir: CipherStreamView,
}

impl View for EncryptedPipe {
    type V = EncryptedPipeView;

    closed spec fn view(&self) -> EncryptedPipeView {
        EncryptedPipeView { read_dir: self.read_dir@, write_dir: self.write_dir@ }
    }
}

impl EncryptedPipe {
    pub open spec fn wf(self) -> bool {
        &&& 0 <= self@.read_dir.pos <= KEYSTREAM_LIMIT as int
        &&& 0 <= self@.write_dir.pos <= KEYSTREAM_LIMIT as int
    }

    /// A session end with both direction states at position zero.
    pub fn new(key: &[u8; 32], nonce: &[u8; 12]) -> (r: EncryptedPipe)
        ensures
            r.wf(),
            r@.read_dir == (CipherStreamView { key: key@, nonce: nonce@, pos: 0 }),
            r@.write_dir == (CipherStreamView { key: key@, nonce: nonce@, pos: 0 }),
    {
        EncryptedPipe { read_dir: CipherStream::new(key, nonce), write_dir: CipherStream::new(
            key,
            nonce,
        ) }
    }

    /// The keystream position of the read direction.
    pub fn read_position(&self) -> (r: u64)
        ensures
            r as int == self@.read_dir.pos,
    {
        self.read_dir.position()
    }

    /// The keystream position of the write direction.
    pub fn write_position(&self) -> (r: u64)
        ensures
            r as int == self@.write_dir.pos,
    {
        self.write_dir.position()
    }

    /// Encrypt outgoing plaintext, advancing the write direction.
    pub fn encrypt(&mut self, data: &Vec<u8>) -> (r: Vec<u8>)
        requires
            old(self).wf(),
            old(self)@.write_dir.pos + data@.len() <= KEYSTREAM_LIMIT as int,
        ensures
            final(self).wf(),
            final(self)@.read_dir == old(self)@.read_dir,
            final(self)@.write_dir == (CipherStreamView {
                pos: old(self)@.write_dir.pos + data@.len(),
                ..old(self)@.write_dir
            }),
            r@ == cipher_of(old(self)@.write_dir.key, old(self)@.write_dir.nonce,
                old(self)@.write_dir.pos, data@),
    {
        self.write_dir.apply(data)
    }

    /// Decrypt incoming ciphertext, advancing the read direction.
    pub fn decrypt(&mut self, data: &Vec<u8>) -> (r: Vec<u8>)
        requires
            old(self).wf(),
            old(self)@.read_dir.pos + data@.len() <= KEYSTREAM_LIMIT as int,
        ensures
            final(self).wf(),
            final(self)@.write_dir == old(self)@.write_dir,
            final(self)@.read_dir == (CipherStreamView {
                pos: old(self)@.read_dir.pos + data@.len(),
                ..old(self)@.read_dir
            }),
            r@ == cipher_of(old(self)@.read_dir.key, old(self)@.read_dir.nonce,
                old(self)@.read_dir.pos, data@),
    {
        self.read_dir.apply(data)
    }

    /// Decrypt incoming ciphertext only if the peer's stated stream
    /// position matches the read direction's; a mismatch is a fatal
    /// desynchronization and leaves the state untouched.
    pub fn decrypt_at(&mut self, expected_pos: u64, data: &Vec<u8>) -> (r: Result<
        Vec<u8>,
        CipherError,
    >)
        requires
            old(self).wf(),
            old(self)@.read_dir.pos + data@.len() <= KEYSTREAM_LIMIT as int,
        ensures
            final(self).wf(),
            final(self)@.write_dir == old(self)@.write_dir,
            match r {
                Ok(out) => {
                    &&& expected_pos as int == old(self)@.read_dir.pos
                    &&& out@ == cipher_of(old(self)@.read_dir.key, old(self)@.read_dir.nonce,
                        old(self)@.read_dir.pos, data@)
                    &&& final(self)@.read_dir == (CipherStreamView {
                        pos: old(self)@.read_dir.pos + data@.len(),
                        ..old(self)@.read_dir
                    })
                },
                Err(e) => {
                    &&& e == CipherError::Desync
                    &&& expected_pos as int != old(self)@.read_dir.pos
                    &&& final(self)@ == old(self)@
                },
            },
    {
        self.read_dir.apply_at(expected_pos, data)
    }
}

/// Two complementary session ends over a fresh random nonce: each end's
/// write direction is in lockstep with the other end's read direction,
/// all four states at position zero.
pub fn encrypted_duplex(key: &[u8; 32]) -> (r: (EncryptedPipe, EncryptedPipe))
    ensures
        r.0.wf(),
        r.1.wf(),
        r.0@.read_dir == r.1@.write_dir,
        r.0@.write_dir == r.1@.read_dir,
        r.0@.read_dir == r.0@.write_dir,
        r.0@.write_dir.key == key@,
        r.0@.write_dir.pos == 0,
{
    let nonce = fresh_nonce();
    let a = EncryptedPipe::new(key, &nonce);
    let b = EncryptedPipe::new(key, &nonce);
    (a, b)
}

/// Applying the keystream twice at the same key, nonce and position gives
/// the input back: encrypting then decrypting with matching state
/// reproduces the exact byte sequence.
pub proof fn lemma_cipher_round_trip(key: Seq<u8>, nonce: Seq<u8>, pos: int, data: Seq<u8>)
    ensures
        cipher_of(key, nonce, pos, cipher_of(key, nonce, pos, data)) == data,
{
    let once = cipher_of(key, nonce, pos, data);
    let twice = cipher_of(key, nonce, pos, once);
    assert forall|i: int| 0 <= i < data.len() implies twice[i] == data[i] by {
        let k = keystream_byte(key, nonce, pos + i);
        let d = data[i];
        assert((d ^ k) ^ k == d) by (bit_vector);
    }
    assert(twice =~= data);
}

/// The transform is chunking-independent: ciphering a concatenation equals
/// ciphering the parts in sequence, the second starting where the first
/// left the position. With the round trip above, a round trip holds no
/// matter how the input was split across write calls.
pub proof fn lemma_cipher_chunking(
    key: Seq<u8>,
    nonce: Seq<u8>,
    pos: int,
    a: Seq<u8>,
    b: Seq<u8>,
)
    ensures
        cipher_of(key, nonce, pos, a + b) == cipher_of(key, nonce, pos, a) + cipher_of(
            key,
            nonce,
            pos + a.len(),
            b,
        ),
{
    let lhs = cipher_of(key, nonce, pos, a + b);
    let rhs = cipher_of(key, nonce, pos, a) + cipher_of(key, nonce, pos + a.len(), b);
    assert forall|i: int| 0 <= i < lhs.len() implies lhs[i] == rhs[i] by {
        if i < a.len() {
            assert((a + b)[i] == a[i]);
        } else {
            assert((a + b)[i] == b[i - a.len()]);
        }
    }
    assert(lhs =~= rhs);
}

} // verus!
