//! Authenticated encryption of secret and proxy blobs.
//!
//! The store's key seals a payload into `nonce ++ ciphertext`, with a fresh
//! 24-byte nonce in front of each sealed blob.  What the cipher gives back
//! for a key, a nonce and a ciphertext is a fixed function of those three
//! values alone; [`aead_plaintext`] names it, and every contract about
//! sealed blobs goes through that name.  The key is an explicit handle
//! passed in at store construction; nothing here persists or prints it.

use chacha20poly1305::aead::{Aead, Generate};
use chacha20poly1305::KeyInit;
use vstd::prelude::*;

verus! {

/// Length in bytes of the nonce put in front of each sealed blob.
pub const NONCE_LEN: usize = 24;

/// Length in bytes of an encryption key.
pub const KEY_LEN: usize = 32;

/// What authenticated decryption yields for a key, a nonce and a
/// ciphertext: the unique plaintext the ciphertext seals under them, or
/// nothing when authentication fails.
pub uninterp spec fn aead_plaintext(key: Seq<u8>, nonce: Seq<u8>, ciphertext: Seq<u8>) -> Option<
    Seq<u8>,
>;

/// What a whole stored blob decrypts to: its leading nonce followed by the
/// ciphertext, or nothing when it is too short to hold a nonce.
pub open spec fn blob_plaintext(key: Seq<u8>, blob: Seq<u8>) -> Option<Seq<u8>> {
    if blob.len() >= NONCE_LEN {
        aead_plaintext(key, blob.subrange(0, NONCE_LEN as int), blob.subrange(NONCE_LEN as int, blob.len() as int))
    } else {
        None
    }
}

/// Process-scoped encryption key handle.
pub struct Key {
    bytes: [u8; 32],
}

impl View for Key {
    type V = Seq<u8>;

    closed spec fn view(&self) -> Seq<u8> {
        self.bytes@
    }
}

impl Key {
    /// Wrap raw key bytes in a key handle.
    pub fn new(bytes: [u8; 32]) -> (k: Key)
        ensures
            k@ == bytes@,
    {
        Key { bytes }
    }

    /// Seal `plaintext` under this key with a fresh random nonce; the result
    /// is `nonce ++ ciphertext`.  Fails only when the platform's random
    /// source or the cipher fails.
    ///
    /// Relies on chacha20poly1305::XChaCha20Poly1305: decrypting what
    /// encrypt returned, under the same key and nonce, gives the plaintext
    /// back.
    #[verifier::external_body]
    pub fn encrypt(&self, plaintext: &[u8]) -> (r: Option<Vec<u8>>)
        ensures
            r matches Some(blob) ==> blob@.len() >= NONCE_LEN && aead_plaintext(
                self@,
                blob@.subrange(0, NONCE_LEN as int),
                blob@.subrange(NONCE_LEN as int, blob@.len() as int),
            ) == Some(plaintext@),
    {
        let cipher = chacha20poly1305::XChaCha20Poly1305::new(&chacha20poly1305::Key::from(
            self.bytes,
        ));
        let nonce = match chacha20poly1305::XNonce::try_generate() {
            Ok(n) => n,
            Err(_) => return None,
        };
        match cipher.encrypt(&nonce, plaintext) {
            Ok(ct) => {
                let mut blob = nonce.to_vec();
                blob.extend_from_slice(&ct);
                Some(blob)
            },
            Err(_) => None,
        }
    }

    /// Open a sealed `nonce ++ ciphertext` pair under this key.
    ///
    /// Relies on chacha20poly1305::XChaCha20Poly1305::decrypt: a pure
    /// function of key, nonce and ciphertext, returning the sealed plaintext
    /// exactly when authentication succeeds.
    #[verifier::external_body]
    fn open_raw(&self, nonce: &[u8], ciphertext: &[u8]) -> (r: Option<Vec<u8>>)
        requires
            nonce@.len() == NONCE_LEN,
        ensures
            r matches Some(p) ==> aead_plaintext(self@, nonce@, ciphertext@) == Some(p@),
            r is None ==> aead_plaintext(self@, nonce@, ciphertext@) is None,
    {
        let cipher = chacha20poly1305::XChaCha20Poly1305::new(&chacha20poly1305::Key::from(
            self.bytes,
        ));
        let nonce_arr = match chacha20poly1305::XNonce::try_from(nonce) {
            Ok(n) => n,
            Err(_) => return None,
        };
        cipher.decrypt(&nonce_arr, ciphertext).ok()
    }

    /// Open a whole stored blob: split off the leading nonce and decrypt the
    /// rest.  Returns the plaintext exactly when the blob authenticates
    /// under this key.
    pub fn decrypt(&self, blob: &[u8]) -> (r: Option<Vec<u8>>)
        ensures
            r matches Some(p) ==> blob_plaintext(self@, blob@) == Some(p@),
            r is None ==> blob_plaintext(self@, blob@) is None,
    {
        if blob.len() < NONCE_LEN {
            return None;
        }
        let nonce = copy_range(blob, 0, NONCE_LEN);
        let ciphertext = copy_range(blob, NONCE_LEN, blob.len());
        self.open_raw(nonce.as_slice(), ciphertext.as_slice())
    }
}

/// Copy the bytes of `b` from `from` (inclusive) to `to` (exclusive) into a
/// fresh vector.
pub fn copy_range(b: &[u8], from: usize, to: usize) -> (r: Vec<u8>)
    requires
        from <= to <= b@.len(),
    ensures
        r@ == b@.subrange(from as int, to as int),
{
    let mut out: Vec<u8> = Vec::new();
    let mut i: usize = from;
    while i < to
        invariant
            from <= i <= to <= b@.len(),
            out@ == b@.subrange(from as int, i as int),
        decreases to - i,
    {
        out.push(b[i]);
        proof {
            assert(b@.subrange(from as int, i + 1) =~= b@.subrange(from as int, i as int).push(
                b@[i as int],
            ));
        }
        i = i + 1;
    }
    out
}

} // verus!
