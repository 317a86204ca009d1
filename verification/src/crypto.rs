//! Authenticated symmetric encryption of opaque byte payloads.
//!
//! A blob produced here is `nonce (24 bytes) || ciphertext || tag (16 bytes)`:
//! a fresh random nonce is drawn for every encryption call, so a nonce is
//! never reused under a key, and the nonce travels in front of the sealed
//! bytes. Keys are fixed 256-bit secrets supplied by the caller; this module
//! never derives, stores or rotates them.

use vstd::prelude::*;
use chacha20poly1305::XChaCha20Poly1305;
use chacha20poly1305::aead::Aead;
use chacha20poly1305::KeyInit;
use rand::RngCore;

verus! {

/// Length in bytes of an encryption key (256 bits).
pub const KEY_LEN: usize = 32;

/// Length in bytes of a nonce (192 bits).
pub const NONCE_LEN: usize = 24;

/// Length in bytes of the authentication tag the cipher appends.
pub const TAG_LEN: usize = 16;

/// A fixed-size symmetric encryption key.
pub type Key = [u8; KEY_LEN];

/// A fixed-size nonce, drawn fresh for every encryption.
pub type Nonce = [u8; NONCE_LEN];

/// Failure of an encryption or decryption call.
#[derive(Debug)]
pub enum Error {
    /// The blob handed to decryption is shorter than a nonce.
    InvalidEncoding,
    /// The cipher refused: on decryption, the authentication tag did not
    /// match (tampering, a wrong key, or corruption).
    ChaCha,
    /// The secure random source failed.
    Rand,
}

/// What the cipher returns for a key, a nonce and a plaintext: the
/// ciphertext with its trailing authentication tag. A function of its three
/// arguments alone.
pub uninterp spec fn seal(key: Seq<u8>, nonce: Seq<u8>, plaintext: Seq<u8>) -> Seq<u8>;

/// Holds when a blob decrypts to `plaintext` under `key`: the blob carries
/// its nonce in front, and the rest is the plaintext sealed under that
/// nonce.
pub open spec fn decrypts_to(key: Seq<u8>, blob: Seq<u8>, plaintext: Seq<u8>) -> bool {
    &&& blob.len() >= NONCE_LEN
    &&& blob.skip(NONCE_LEN as int) == seal(key, blob.take(NONCE_LEN as int), plaintext)
}

/// The all-zero key.
pub fn empty_key() -> (r: Key)
    ensures
        r@.len() == KEY_LEN,
        forall|i: int| 0 <= i < KEY_LEN ==> r@[i] == 0u8,
{
    [0; KEY_LEN]
}

/// Draws a fresh nonce from the operating system's secure random source.
///
/// Relies on rand::rngs::OsRng::try_fill_bytes: on success the buffer holds
/// bytes from the operating system's random source. Nothing is promised of
/// the drawn value; no two calls need agree. A failure of the random source
/// is reported as `Rand` and nothing else.
#[verifier::external_body]
pub fn make_nonce() -> (r: Result<Nonce, Error>)
    ensures
        r matches Err(e) ==> e is Rand,
{
    let mut nonce: Nonce = [0; NONCE_LEN];
    match rand::rngs::OsRng.try_fill_bytes(&mut nonce) {
        Ok(()) => Ok(nonce),
        Err(_) => Err(Error::Rand),
    }
}

/// Relies on chacha20poly1305::XChaCha20Poly1305 through aead::Aead::encrypt:
/// the result is ciphertext followed by a 16-byte tag, a function of key,
/// nonce and plaintext alone, named `seal` here.
#[verifier::external_body]
fn aead_seal(key: &Key, nonce: &Nonce, plaintext: &[u8]) -> (r: Result<Vec<u8>, Error>)
    ensures
        r matches Ok(c) ==> c@ == seal(key@, nonce@, plaintext@)
            && c@.len() == plaintext@.len() + TAG_LEN,
        r matches Err(e) ==> e is ChaCha,
{
    let cipher = XChaCha20Poly1305::new_from_slice(key).map_err(|_| Error::ChaCha)?;
    cipher.encrypt(nonce.into(), plaintext).map_err(|_| Error::ChaCha)
}

/// Relies on chacha20poly1305::XChaCha20Poly1305 through aead::Aead::decrypt:
/// it checks the trailing tag and returns the unique plaintext whose sealing
/// under this key and nonce is the given bytes, and fails when there is none.
#[verifier::external_body]
fn aead_open(key: &Key, nonce: &Nonce, ciphertext: &[u8]) -> (r: Result<Vec<u8>, Error>)
    ensures
        r is Ok ==> ciphertext@ == seal(key@, nonce@, r->Ok_0@),
        forall|p: Seq<u8>| ciphertext@ == seal(key@, nonce@, p)
            ==> r is Ok && r->Ok_0@ == p,
        r matches Err(e) ==> e is ChaCha,
{
    let cipher = XChaCha20Poly1305::new_from_slice(key).map_err(|_| Error::ChaCha)?;
    cipher.decrypt(nonce.into(), ciphertext).map_err(|_| Error::ChaCha)
}

/// Prefixes sealed bytes with the nonce they were sealed under.
fn encode_data(nonce: Nonce, data: Vec<u8>) -> (r: Result<Vec<u8>, Error>)
    ensures
        r matches Ok(v) && v@ == nonce@ + data@,
{
    let mut rtn: Vec<u8> = Vec::new();
    let mut i: usize = 0;
    while i < NONCE_LEN
        invariant
            i <= NONCE_LEN,
            rtn@ == nonce@.take(i as int),
        decreases NONCE_LEN - i,
    {
        rtn.push(nonce[i]);
        proof {
            assert(rtn@ =~= nonce@.take(i + 1));
        }
        i = i + 1;
    }
    let mut j: usize = 0;
    let n = data.len();
    while j < n
        invariant
            j <= n,
            n == data@.len(),
            rtn@ == nonce@ + data@.take(j as int),
        decreases n - j,
    {
        rtn.push(data[j]);
        proof {
            assert(rtn@ =~= nonce@ + data@.take(j + 1));
        }
        j = j + 1;
    }
    proof {
        assert(nonce@.take(NONCE_LEN as int) =~= nonce@);
        assert(data@.take(n as int) =~= data@);
    }
    Ok(rtn)
}

/// Splits a blob into its leading nonce and the sealed remainder; fails with
/// `InvalidEncoding` exactly when the blob is shorter than a nonce.
fn decode_data(data: Vec<u8>) -> (r: Result<(Nonce, Vec<u8>), Error>)
    ensures
        data@.len() < NONCE_LEN ==> (r matches Err(e) && e is InvalidEncoding),
        data@.len() >= NONCE_LEN ==> (r matches Ok(p)
            && p.0@ == data@.take(NONCE_LEN as int)
            && p.1@ == data@.skip(NONCE_LEN as int)),
{
    if data.len() < NONCE_LEN {
        return Err(Error::InvalidEncoding);
    }
    let mut nonce: Nonce = [0; NONCE_LEN];
    let mut i: usize = 0;
    while i < NONCE_LEN
        invariant
            i <= NONCE_LEN,
            data@.len() >= NONCE_LEN,
            nonce@.len() == NONCE_LEN,
            forall|k: int| 0 <= k < i ==> nonce@[k] == data@[k],
        decreases NONCE_LEN - i,
    {
        nonce[i] = data[i];
        i = i + 1;
    }
    let mut encrypted: Vec<u8> = Vec::new();
    let mut j: usize = NONCE_LEN;
    let n = data.len();
    while j < n
        invariant
            NONCE_LEN <= j <= n,
            n == data@.len(),
            encrypted@ == data@.subrange(NONCE_LEN as int, j as int),
        decreases n - j,
    {
        encrypted.push(data[j]);
        proof {
            assert(encrypted@ =~= data@.subrange(NONCE_LEN as int, j + 1));
        }
        j = j + 1;
    }
    proof {
        assert(nonce@ =~= data@.take(NONCE_LEN as int));
        assert(encrypted@ =~= data@.skip(NONCE_LEN as int));
    }
    Ok((nonce, encrypted))
}

/// Draws a fresh nonce, seals `data` under `key` and that nonce, and returns
/// `nonce  ||  ciphertext  ||  tag` as one blob. Fails only if the secure random
/// source or the cipher refuses; a nonce is never reused.
pub fn encrypt_data(key: &Key, data: Vec<u8>) -> (r: Result<Vec<u8>, Error>)
    ensures
        r matches Ok(c) ==> c@.len() == data@.len() + NONCE_LEN + TAG_LEN
            && decrypts_to(key@, c@, data@),
        r matches Err(e) ==> (e is Rand || e is ChaCha),
{
    let ghost data_view = data@;
    let nonce = match make_nonce() {
        Ok(n) => n,
        Err(e) => {
            return Err(e);
        },
    };
    let encrypted = match aead_seal(key, &nonce, data.as_slice()) {
        Ok(c) => c,
        Err(e) => {
            return Err(e);
        },
    };
    let r = encode_data(nonce, encrypted);
    proof {
        let c = r->Ok_0@;
        assert(c.take(NONCE_LEN as int) =~= nonce@);
        assert(c.skip(NONCE_LEN as int) =~= seal(key@, nonce@, data_view));
    }
    r
}

/// Splits the blob into nonce and sealed bytes and opens them under `key`.
/// Fails with `InvalidEncoding` exactly when the blob is shorter than a
/// nonce; on a blob of at least nonce length every failure is the
/// authentication error (tampering, a wrong key, or corruption), and no
/// plaintext, not even a partial one, comes back with it. When the blob
/// does decrypt under `key`, the plaintext comes back exactly.
pub fn decrypt_data(key: &Key, data: Vec<u8>) -> (r: Result<Vec<u8>, Error>)
    ensures
        data@.len() < NONCE_LEN ==> (r matches Err(e) && e is InvalidEncoding),
        data@.len() >= NONCE_LEN && r is Err ==> r->Err_0 is ChaCha,
        r matches Ok(p) ==> decrypts_to(key@, data@, p@),
        forall|p: Seq<u8>| decrypts_to(key@, data@, p) ==> (r matches Ok(q) && q@ == p),
{
    let (nonce, encrypted) = match decode_data(data) {
        Ok(p) => p,
        Err(e) => {
            return Err(e);
        },
    };
    aead_open(key, &nonce, encrypted.as_slice())
}

/// Law: round trip. A blob meeting `encrypt_data`'s contract for plaintext
/// `p` under `key` satisfies `decrypts_to(key, blob, p)`, the exact premise
/// under which `decrypt_data`'s contract returns `Ok` with precisely `p`.
pub proof fn lemma_encrypt_then_decrypt(key: Seq<u8>, nonce: Seq<u8>, p: Seq<u8>)
    ensures
        nonce.len() == NONCE_LEN ==> decrypts_to(key, nonce + seal(key, nonce, p), p),
{
    if nonce.len() == NONCE_LEN {
        let blob = nonce + seal(key, nonce, p);
        assert(blob.take(NONCE_LEN as int) =~= nonce);
        assert(blob.skip(NONCE_LEN as int) =~= seal(key, nonce, p));
    }
}

} // verus!
