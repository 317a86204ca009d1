//! The encrypted adapter: a store bound to a backing path and a symmetric
//! key, persisted as the snapshot encoding sealed by authenticated
//! encryption. The key is never part of the persisted bytes.

use vstd::prelude::*;
use crate::codec::Wire;
use crate::codec::snapshot_wire;
use crate::crypto;
use crate::crypto::decrypts_to;
use crate::fs::Error;
use crate::fs::binary::decode_store;
use crate::fs::binary::encode_store;
use crate::local::Local;
use crate::local::entries_wf;

verus! {

/// Options naming the backing location and key of an encrypted adapter.
pub struct Options {
    pub path: String,
    pub key: crypto::Key,
}

/// Binds one store to one backing path and one symmetric key; persisted
/// bytes are the sealed snapshot encoding.
pub struct Encrypted<KeyType> {
    manager: Local<KeyType>,
    path: String,
    key: crypto::Key,
}

impl<KeyType> Encrypted<KeyType> {
    /// The wrapped store.
    pub closed spec fn manager_spec(&self) -> Local<KeyType> {
        self.manager
    }

    /// The backing path.
    pub closed spec fn path_spec(&self) -> Seq<char> {
        self.path@
    }

    /// The symmetric key.
    pub closed spec fn key_spec(&self) -> crypto::Key {
        self.key
    }

    /// Wraps an existing store, binding it to `path` and `key`.
    pub fn new(manager: Local<KeyType>, path: String, key: crypto::Key) -> (r: Self)
        ensures
            r.manager_spec() == manager,
            r.path_spec() == path@,
            r.key_spec() == key,
    {
        Encrypted { manager, path, key }
    }

    /// The backing path.
    pub fn path(&self) -> (r: &String)
        ensures
            r@ == self.path_spec(),
    {
        &self.path
    }

    /// The symmetric key.
    pub fn key(&self) -> (r: &crypto::Key)
        ensures
            *r == self.key_spec(),
    {
        &self.key
    }

    /// Read-through access to the wrapped store.
    pub fn manager(&self) -> (r: &Local<KeyType>)
        ensures
            *r == self.manager_spec(),
    {
        &self.manager
    }
}

impl<KeyType: Wire> Encrypted<KeyType> {
    /// Encodes the wrapped store's snapshot and seals it under the
    /// adapter's key and a fresh random nonce: exactly the bytes `save`
    /// writes to the backing file, `nonce (24 bytes) || ciphertext ||
    /// tag (16 bytes)`, 40 bytes longer than the encoded snapshot. Fails
    /// only if the random source or the cipher refuses.
    pub fn save_bytes(&self) -> (r: Result<Vec<u8>, Error>)
        requires
            self.manager_spec().wf(),
        ensures
            r matches Ok(blob) ==> blob@.len() == snapshot_wire(
                self.manager_spec().counter(),
                self.manager_spec().entries(),
            ).len() + crypto::NONCE_LEN + crypto::TAG_LEN,
            r matches Ok(blob) ==> decrypts_to(
                self.key_spec()@,
                blob@,
                snapshot_wire(self.manager_spec().counter(), self.manager_spec().entries()),
            ),
            r matches Err(e) ==> e is Crypto,
    {
        let bytes = encode_store(&self.manager);
        match crypto::encrypt_data(&self.key, bytes) {
            Ok(blob) => Ok(blob),
            Err(e) => Err(Error::Crypto(e)),
        }
    }

    /// Opens the backing file's bytes under `key` and decodes the sealed
    /// snapshot into an adapter bound to `path` and `key`: the compute half
    /// of `load`. A blob shorter than a nonce fails as invalid encoding; on
    /// a longer blob a failure of the cipher is the authentication error
    /// (tampering, a wrong key, or corruption), with no plaintext behind
    /// it, and `Codec` marks only a blob that did decrypt but to something
    /// other than a well-formed snapshot. A blob that decrypts under `key`
    /// to the encoding of a well-formed snapshot loads, reproducing exactly
    /// that snapshot.
    pub fn load_bytes(path: String, key: crypto::Key, bytes: Vec<u8>) -> (r: Result<Self, Error>)
        ensures
            bytes@.len() < crypto::NONCE_LEN ==> (r matches Err(Error::Crypto(ce))
                && ce is InvalidEncoding),
            bytes@.len() >= crypto::NONCE_LEN && r is Err ==> match r->Err_0 {
                Error::Crypto(ce) => ce is ChaCha,
                Error::Codec => exists|p: Seq<u8>| decrypts_to(key@, bytes@, p),
                _ => false,
            },
            r matches Ok(ad) ==> ad.manager_spec().wf() && ad.path_spec() == path@
                && ad.key_spec() == key
                && decrypts_to(
                    key@,
                    bytes@,
                    snapshot_wire(ad.manager_spec().counter(), ad.manager_spec().entries()),
                ),
            forall|c: u64, es: Seq<(u64, KeyType)>| (decrypts_to(
                key@,
                bytes@,
                #[trigger] snapshot_wire(c, es),
            ) && entries_wf(es, c) && es.len() <= u64::MAX)
                ==> (r matches Ok(ad) && snapshot_wire(
                    ad.manager_spec().counter(),
                    ad.manager_spec().entries(),
                ) == snapshot_wire(c, es)),
    {
        let plain = match crypto::decrypt_data(&key, bytes) {
            Ok(p) => p,
            Err(e) => {
                return Err(Error::Crypto(e));
            },
        };
        match decode_store::<KeyType>(&plain) {
            Some(manager) => Ok(Encrypted { manager, path, key }),
            None => Err(Error::Codec),
        }
    }
}

} // verus!
