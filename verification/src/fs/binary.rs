//! The plain binary adapter: a store bound to a backing path, persisted as
//! the raw snapshot encoding.

use vstd::prelude::*;
use crate::codec::Wire;
use crate::codec::decode_snapshot;
use crate::codec::encode_snapshot;
use crate::codec::snapshot_wire;
use crate::fs::Error;
use crate::local::Local;
use crate::local::entries_wf;

verus! {

/// Options naming the backing location of a plain binary adapter.
pub struct Options {
    pub path: String,
}

/// Binds one store to one backing path under the binary snapshot codec.
pub struct Binary<KeyType> {
    manager: Local<KeyType>,
    path: String,
}

impl<KeyType> Binary<KeyType> {
    /// The wrapped store.
    pub closed spec fn manager_spec(&self) -> Local<KeyType> {
        self.manager
    }

    /// The backing path.
    pub closed spec fn path_spec(&self) -> Seq<char> {
        self.path@
    }

    /// Wraps an existing store, binding it to `path`.
    pub fn new(manager: Local<KeyType>, path: String) -> (r: Self)
        ensures
            r.manager_spec() == manager,
            r.path_spec() == path@,
    {
        Binary { manager, path }
    }

    /// The backing path.
    pub fn path(&self) -> (r: &String)
        ensures
            r@ == self.path_spec(),
    {
        &self.path
    }

    /// Read-through access to the wrapped store.
    pub fn manager(&self) -> (r: &Local<KeyType>)
        ensures
            *r == self.manager_spec(),
    {
        &self.manager
    }
}

impl<KeyType: Wire> Binary<KeyType> {
    /// Encodes the wrapped store's snapshot: exactly the bytes `save`
    /// writes to the backing file.
    pub fn save_bytes(&self) -> (r: Vec<u8>)
        requires
            self.manager_spec().wf(),
        ensures
            r@ == snapshot_wire(self.manager_spec().counter(), self.manager_spec().entries()),
    {
        encode_store(&self.manager)
    }

    /// Decodes the backing file's bytes into an adapter bound to `path`:
    /// the compute half of `load`. Succeeds on exactly the encodings of
    /// well-formed snapshots, reproducing the snapshot that was encoded;
    /// any other bytes fail as `Codec`.
    pub fn load_bytes(path: String, bytes: &Vec<u8>) -> (r: Result<Self, Error>)
        ensures
            r matches Ok(b) ==> b.manager_spec().wf() && b.path_spec() == path@
                && bytes@ == snapshot_wire(b.manager_spec().counter(), b.manager_spec().entries()),
            forall|c: u64, es: Seq<(u64, KeyType)>| (bytes@ == #[trigger] snapshot_wire(c, es)
                && entries_wf(es, c) && es.len() <= u64::MAX)
                ==> r is Ok,
            r matches Err(e) ==> e is Codec,
    {
        match decode_store::<KeyType>(bytes) {
            Some(manager) => Ok(Binary { manager, path }),
            None => Err(Error::Codec),
        }
    }
}

/// Encodes a store's snapshot to bytes.
pub fn encode_store<K: Wire>(manager: &Local<K>) -> (r: Vec<u8>)
    requires
        manager.wf(),
    ensures
        r@ == snapshot_wire(manager.counter(), manager.entries()),
{
    let counter = match manager.count() {
        Ok(c) => c,
        Err(_) => {
            proof {
                assert(false);
            }
            0
        },
    };
    let entries = match manager.store_reader() {
        Ok(es) => es,
        Err(_) => {
            proof {
                assert(false);
            }
            return Vec::new();
        },
    };
    encode_snapshot(counter, entries)
}

/// Decodes a store from its snapshot bytes; `None` marks malformed bytes.
pub fn decode_store<K: Wire>(bytes: &Vec<u8>) -> (r: Option<Local<K>>)
    ensures
        r matches Some(m) ==> m.wf()
            && bytes@ == snapshot_wire(m.counter(), m.entries()),
        forall|c: u64, es: Seq<(u64, K)>| (bytes@ == #[trigger] snapshot_wire(c, es)
            && entries_wf(es, c) && es.len() <= u64::MAX)
            ==> r is Some,
{
    match decode_snapshot::<K>(bytes) {
        Some((counter, entries)) => Some(Local::from_parts(counter, entries)),
        None => None,
    }
}

} // verus!
