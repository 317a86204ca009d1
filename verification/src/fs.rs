//! Persistence adapters: each binds one store to one backing location (and,
//! for the encrypted one, one symmetric key) under a wire encoding.
//!
//! The adapters here hold the compute halves — encoding, decoding, sealing,
//! opening — with exact contracts; reading and writing the backing file is
//! the surrounding I/O layer's part, which hands bytes in and takes bytes
//! out. Saving overwrites the backing file in place: a crash mid-write can
//! leave it corrupt, and a production deployment should write to a
//! temporary file and rename it into place instead.

pub mod binary;
pub mod encrypted;
pub mod json;

pub use binary::Binary;
pub use encrypted::Encrypted;
pub use json::Json;

use vstd::prelude::*;

verus! {

/// Failure of a persistence operation.
#[derive(Debug)]
pub enum Error {
    /// The backing file could not be opened, read or written; reported by
    /// the surrounding I/O layer.
    Io,
    /// The persisted bytes do not decode as a store snapshot.
    Codec,
    /// Sealing or opening the persisted bytes failed.
    Crypto(crate::crypto::Error),
}

/// The persistence-adapter contract: load a store from backing options,
/// save it back. Implemented by the surrounding I/O layer, which pairs a
/// backing file with the compute halves the adapters here provide.
pub trait Wrapper: Sized {
    type Error;

    type Args;

    /// Builds an adapter from its backing location's current contents.
    fn load(options: Self::Args) -> Result<Self, Self::Error>;

    /// Persists the wrapped store to the backing location.
    fn save(&self) -> Result<(), Self::Error>;
}

} // verus!
