//! Abstract interface declarations: the contracts that any concrete store —
//! the local one here, or a future remote backend — satisfies for
//! interchangeability. Pure signatures; no logic lives here.

use vstd::prelude::*;

verus! {

/// Builds a key record once a version is known.
pub trait KeyBuilder {
    type Version;

    type Output;

    /// Finishes the record under the given version.
    fn build(self, version: Self::Version) -> Self::Output;
}

/// A record that knows the version it was issued under.
pub trait Key {
    type Version;

    /// The version this record was issued under.
    fn version(&self) -> Self::Version;
}

/// Read access to a versioned store of key records.
pub trait Manager {
    type Key;

    type Version;

    type Error;

    /// The record at `version`, if any.
    fn get(&self, version: Self::Version) -> Result<Self::Key, Self::Error>;

    /// The record at the highest version present.
    fn latest(&self) -> Result<Self::Key, Self::Error>;
}

/// Write access to a versioned store of key records.
pub trait MutManager {
    type Key;

    type Version;

    type Error;

    /// Inserts a record at the next version.
    fn update(&mut self, key: Self::Key) -> Result<Self::Key, Self::Error>;

    /// Removes the record at `version`, retiring the version.
    fn drop(&mut self, version: Self::Version) -> Result<Self::Key, Self::Error>;
}

} // verus!
