//! A local, in-process key-management primitive: a monotonically versioned
//! store of key material with pluggable at-rest persistence (plain binary,
//! plain textual, and authenticated-encrypted) to a single backing location.

pub mod codec;
pub mod crypto;
pub mod fs;
pub mod key;
pub mod local;
pub mod traits;

pub use key::Key;
pub use local::Local;
