//! A threshold secret-sharing vault: splitting secrets into shares, and the
//! per-shard store and its text protocol.

pub mod field;
pub mod shamir;
pub mod shard;
pub mod protocol;
pub mod snapshot;
