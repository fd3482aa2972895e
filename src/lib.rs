//! Content-addressable storage: immutable pairs addressed by their own key,
//! metadata records attached to them, and the contract every backend meets.
pub mod error;
pub mod hash_table;
pub mod key;
pub mod memory;
pub mod record;
