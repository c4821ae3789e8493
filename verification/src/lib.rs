//! Distributed Hash Table building blocks.
//!
//! The crate provides loosely coupled parts for DHT applications:
//!
//! 1. A neighborhood table based on Kademlia, behind the `GenericNodeTable`
//!    trait with the `KNodeTable` implementation.
//! 2. Protocol-agnostic DHT logic in `Service` and `service::Handler`.
//! 3. Generic value types for implementing concrete protocols in the
//!    `protocol` module.
//!
//! Identifiers are abstracted by the `GenericId` trait, with a fixed-width
//! implementation on `u64` and a variable-length byte-string implementation
//! on `Vec<u8>`.

pub use address::Address;
pub use base::GenericAPI;
pub use base::GenericAddr;
pub use base::GenericId;
pub use base::GenericNodeTable;
pub use base::Node;
pub use knodetable::KBucket;
pub use knodetable::KNodeTable;
pub use service::Service;

pub mod address;
pub mod base;
mod bytesid;
mod digits;
pub mod knodetable;
pub mod nodetext;
pub mod protocol;
mod random;
pub mod service;
pub mod store;
mod uintid;
