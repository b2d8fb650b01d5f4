//! Verified core of a blockchain data-availability light client.
//!
//! The centrepiece is the Kademlia record store: a capacity-bounded,
//! distance-ranked table of provider advertisements, a derived index of the
//! records this node provides itself, and a TTL codec for persisting value
//! records through a pluggable key-value backing store.

pub mod cells;
pub mod codec;
pub mod custom;
pub mod database;
pub mod kad_store;
pub mod keyspace;
pub mod ledger;

pub use cells::find_overlap;
