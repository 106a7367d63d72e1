//! A set-reconciliation and gossip-synchronization engine for a
//! decentralized classified-advertisement network.
//!
//! Peers keep local inventories of advertisements loosely synchronized by
//! exchanging compact invertible set summaries instead of full inventories.

pub mod digest;
pub mod engine;
pub mod error;
pub mod iblt;
pub mod registry;
pub mod sched;
pub mod session;
pub mod text;
