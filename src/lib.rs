//! Application-layer state machine of a private voting chain.
//!
//! A consensus engine orders ballot transactions; this library judges each ballot against
//! its election (anchors, double spends, the outcome of its proof and signature checks),
//! keeps per election an append-only note-commitment tree and the set of spent
//! nullifiers, and publishes a deterministic application hash that rolls up the latest
//! commitment root of every election.
use vstd::prelude::*;

pub mod adapter;
pub mod ballot;
pub mod cache;
pub mod chain;
pub mod db;
pub mod digest;
pub mod envelope;
pub mod frontier;
pub mod laws;
pub mod order;

verus! {

/// The application state published to the consensus engine: the block height and the
/// application hash in lowercase hexadecimal.
pub struct AppState {
    pub height: u32,
    pub hash: String,
}

} // verus!
