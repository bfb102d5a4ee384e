//! Client-side authority aggregator for a Byzantine-fault-tolerant committee.
//!
//! The library models the data exchanged with a committee of validators as
//! plain values and verifies the protocol logic that decides, response by
//! response, when a quorum has been reached, when an operation has failed,
//! and how a lagging validator is brought forward.

pub mod aggregator;
pub mod base_types;
pub mod certs;
pub mod checkpoints;
pub mod committee;
pub mod error;
pub mod hedged;
pub mod messages;
pub mod metrics;
pub mod objects;
pub mod process_cert;
pub mod process_tx;
pub mod safe_client;
pub mod source_verifier;
pub mod sync;
mod rng;
