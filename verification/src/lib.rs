//! A peer-to-peer mined ledger: proof-of-work blocks, signed transfers,
//! fork storage and deterministic longest-chain selection.

pub mod block;
pub mod body;
pub mod chain;
pub mod config;
pub mod http;
pub mod consensus;
pub mod crypto;
pub mod events;
pub mod indexed;
pub mod integrity;
pub mod laws;
pub mod json;
pub mod ledger;
pub mod mining;
pub mod models;
pub mod peers;
pub mod replay;
pub mod scan;
pub mod sorting;
pub mod store;
pub mod sync;
pub mod text;
pub mod transaction;
pub mod wallet;
