//! Loom: an accounts ledger driven by transaction messages, with open-addressed
//! hash tables for accounts and gossip subscribers, a little-endian wire format
//! for messages, and a key wallet.
pub mod result;
pub mod hasht;
pub mod codec;
pub mod data;
pub mod state;
pub mod gossip;
pub mod wallet;
pub mod net;
pub mod loomd;
pub mod client;
