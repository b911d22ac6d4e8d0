//! Transaction tracking for a Tx3-described protocol: reading the protocol's
//! transactions and parties, matching chain transactions against them,
//! planning what gets stored about a match, and assembling stored rows back
//! into the answers the dashboard serves.

pub mod api;
pub mod blockfrost;
pub mod bridge;
pub mod config;
pub mod db;
pub mod registry;
pub mod store;
pub mod template;
pub mod utxorpc;
