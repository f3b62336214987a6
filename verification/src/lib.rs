//! Composition core of a Lightning-style payment channel: pluggable channel
//! extensions (one constructor, ordered extenders and modifiers) cooperate to
//! build a deterministic graph of partially signed Bitcoin transactions.

pub mod btc;
pub mod channel;
pub mod extension;
pub mod graph;
pub mod history;
pub mod omap;
