//! A verified crawler over the directed graph of on-chain transfer
//! relationships.
//!
//! Starting from a root address the crawler discovers counterparties, stops
//! at already-labelled or already-visited nodes, and emits a stream of node
//! and edge observations up to a bounded depth and fan-out. The crawl engine
//! and the label-resolution cache are verified; the HTTP providers and the
//! persistent store are outside collaborators that a thin driver talks to,
//! feeding plain values in and out of the verified core.

pub mod addr;
pub mod cache;
pub mod crawler;
pub mod edges;
pub mod engine;
pub mod etherscan;
pub mod events;
pub mod hex;
pub mod labelmap;
pub mod metadock;
pub mod parse;
pub mod settings;
pub mod visited;
