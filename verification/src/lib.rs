//! A peer-to-peer transaction gossip library: nodes exchange short-lived
//! transaction records over a topic-scoped broadcast channel and keep a
//! locally replicated, append-only table of every transaction seen.
//!
//! The library holds the protocol's logic: the wire envelope codec, the
//! content hash, the replicated table and its ingestion rules, and the
//! node's event dispatch. Transport, discovery and the external ledger
//! client live outside it.

pub mod b64;
pub mod hex;
pub mod laws;
pub mod message;
pub mod node;
pub mod num;
pub mod table;

pub use hex::hex_digest;
pub use message::{decode_message, encode_message, TransactionMessage};
pub use node::{Node, NodeEvent, NodeStatus, PreparedBroadcast};
pub use table::TxTable;
