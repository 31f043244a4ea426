//! A single-process distributed ledger: an append-only chain of blocks admitted
//! by proof of work, with a longest-valid-chain rule for reconciling peers.
//!
//! - `hasher`: the canonical structural digest of blocks and text.
//! - `pow`: the proof-of-work admission gate.
//! - `ledger`: transactions, blocks, and the ledger that owns the chain.
//! - `consensus`: replacing the chain by a longer valid one from a peer.
//! - `tree`: a binary search tree.

pub mod consensus;
pub mod error;
pub mod hasher;
pub mod ledger;
pub mod pow;
pub mod tree;
pub mod util;

pub use error::{BlockError, TransactionError};
pub use ledger::{Block, StupidBlock, StupidLedger, StupidTransaction, Transaction};
pub use tree::BinaryTree;
pub use util::{Hex, Timestamp};
