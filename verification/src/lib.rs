//! A ledger of cryptographically signed transactions arranged as a directed
//! acyclic graph.
//!
//! Transactions are created and signed by [`crypto::create_signed_transaction`],
//! admitted into the [`graph::DAG`] through quorum consensus
//! ([`consensus::Consensus`]), validated recursively against their ancestry
//! with a cycle guard ([`graph::DAG::validate_transaction`]), grouped into
//! timestamp-ordered bundles, and serialized losslessly ([`codec`]).

pub mod balances;
pub mod bundles;
pub mod codec;
pub mod consensus;
pub mod crypto;
pub mod dispatch;
pub mod errors;
pub mod graph;
pub mod pool;
pub mod token;
pub mod txn;
pub mod validation;
pub mod wallet;
