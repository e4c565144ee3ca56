//! A verified trie-style storage engine.
//!
//! The crate maintains blockchain-style world state as a content-addressed
//! key/value trie.  A caller loads an initial key/value set, computes the
//! state root that a batch of changes *would* produce (a pure operation),
//! and commits the resulting transaction atomically.  Child tries are
//! independently rooted sub-tries whose roots are embedded in the main trie
//! under a reserved key prefix.
//!
//! The crate also holds the balances ledger contract and the side-VM
//! service's decision rules, whose pure logic is verified here while their
//! host plumbing stays outside.

pub mod bytes;
pub mod kvmap;
pub mod codec;
pub mod hasher;
pub mod changes;
pub mod backend;
pub mod engine;
pub mod laws;
pub mod balances;
pub mod service;
