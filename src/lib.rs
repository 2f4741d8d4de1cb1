//! A Cartesian Merkle tree: a treap whose shape is fixed by key-derived
//! priorities, with a Merkle commitment at every node, and membership and
//! non-membership proofs checked against the root commitment alone.
use vstd::prelude::*;

pub mod bytes;
pub mod concurrent;
pub mod hashing;
pub mod laws;
pub mod node;
pub mod membership;
pub mod tree;

verus! {

/// A key: a byte string of any length, ordered lexicographically.
pub type Key = Vec<u8>;

/// A node priority, derived from the key.
pub type Priority = i128;

/// A commitment hash; the empty byte string stands for a missing subtree.
pub type Hash = Vec<u8>;

/// The value stored under a key.
pub type Value = Vec<u8>;

} // verus!
