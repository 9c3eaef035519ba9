//! Range-partitioned Merkle trees for detecting inconsistency between two
//! replicas of a keyed dataset without transferring the data itself.
//!
//! A tree is built over a closed key range by bisecting it at the midpoint
//! down to unit ranges; each unit range becomes a leaf holding the digest of
//! the rows mapped to it, and every inner node's digest is derived from its
//! children. Two such trees are compared by
//! [`merkle_tree::MerkleTree::difference`], which walks both trees and
//! isolates the minimal set of sub-ranges whose content diverges — the
//! information an anti-entropy repair process needs.
//!
//! Shape is a pure function of the range and the partition rule, so two
//! trees built independently over the same range are structurally comparable
//! whatever rows each side held. Digest equality stands for content equality
//! only up to the hash primitive's collision resistance; the properties
//! proved here spell that assumption out where they need it.

pub mod difference;
pub mod digestible;
pub mod error;
pub mod merkle_tree;
pub mod node;
pub mod partitioner;
pub mod row_hash;
pub mod token;
