//! Piece commitments and sector alignment for a proof-of-replication
//! storage market.
//!
//! Given an ordered list of client pieces destined for a sector, the crate
//! computes the sector's data commitment (the root of the binary Merkle tree
//! over the padded sector) and the byte offsets at which each piece has to be
//! placed so that its own sub-tree root can be checked against that root.

pub mod alignment;
pub mod error;
pub mod fr32;
pub mod hasher;
pub mod multiples;
pub mod piece_size;
pub mod pieces;
pub mod render;
pub mod stack;
pub mod tiling;
pub mod tree;
pub mod types;
