//! Reed-Solomon erasure coding over GF(2^8), with machine-checked contracts.
//!
//! A [`engine::CodingEngine`] is a code for a fixed number of data and
//! parity shards. It computes the parity shards of a shard set
//! (`encode`), tells whether a shard set carries the parity of its data
//! (`verify`), and restores the shards that a set has lost
//! (`reconstruct`), as long as no more are lost than there are parity
//! shards.
//!
//! The contracts are stated over sequences of bytes:
//! - [`galois`] defines the field, [`linalg`] vectors and matrices over it;
//! - [`coding_matrix`] defines the matrix of a code and proves that any
//!   choice of as many rows as there are data shards is invertible;
//! - [`code`] says what encoding and reconstruction compute;
//! - [`laws`] proves that an encoded set verifies, that a changed byte
//!   is detected, and that lost shards come back as they were.

pub mod bench;
pub mod code;
pub mod code_proofs;
pub mod coding_matrix;
pub mod elimination;
pub mod elimination_proofs;
pub mod engine;
pub mod error;
pub mod galois;
pub mod galois_proofs;
pub mod laws;
pub mod linalg;
pub mod linalg_proofs;
pub mod matrix;
pub mod shards;
pub mod vandermonde;
pub mod workload;
