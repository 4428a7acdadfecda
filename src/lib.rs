//! Text fingerprints for an embedding service client: a deterministic
//! synthesizer of 1024-dimensional feature-hash vectors, and a scanner that
//! locates embedding arrays and error messages in a service response.
use vstd::prelude::*;

pub mod client;
pub mod embedding;
pub mod scan;

verus! {

/// How many dimensions an embedding vector has.
pub const DIM: usize = 1024;

} // verus!
