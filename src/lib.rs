//! A pairwise Markov random field over sequence positions: each position of
//! each sequence is a node, linked to the next position of the same sequence
//! by a directed edge that carries a potential.

pub mod laws;
pub mod mrf;

pub use mrf::{build_mrf_from_sequences, build_mrf_with_policy, Mrf, MrfEdge, Node};
