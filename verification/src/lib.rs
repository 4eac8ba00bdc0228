//! Enumeration of structure-preserving vertex maps (graph homomorphisms)
//! between finite undirected graphs with a self-loop at every vertex.
//!
//! The crate provides a compact immutable graph store ([`graphs::CSRGraph`]),
//! hypercube graphs ([`graphs::cube::CubeGraph`]), a mixed-radix candidate
//! generator, an incrementally validated homomorphism builder in two
//! interchangeable encodings, and a combination engine that assembles
//! n-cube homomorphisms from (n-1)-cube homomorphisms while tracking
//! per-coordinate degeneracy.

pub mod graph_maps;
pub mod graphs;
