//! Structural code similarity on abstract syntax trees.
//!
//! A function's syntax tree becomes a [`CodeGraph`]: its nodes and the
//! undirected adjacency matrix of its parent-child edges. Graphs are read
//! from simplified S-expressions, compared node by node in a
//! [`StructuralDiff`], filed in locality-sensitive bucket tables
//! ([`SpectralHash`]), and duplicate pairs are grouped into clusters.

pub mod ast_matrix;
pub mod batch;
pub mod diff;
pub mod fingerprint;
pub mod hash;
pub mod sexp;
pub mod similarity;
pub mod text;

pub use ast_matrix::{CodeGraph, CodeNode, GraphError};
pub use batch::{BatchError, FunctionEntry, count_clusters, parse_functions, unique_count};
pub use diff::{DiffEntry, StructuralDiff};
pub use fingerprint::{FingerprintError, check_fingerprintable};
pub use similarity::{SimilarityError, check_cluster_request, group_members};
pub use hash::{BucketKey, HASH_BITS, LcgRng, LshCandidate, NUM_TABLES, SpectralHash};
