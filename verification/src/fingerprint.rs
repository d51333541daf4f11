//! The integer side of fingerprinting: which graphs have a fingerprint.

use vstd::prelude::*;
use crate::ast_matrix::CodeGraph;

verus! {

/// Errors during fingerprint computation.
#[derive(Debug, Clone)]
pub enum FingerprintError {
    /// A graph with no nodes has no eigenvalues.
    EmptyGraph,
}

impl FingerprintError {
    /// The text that describes the error.
    pub open spec fn text(self) -> Seq<char> {
        match self {
            FingerprintError::EmptyGraph => "graph is empty, cannot compute fingerprint"@,
        }
    }

    /// Renders the error as text.
    pub fn to_string(&self) -> (r: String)
        ensures
            r@ == self.text(),
    {
        match self {
            FingerprintError::EmptyGraph => String::from_str(
                "graph is empty, cannot compute fingerprint",
            ),
        }
    }
}

/// A graph has a fingerprint exactly when it has a node.
pub fn check_fingerprintable(graph: &CodeGraph) -> (r: Result<(), FingerprintError>)
    ensures
        graph.node_count == 0 ==> r == Err::<(), FingerprintError>(FingerprintError::EmptyGraph),
        graph.node_count > 0 ==> r is Ok,
{
    if graph.node_count == 0 {
        return Err(FingerprintError::EmptyGraph);
    }
    Ok(())
}

} // verus!
