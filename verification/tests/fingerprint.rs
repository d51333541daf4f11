use spectral_fingerprint::{check_fingerprintable, CodeGraph, FingerprintError};

#[test]
fn only_graphs_with_nodes_have_fingerprints() {
    let empty = CodeGraph::new();
    match check_fingerprintable(&empty) {
        Err(e) => {
            assert!(matches!(e, FingerprintError::EmptyGraph));
            assert_eq!(e.to_string(), "graph is empty, cannot compute fingerprint");
        }
        Ok(()) => panic!("an empty graph has no fingerprint"),
    }
    assert!(check_fingerprintable(&CodeGraph::with_capacity(1)).is_ok());
}
