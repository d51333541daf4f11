use spectral_fingerprint::{check_cluster_request, group_members, SimilarityError};

#[test]
fn cluster_request_errors() {
    assert!(matches!(check_cluster_request(0, 2), Err(SimilarityError::Empty)));
    match check_cluster_request(1, 0) {
        Err(e @ SimilarityError::InvalidClusters { .. }) => {
            assert_eq!(e.to_string(), "invalid number of clusters: k must be > 0");
        }
        _ => panic!("zero clusters are refused"),
    }
    match check_cluster_request(1, 5) {
        Err(SimilarityError::InvalidClusters { message }) => {
            assert_eq!(message, "k (5) > number of fingerprints (1)");
        }
        _ => panic!("more clusters than fingerprints are refused"),
    }
    assert!(check_cluster_request(6, 2).is_ok());
    assert!(check_cluster_request(3, 3).is_ok());
}

#[test]
fn similarity_error_texts() {
    assert_eq!(SimilarityError::Empty.to_string(), "index is empty");
    let e = SimilarityError::KTooLarge { requested: 12, available: 4 };
    assert_eq!(e.to_string(), "k (12) exceeds available fingerprints (4)");
}

#[test]
fn group_members_keeps_all_k_clusters() {
    let groups = group_members(&[2, 0, 2, 0, 2], 4);
    assert_eq!(groups, vec![vec![1, 3], vec![], vec![0, 2, 4], vec![]]);
    assert_eq!(group_members(&[], 3), vec![Vec::<usize>::new(), vec![], vec![]]);
    // Two identical points both assigned to cluster 0 still give two clusters.
    assert_eq!(group_members(&[0, 0], 2), vec![vec![0, 1], vec![]]);
    let groups = group_members(&[0, 0, 0, 1, 1, 1], 2);
    assert_eq!(groups, vec![vec![0, 1, 2], vec![3, 4, 5]]);
}
