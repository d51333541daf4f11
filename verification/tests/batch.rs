use spectral_fingerprint::{count_clusters, parse_functions, unique_count, BatchError, FunctionEntry};

fn pair(a: &str, b: &str) -> (String, String) {
    (a.to_string(), b.to_string())
}

#[test]
fn test_cluster_count_no_dupes() {
    let count = count_clusters(&[]);
    assert_eq!(count, 0);
}

#[test]
fn test_cluster_count_one_cluster() {
    let dupes = vec![pair("a", "b")];
    let count = count_clusters(&dupes);
    assert_eq!(count, 1);
}

#[test]
fn test_cluster_count_two_clusters() {
    let dupes = vec![pair("a", "b"), pair("c", "d")];
    let count = count_clusters(&dupes);
    assert_eq!(count, 2);
}

#[test]
fn cluster_count_joins_chains() {
    let dupes = vec![pair("a", "b"), pair("c", "d"), pair("b", "c"), pair("e", "e")];
    assert_eq!(count_clusters(&dupes), 2);
    let dupes = vec![pair("x", "y"), pair("y", "z"), pair("z", "x"), pair("p", "q")];
    assert_eq!(count_clusters(&dupes), 2);
    let dupes = vec![pair("a", "b"), pair("c", "d"), pair("e", "f"), pair("f", "a")];
    assert_eq!(count_clusters(&dupes), 2);
}

fn entry(name: &str, file: &str, sexp: &str) -> FunctionEntry {
    FunctionEntry { name: name.to_string(), file: file.to_string(), sexp: sexp.to_string() }
}

#[test]
fn parse_functions_reads_every_text() {
    let fs = vec![
        entry("foo", "a.rs", "(fn foo (if (return 1) (return 2)))"),
        entry("bar", "b.rs", "(for (assign x))"),
    ];
    let graphs = parse_functions(&fs).unwrap();
    assert_eq!(graphs.len(), 2);
    assert_eq!(graphs[0].node_count, 7);
    assert_eq!(graphs[1].node_count, 3);
}

#[test]
fn parse_functions_names_first_failure() {
    let fs = vec![
        entry("foo", "a.rs", "(fn foo)"),
        entry("empty", "b.rs", "( )"),
        entry("blank", "c.rs", ""),
    ];
    match parse_functions(&fs) {
        Err(BatchError::ParseFailed { name, error }) => {
            assert_eq!(name, "empty");
            assert_eq!(error, "empty graph has no nodes");
        }
        _ => panic!("the second text holds no node"),
    }
}

#[test]
fn batch_error_texts() {
    let e = BatchError::ParseFailed { name: "foo".to_string(), error: "empty graph has no nodes".to_string() };
    assert_eq!(e.to_string(), "failed to parse sexp for function 'foo': empty graph has no nodes");
    assert_eq!(BatchError::NoFunctions.to_string(), "no functions registered");
}

#[test]
fn unique_count_removes_at_most_half() {
    assert_eq!(unique_count(2, 1), 1);
    assert_eq!(unique_count(5, 1), 4);
    assert_eq!(unique_count(5, 7), 3);
    assert_eq!(unique_count(1, 0), 1);
    assert_eq!(unique_count(0, 3), 0);
}
