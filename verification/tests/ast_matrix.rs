use spectral_fingerprint::{CodeGraph, CodeNode, GraphError};

#[test]
fn test_empty_graph() {
    let g = CodeGraph::new();
    assert_eq!(g.node_count, 0);
}

#[test]
fn test_add_nodes() {
    let mut g = CodeGraph::new();
    let a = g.add_node(CodeNode::new("fn", Some("main".into()), 0));
    let b = g.add_node(CodeNode::new("return", None, 1));
    assert_eq!(a, 0);
    assert_eq!(b, 1);
    assert_eq!(g.node_count, 2);
}

#[test]
fn test_add_edge() {
    let mut g = CodeGraph::new();
    let a = g.add_node(CodeNode::new("fn", None, 0));
    let b = g.add_node(CodeNode::new("block", None, 1));
    g.add_edge(a, b).unwrap();
    assert_eq!(g.get(a, b), Some(1)); // undirected
    assert_eq!(g.get(b, a), Some(1));
    assert_eq!(g.get(a, a), Some(0)); // no self-loop
}

#[test]
fn test_edge_out_of_bounds() {
    let mut g = CodeGraph::with_capacity(2);
    assert!(g.add_edge(0, 5).is_err());
}

#[test]
fn test_degree() {
    let mut g = CodeGraph::new();
    let a = g.add_node(CodeNode::new("a", None, 0));
    let b = g.add_node(CodeNode::new("b", None, 0));
    let c = g.add_node(CodeNode::new("c", None, 0));
    g.add_edge(a, b).unwrap();
    g.add_edge(a, c).unwrap();
    assert_eq!(g.degree(a), 2);
    assert_eq!(g.degree(b), 1);
}

#[test]
fn test_laplacian() {
    let mut g = CodeGraph::new();
    let a = g.add_node(CodeNode::new("a", None, 0));
    let b = g.add_node(CodeNode::new("b", None, 0));
    g.add_edge(a, b).unwrap();
    let lap = g.laplacian();
    // L = [[1, -1], [-1, 1]]
    assert_eq!(lap[0 * 2 + 0], 1);
    assert_eq!(lap[0 * 2 + 1], -1);
    assert_eq!(lap[1 * 2 + 0], -1);
    assert_eq!(lap[1 * 2 + 1], 1);
}

#[test]
fn test_from_tree() {
    let nodes = vec![
        CodeNode::new("fn", Some("foo".into()), 0),
        CodeNode::new("return", None, 1),
        CodeNode::new("if", None, 1),
    ];
    let parents = vec![None, Some(0), Some(0)];
    let g = CodeGraph::from_tree(nodes, &parents).unwrap();
    assert_eq!(g.node_count, 3);
    assert_eq!(g.get(0, 1), Some(1));
    assert_eq!(g.get(0, 2), Some(1));
    assert_eq!(g.get(1, 2), Some(0)); // siblings not connected
}

#[test]
fn test_from_tree_empty() {
    let result = CodeGraph::from_tree(vec![], &[]);
    assert!(result.is_err());
}

#[test]
fn test_from_tree_mismatched_lengths() {
    let nodes = vec![CodeNode::new("a", None, 0)];
    let parents: Vec<Option<usize>> = vec![];
    let result = CodeGraph::from_tree(nodes, &parents);
    assert!(result.is_err());
}

#[test]
fn test_with_capacity() {
    let g = CodeGraph::with_capacity(5);
    assert_eq!(g.node_count, 5);
    assert_eq!(g.adjacency.len(), 25);
    assert!(g.adjacency.iter().all(|&v| v == 0));
}

#[test]
fn ast_matrix_test_default() {
    let g = CodeGraph::default();
    assert_eq!(g.node_count, 0);
}

#[test]
fn from_tree_error_kinds_and_texts() {
    match CodeGraph::from_tree(vec![], &[]) {
        Err(e) => {
            assert!(matches!(e, GraphError::EmptyGraph));
            assert_eq!(e.to_string(), "empty graph has no nodes");
        }
        Ok(_) => panic!("an empty node list is refused"),
    }
    let nodes = vec![CodeNode::new("a", None, 0), CodeNode::new("b", None, 1)];
    match CodeGraph::from_tree(nodes, &[None]) {
        Err(e) => assert_eq!(e.to_string(), "invalid edge: nodes len (2) != parents len (1)"),
        Ok(_) => panic!("lists of different lengths are refused"),
    }
    let nodes = vec![
        CodeNode::new("a", None, 0),
        CodeNode::new("b", None, 1),
        CodeNode::new("c", None, 1),
    ];
    match CodeGraph::from_tree(nodes, &[None, Some(7), Some(12)]) {
        Err(e) => {
            assert!(matches!(e, GraphError::IndexOutOfBounds { index: 7, node_count: 3 }));
            assert_eq!(e.to_string(), "node index 7 out of bounds (node_count=3)");
        }
        Ok(_) => panic!("a parent past the last node is refused"),
    }
}

#[test]
fn add_edge_reports_larger_index() {
    let mut g = CodeGraph::with_capacity(3);
    match g.add_edge(9, 4) {
        Err(GraphError::IndexOutOfBounds { index, node_count }) => {
            assert_eq!(index, 9);
            assert_eq!(node_count, 3);
        }
        _ => panic!("out of range"),
    }
    assert!(g.adjacency.iter().all(|&v| v == 0));
}

#[test]
fn add_node_keeps_edges_and_adds_empty_row() {
    let mut g = CodeGraph::new();
    let a = g.add_node(CodeNode::new("a", None, 0));
    let b = g.add_node(CodeNode::new("b", None, 1));
    g.add_edge(a, b).unwrap();
    let c = g.add_node(CodeNode::new("c", None, 1));
    assert_eq!(c, 2);
    assert_eq!(g.adjacency.len(), 9);
    assert_eq!(g.get(0, 1), Some(1));
    assert_eq!(g.get(1, 0), Some(1));
    assert_eq!(g.get(2, 0), Some(0));
    assert_eq!(g.get(0, 2), Some(0));
    assert_eq!(g.get(2, 2), Some(0));
    assert_eq!(g.get(3, 0), None);
}

#[test]
fn laplacian_rows_sum_to_zero() {
    let g = CodeGraph::from_sexp("(fn foo (if (return 1) (return 2)))").unwrap();
    let n = g.node_count;
    let lap = g.laplacian();
    for i in 0..n {
        let sum: i64 = (0..n).map(|j| lap[i * n + j]).sum();
        assert_eq!(sum, 0);
        assert_eq!(lap[i * n + i], g.degree(i) as i64);
    }
    assert_eq!(g.degree_matrix(), vec![2, 1, 3, 2, 1, 2, 1]);
}

#[test]
fn from_sexp_reads_nested_tree() {
    let g = CodeGraph::from_sexp("(fn foo (if (return 1) (return 2)))").unwrap();
    let types: Vec<&str> = g.nodes.iter().map(|n| n.node_type.as_str()).collect();
    assert_eq!(types, vec!["fn", "foo", "if", "return", "1", "return", "2"]);
    let depths: Vec<usize> = g.nodes.iter().map(|n| n.depth).collect();
    assert_eq!(depths, vec![0, 1, 1, 2, 3, 2, 3]);
    // fn - foo, fn - if, if - return, return - 1, if - return, return - 2
    let edges = [(0, 1), (0, 2), (2, 3), (3, 4), (2, 5), (5, 6)];
    for r in 0..7 {
        for c in 0..7 {
            let joined = edges.contains(&(r, c)) || edges.contains(&(c, r));
            assert_eq!(g.get(r, c), Some(if joined { 1 } else { 0 }));
        }
    }
}

#[test]
fn from_sexp_labels_quoted_tokens() {
    let g = CodeGraph::from_sexp("(call \"name\" x)").unwrap();
    assert_eq!(g.node_count, 3);
    assert_eq!(g.nodes[1].node_type, "\"name\"");
    assert_eq!(g.nodes[1].label.as_deref(), Some("name"));
    assert_eq!(g.nodes[2].label, None);
    let g = CodeGraph::from_sexp("\"\"\"").unwrap();
    assert_eq!(g.nodes[0].label.as_deref(), Some(""));
}

#[test]
fn from_sexp_splits_on_unicode_whitespace() {
    let g = CodeGraph::from_sexp("(a\tb\u{3000}c\nd)").unwrap();
    assert_eq!(g.node_count, 4);
    assert_eq!(g.get(0, 3), Some(1));
}

#[test]
fn from_sexp_empty_text_is_refused() {
    assert!(matches!(CodeGraph::from_sexp("  ( )  "), Err(GraphError::EmptyGraph)));
    assert!(matches!(CodeGraph::from_sexp(""), Err(GraphError::EmptyGraph)));
}

#[test]
fn from_sexp_root_has_depth_zero() {
    let g = CodeGraph::from_sexp("(fn foo (return 1))").unwrap();
    let depths: Vec<usize> = g.nodes.iter().map(|n| n.depth).collect();
    assert_eq!(depths, vec![0, 1, 1, 2]);
    let g = CodeGraph::from_sexp("a (b c) d").unwrap();
    let depths: Vec<usize> = g.nodes.iter().map(|n| n.depth).collect();
    assert_eq!(depths, vec![0, 0, 1, 0]);
}
