use spectral_fingerprint::{CodeGraph, CodeNode, DiffEntry, StructuralDiff};

fn make_graph_1() -> CodeGraph {
    let nodes = vec![
        CodeNode::new("fn", Some("foo".into()), 0),
        CodeNode::new("if", None, 1),
        CodeNode::new("return", None, 2),
    ];
    let parents = vec![None, Some(0), Some(1)];
    CodeGraph::from_tree(nodes, &parents).unwrap()
}

fn make_graph_2() -> CodeGraph {
    // Same structure, different function name
    let nodes = vec![
        CodeNode::new("fn", Some("bar".into()), 0),
        CodeNode::new("if", None, 1),
        CodeNode::new("return", None, 2),
    ];
    let parents = vec![None, Some(0), Some(1)];
    CodeGraph::from_tree(nodes, &parents).unwrap()
}

fn make_graph_3() -> CodeGraph {
    // Different structure
    let nodes = vec![
        CodeNode::new("fn", Some("baz".into()), 0),
        CodeNode::new("for", None, 1),
        CodeNode::new("assign", None, 2),
        CodeNode::new("return", None, 2),
    ];
    let parents = vec![None, Some(0), Some(1), Some(1)];
    CodeGraph::from_tree(nodes, &parents).unwrap()
}

#[test]
fn test_identical_graphs() {
    let g1 = make_graph_1();
    let g2 = make_graph_1();
    let diff = StructuralDiff::diff(&g1, &g2);
    assert_eq!(diff.added_count(), 0);
    assert_eq!(diff.removed_count(), 0);
    assert_eq!(diff.unchanged_count(), 3);
}

#[test]
fn test_similar_graphs() {
    let g1 = make_graph_1();
    let g2 = make_graph_2();
    let diff = StructuralDiff::diff(&g1, &g2);
    // First node has different label, but same type → unchanged.
    assert_eq!(diff.unchanged_count(), 3);
}

#[test]
fn test_different_graphs() {
    let g1 = make_graph_1();
    let g3 = make_graph_3();
    let diff = StructuralDiff::diff(&g1, &g3);
    assert!(diff.added_count() > 0);
}

#[test]
fn test_empty_to_nonempty() {
    let empty = CodeGraph::new();
    let g = make_graph_1();
    let diff = StructuralDiff::diff(&empty, &g);
    assert_eq!(diff.old_node_count, 0);
    assert_eq!(diff.new_node_count, 3);
    assert_eq!(diff.added_count(), 3);
}

#[test]
fn test_nonempty_to_empty() {
    let g = make_graph_1();
    let empty = CodeGraph::new();
    let diff = StructuralDiff::diff(&g, &empty);
    assert_eq!(diff.removed_count(), 3);
    assert_eq!(diff.added_count(), 0);
}

#[test]
fn diff_entries_in_position_order() {
    let diff = StructuralDiff::diff(&make_graph_1(), &make_graph_3());
    assert_eq!(diff.entries.len(), 6);
    assert!(matches!(&diff.entries[0], DiffEntry::Unchanged { index: 0, node_type } if node_type == "fn"));
    assert!(matches!(&diff.entries[1], DiffEntry::Removed { index: 1, node_type, label: None } if node_type == "if"));
    assert!(matches!(&diff.entries[2], DiffEntry::Added { index: 1, node_type, label: None } if node_type == "for"));
    assert!(matches!(&diff.entries[3], DiffEntry::Removed { index: 2, node_type, .. } if node_type == "return"));
    assert!(matches!(&diff.entries[4], DiffEntry::Added { index: 2, node_type, .. } if node_type == "assign"));
    assert!(matches!(&diff.entries[5], DiffEntry::Added { index: 3, node_type, .. } if node_type == "return"));
    assert_eq!(diff.added_count() + diff.unchanged_count(), 4);
    assert_eq!(diff.removed_count() + diff.unchanged_count(), 3);
}

#[test]
fn diff_entry_lines() {
    let diff = StructuralDiff::diff(&CodeGraph::new(), &make_graph_1());
    assert_eq!(diff.entries[0].line(), "+ [  0] fn (foo)");
    assert_eq!(diff.entries[1].line(), "+ [  1] if");
    let diff = StructuralDiff::diff(&make_graph_1(), &make_graph_1());
    assert_eq!(diff.entries[2].line(), "  [  2] return");
    let removed = DiffEntry::Removed { index: 1234, node_type: "x".to_string(), label: Some("y".to_string()) };
    assert_eq!(removed.line(), "- [1234] x (y)");
}

#[test]
fn diff_header_lines() {
    let diff = StructuralDiff::diff(&make_graph_1(), &make_graph_3());
    assert_eq!(diff.title_line(), "Structural Diff: 3 → 4 nodes");
    assert_eq!(diff.counts_line(), "  Added: 3  Removed: 2  Unchanged: 1");
}

#[test]
fn diff_the_other_way_swaps_added_and_removed() {
    let pairs = [(make_graph_1(), make_graph_3()), (CodeGraph::new(), make_graph_2()), (make_graph_1(), make_graph_2())];
    for (a, b) in pairs.iter() {
        let d1 = StructuralDiff::diff(a, b);
        let d2 = StructuralDiff::diff(b, a);
        assert_eq!(d2.added_count(), d1.removed_count());
        assert_eq!(d2.removed_count(), d1.added_count());
        assert_eq!(d2.unchanged_count(), d1.unchanged_count());
    }
}
