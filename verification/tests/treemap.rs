use binary2treemap::engine::{attribute, Location};
use binary2treemap::export::{decimal_string, export, Node, NodeKind};
use binary2treemap::node::{DataNode, TreemapNode};
use binary2treemap::paths::split_path;

fn loc(file: &str, line: Option<u32>) -> Option<Location> {
    Some(Location { file: Some(file.to_string()), line })
}

/// The sum of the sizes of a node's children, if it is a directory.
fn children_size_sum(node: &TreemapNode) -> Option<u64> {
    match node {
        TreemapNode::Directory { children, .. } => {
            Some(children.iter().map(|c| c.size()).sum())
        }
        TreemapNode::File { .. } => None,
    }
}

/// The recursive sum of the values in an exported node.
fn export_sum(node: &Node) -> u64 {
    match &node.kind {
        NodeKind::Value(v) => *v,
        NodeKind::Children(children) => children.iter().map(export_sum).sum(),
    }
}

/// Check that every directory strictly below `node` holds exactly the sum of
/// its children's sizes.
fn assert_subdirs_exact(node: &TreemapNode) {
    if let TreemapNode::Directory { children, .. } = node {
        for child in children {
            if let Some(sum) = children_size_sum(child) {
                assert_eq!(child.size(), sum);
            }
            assert_subdirs_exact(child);
        }
    }
}

#[test]
fn scenario_small_binary() {
    let outputs = vec![
        loc("a/b.rs", Some(5)),
        loc("a/b.rs", Some(5)),
        loc("a/c.rs", Some(1)),
        None,
    ];
    let root = attribute("root".to_string(), &outputs);
    assert_eq!(root.size(), 3);
    assert_eq!(root.name(), "root");

    let a = root.for_path(&Some("a".to_string())).unwrap();
    assert_eq!(a.size(), 3);

    let b = root.for_path(&Some("a/b.rs".to_string())).unwrap();
    assert_eq!(b.size(), 2);
    match b {
        TreemapNode::File { line_to_bytes, .. } => {
            assert_eq!(*line_to_bytes, vec![(5u32, 2u64)]);
        }
        _ => panic!("a/b.rs should be a file"),
    }

    let c = root.for_path(&Some("a/c.rs".to_string())).unwrap();
    assert_eq!(c.size(), 1);
    match c {
        TreemapNode::File { line_to_bytes, .. } => {
            assert_eq!(*line_to_bytes, vec![(1u32, 1u64)]);
        }
        _ => panic!("a/c.rs should be a file"),
    }

    let exported = export(&root, 1);
    assert_eq!(exported.name, "root");
    match exported.kind {
        NodeKind::Children(children) => {
            assert_eq!(children.len(), 1);
            assert_eq!(children[0].name, "a");
            assert_eq!(children[0].kind, NodeKind::Value(3));
        }
        _ => panic!("the root should expand at depth 1"),
    }
}

#[test]
fn conservation_counts_resolved_outputs_only() {
    let outputs = vec![
        None,
        loc("x/y.rs", Some(1)),
        Some(Location { file: None, line: None }),
        loc("x/y.rs", None),
        None,
        loc("z.rs", Some(2)),
    ];
    let root = attribute("bin".to_string(), &outputs);
    assert_eq!(root.size(), 4);
}

#[test]
fn deeper_directories_hold_exactly_their_children() {
    let outputs = vec![
        loc("a/b/c.rs", Some(1)),
        loc("a/b/d.rs", Some(2)),
        loc("a/e.rs", None),
        loc("f.rs", Some(3)),
        Some(Location { file: None, line: Some(9) }),
        None,
    ];
    let root = attribute("bin".to_string(), &outputs);
    assert_subdirs_exact(&root);
    // The root holds one byte more than its children: the output with a
    // location but no path.
    assert_eq!(root.size(), 5);
    assert_eq!(children_size_sum(&root), Some(4));
}

#[test]
fn export_preserves_totals_at_every_depth() {
    let outputs = vec![
        loc("a/b/c.rs", Some(1)),
        loc("a/b/c.rs", Some(1)),
        loc("a/b/d.rs", Some(2)),
        loc("a/e.rs", Some(7)),
        loc("f.rs", Some(3)),
    ];
    let root = attribute("bin".to_string(), &outputs);
    for depth in 0..6u64 {
        assert_eq!(export_sum(&export(&root, depth)), 5);
    }
    let subtree = root.for_path(&Some("a/b".to_string())).unwrap();
    for depth in 0..4u64 {
        assert_eq!(export_sum(&export(subtree, depth)), 3);
    }
}

#[test]
fn query_is_idempotent() {
    let outputs = vec![loc("a/b.rs", Some(5)), loc("a/c.rs", None)];
    let root = attribute("bin".to_string(), &outputs);
    let path = Some("a/b.rs".to_string());
    let first = root.for_path(&path);
    let second = root.for_path(&path);
    assert_eq!(first, second);
    assert!(first.is_some());
    let missing_first = root.for_path(&Some("a/missing".to_string()));
    let missing_second = root.for_path(&Some("a/missing".to_string()));
    assert_eq!(missing_first, missing_second);
}

#[test]
fn equivalent_paths_address_the_same_subtree() {
    let outputs = vec![loc("a/b.rs", Some(5)), loc("a/c.rs", None)];
    let root = attribute("bin".to_string(), &outputs);
    let plain = root.for_path(&Some("a/b.rs".to_string()));
    let decorated = root.for_path(&Some("/a//b.rs/".to_string()));
    assert!(plain.is_some());
    assert_eq!(plain, decorated);
    let a_plain = root.for_path(&Some("a".to_string()));
    let a_decorated = root.for_path(&Some("//a//".to_string()));
    assert_eq!(a_plain, a_decorated);
}

#[test]
fn empty_and_absent_paths_address_the_root() {
    let outputs = vec![loc("a/b.rs", Some(5))];
    let root = attribute("bin".to_string(), &outputs);
    let by_none = root.for_path(&None).unwrap();
    assert_eq!(by_none, &root);
    let by_empty = root.for_path(&Some(String::new())).unwrap();
    assert_eq!(by_empty, &root);
    let by_slashes = root.for_path(&Some("///".to_string())).unwrap();
    assert_eq!(by_slashes, &root);
}

#[test]
fn query_misses_return_none() {
    let outputs = vec![loc("a/b.rs", Some(5))];
    let root = attribute("bin".to_string(), &outputs);
    assert!(root.for_path(&Some("nope".to_string())).is_none());
    assert!(root.for_path(&Some("a/nope".to_string())).is_none());
    // Nothing lies below a file.
    assert!(root.for_path(&Some("a/b.rs/deeper".to_string())).is_none());
}

#[test]
fn file_without_line_keeps_size_above_line_sum() {
    let outputs = vec![loc("a/b.rs", Some(5)), loc("a/b.rs", None)];
    let root = attribute("bin".to_string(), &outputs);
    let b = root.for_path(&Some("a/b.rs".to_string())).unwrap();
    assert_eq!(b.size(), 2);
    match b {
        TreemapNode::File { line_to_bytes, .. } => {
            let line_sum: u64 = line_to_bytes.iter().map(|e| e.1).sum();
            assert_eq!(line_sum, 1);
            assert!(b.size() > line_sum);
        }
        _ => panic!("a/b.rs should be a file"),
    }
}

#[test]
fn line_without_file_counts_at_the_root_alone() {
    let outputs = vec![Some(Location { file: None, line: Some(7) })];
    let root = attribute("bin".to_string(), &outputs);
    assert_eq!(root.size(), 1);
    match &root {
        TreemapNode::Directory { children, .. } => assert!(children.is_empty()),
        _ => panic!("the root should be a directory"),
    }
}

#[test]
fn path_of_empty_segments_counts_at_the_root_alone() {
    let outputs = vec![loc("///", Some(3)), loc("", None)];
    let root = attribute("bin".to_string(), &outputs);
    assert_eq!(root.size(), 2);
    match &root {
        TreemapNode::Directory { children, .. } => assert!(children.is_empty()),
        _ => panic!("the root should be a directory"),
    }
}

#[test]
fn file_promoted_to_directory_keeps_its_bytes() {
    let outputs = vec![loc("a", Some(1)), loc("a/b.rs", Some(2))];
    let root = attribute("bin".to_string(), &outputs);
    assert_eq!(root.size(), 2);
    let a = root.for_path(&Some("a".to_string())).unwrap();
    assert_eq!(a.size(), 2);
    match a {
        TreemapNode::Directory { children, .. } => {
            assert_eq!(children.len(), 2);
            // The synthetic leaf with the empty name keeps the byte and the
            // line data that "a" collected while it was a file.
            let synthetic = children.iter().find(|c| c.name().is_empty()).unwrap();
            assert_eq!(synthetic.size(), 1);
            match synthetic {
                TreemapNode::File { line_to_bytes, .. } => {
                    assert_eq!(*line_to_bytes, vec![(1u32, 1u64)]);
                }
                _ => panic!("the synthetic leaf should be a file"),
            }
        }
        _ => panic!("a should have been promoted to a directory"),
    }
    let b = root.for_path(&Some("a/b.rs".to_string())).unwrap();
    assert_eq!(b.size(), 1);
    assert_subdirs_exact(&root);
}

#[test]
fn byte_ending_on_a_directory_lands_in_the_synthetic_leaf() {
    let outputs = vec![loc("a/b.rs", Some(2)), loc("a", Some(1))];
    let root = attribute("bin".to_string(), &outputs);
    let a = root.for_path(&Some("a".to_string())).unwrap();
    assert_eq!(a.size(), 2);
    match a {
        TreemapNode::Directory { children, .. } => {
            let synthetic = children.iter().find(|c| c.name().is_empty()).unwrap();
            assert_eq!(synthetic.size(), 1);
        }
        _ => panic!("a should be a directory"),
    }
    assert_subdirs_exact(&root);
}

#[test]
fn export_at_depth_zero_collapses_to_one_leaf() {
    let outputs = vec![loc("a/b.rs", Some(5)), loc("a/c.rs", None)];
    let root = attribute("bin".to_string(), &outputs);
    let exported = export(&root, 0);
    assert_eq!(exported.name, "bin");
    assert_eq!(exported.kind, NodeKind::Value(2));
}

#[test]
fn export_expands_files_into_line_leaves() {
    let outputs = vec![loc("a/b.rs", Some(5)), loc("a/b.rs", Some(5)), loc("a/b.rs", Some(12))];
    let root = attribute("bin".to_string(), &outputs);
    let b = root.for_path(&Some("a/b.rs".to_string())).unwrap();
    let exported = export(b, 1);
    assert_eq!(exported.name, "b.rs");
    match exported.kind {
        NodeKind::Children(leaves) => {
            assert_eq!(leaves.len(), 2);
            assert_eq!(leaves[0].name, "5");
            assert_eq!(leaves[0].kind, NodeKind::Value(2));
            assert_eq!(leaves[1].name, "12");
            assert_eq!(leaves[1].kind, NodeKind::Value(1));
        }
        _ => panic!("a file with line data should expand at depth 1"),
    }
    // One level short of the lines, the file collapses to its size.
    let exported_shallow = export(&root, 2);
    let a_child = match exported_shallow.kind {
        NodeKind::Children(children) => children.into_iter().next().unwrap(),
        _ => panic!("the root should expand"),
    };
    match a_child.kind {
        NodeKind::Children(files) => {
            assert_eq!(files[0].name, "b.rs");
            assert_eq!(files[0].kind, NodeKind::Value(3));
        }
        _ => panic!("a should expand at depth 2"),
    }
}

#[test]
fn decimal_rendering_is_exact() {
    assert_eq!(decimal_string(0), "0");
    assert_eq!(decimal_string(7), "7");
    assert_eq!(decimal_string(10), "10");
    assert_eq!(decimal_string(305), "305");
    assert_eq!(decimal_string(u32::MAX), "4294967295");
}

#[test]
fn increment_size_adds_one_byte() {
    let mut node = TreemapNode::File {
        name: "a.rs".to_string(),
        size: 41,
        line_to_bytes: Vec::new(),
    };
    node.increment_size();
    assert_eq!(node.size(), 42);
    let mut root = TreemapNode::Directory {
        name: "bin".to_string(),
        size: 0,
        children: Vec::new(),
    };
    root.increment_size();
    assert_eq!(root.size(), 1);
}

#[test]
fn record_builds_the_tree_one_output_at_a_time() {
    let root = TreemapNode::Directory {
        name: "bin".to_string(),
        size: 0,
        children: Vec::new(),
    };
    let root = root.record(&None);
    assert_eq!(root.size(), 0);
    let root = root.record(&loc("a/b.rs", Some(5)));
    let root = root.record(&loc("a/b.rs", None));
    assert_eq!(root.size(), 2);
    let b = root.for_path(&Some("a/b.rs".to_string())).unwrap();
    assert_eq!(b.size(), 2);
}

#[test]
fn split_path_drops_empty_segments() {
    assert_eq!(split_path("a/b.rs"), vec!["a", "b.rs"]);
    assert_eq!(split_path("/a//b.rs/"), vec!["a", "b.rs"]);
    assert_eq!(split_path(""), Vec::<String>::new());
    assert_eq!(split_path("///"), Vec::<String>::new());
    assert_eq!(split_path("lone"), vec!["lone"]);
}

#[test]
fn data_node_distributes_bytes_among_children() {
    let leaf_a = DataNode { size: 3, sub_components: Vec::new() };
    let leaf_b = DataNode { size: 4, sub_components: Vec::new() };
    let parent = DataNode {
        size: 7,
        sub_components: vec![("a".to_string(), leaf_a), ("b".to_string(), leaf_b)],
    };
    let sum: u64 = parent.sub_components.iter().map(|(_, c)| c.size).sum();
    assert_eq!(parent.size, sum);
}
