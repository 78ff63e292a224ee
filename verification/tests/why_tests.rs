use nix_tree::path_stats::why_depends;
use nix_tree::path_stats::Treeish;
use nix_tree::store_path::{StorePath, StorePathGraph};

fn node(path: &str, refs: &[&str]) -> StorePath {
    StorePath {
        path: path.to_string(),
        hash: path.to_string(),
        name: path.to_string(),
        nar_size: 1,
        closure_size: None,
        references: refs.iter().map(|r| r.to_string()).collect(),
        signatures: Vec::new(),
    }
}

#[test]
fn absent_target_yields_no_paths() {
    let mut g = StorePathGraph::new();
    g.add_path(node("root", &[]));
    g.roots = vec!["root".to_string()];
    assert_eq!(why_depends(&g, "missing"), Vec::<Vec<String>>::new());
}

#[test]
fn root_itself_yields_one_single_element_path() {
    let mut g = StorePathGraph::new();
    g.add_path(node("root", &["dep"]));
    g.add_path(node("dep", &[]));
    g.roots = vec!["root".to_string()];
    let paths = why_depends(&g, "root");
    assert_eq!(paths, vec![vec!["root".to_string()]]);
}

#[test]
fn all_paths_in_document_order() {
    // root1 -> a -> t, root1 -> b -> t, root2 -> t
    let mut g = StorePathGraph::new();
    g.add_path(node("root1", &["a", "b"]));
    g.add_path(node("a", &["t"]));
    g.add_path(node("b", &["t"]));
    g.add_path(node("root2", &["t"]));
    g.add_path(node("t", &[]));
    g.roots = vec!["root1".to_string(), "root2".to_string()];

    let expect = vec![
        vec!["root1".to_string(), "a".to_string(), "t".to_string()],
        vec!["root1".to_string(), "b".to_string(), "t".to_string()],
        vec!["root2".to_string(), "t".to_string()],
    ];
    let got = why_depends(&g, "t");
    assert_eq!(got, expect);
    // Deterministic: the same query yields the same answer.
    assert_eq!(why_depends(&g, "t"), expect);
}

#[test]
fn cyclic_graphs_terminate() {
    let mut g = StorePathGraph::new();
    g.add_path(node("root", &["a"]));
    g.add_path(node("a", &["b"]));
    g.add_path(node("b", &["a", "t"]));
    g.add_path(node("t", &[]));
    g.roots = vec!["root".to_string()];
    let paths = why_depends(&g, "t");
    assert_eq!(
        paths,
        vec![vec![
            "root".to_string(),
            "a".to_string(),
            "b".to_string(),
            "t".to_string(),
        ]]
    );
}

/// Ten stacked diamonds give 1024 distinct paths; the result is capped at
/// exactly 1000.
#[test]
fn truncates_at_one_thousand_paths() {
    let mut g = StorePathGraph::new();
    let levels = 10;
    for i in 0..levels {
        let hub = format!("hub{i}");
        let left = format!("left{i}");
        let right = format!("right{i}");
        let next = format!("hub{}", i + 1);
        g.add_path(node(&hub, &[&left, &right]));
        g.add_path(node(&left, &[&next]));
        g.add_path(node(&right, &[&next]));
    }
    let last = format!("hub{levels}");
    g.add_path(node(&last, &[]));
    g.roots = vec!["hub0".to_string()];

    let paths = why_depends(&g, &last);
    assert_eq!(paths.len(), 1000);
    for p in &paths {
        assert_eq!(p.first().unwrap(), "hub0");
        assert_eq!(p.last().unwrap(), &last);
    }
}

#[test]
fn treeish_paths_enumerate_all_chains_in_order() {
    let leaf1 = Treeish::new("t".to_string());
    let leaf2 = Treeish::new("t".to_string());
    let mid = Treeish::with_children("m".to_string(), vec![leaf1]);
    let root = Treeish::with_children("r".to_string(), vec![mid, leaf2]);
    assert_eq!(
        root.to_paths(),
        vec![
            vec!["r".to_string(), "m".to_string(), "t".to_string()],
            vec!["r".to_string(), "t".to_string()],
        ]
    );
}

#[test]
fn a_root_target_always_has_a_path_even_among_other_roots() {
    let mut g = StorePathGraph::new();
    g.add_path(node("r1", &["x"]));
    g.add_path(node("x", &[]));
    g.add_path(node("t", &[]));
    g.roots = vec!["r1".to_string(), "t".to_string()];
    let paths = why_depends(&g, "t");
    assert_eq!(paths, vec![vec!["t".to_string()]]);
}

/// A path reachable only through a node that an earlier traversal had to
/// abandon because of a cycle: the search from the second root must still
/// find it.
#[test]
fn paths_survive_cycles_explored_from_an_earlier_root() {
    let mut g = StorePathGraph::new();
    g.add_path(node("a", &["x", "t"]));
    g.add_path(node("x", &["a"]));
    g.add_path(node("t", &[]));
    g.roots = vec!["a".to_string(), "x".to_string()];
    let paths = why_depends(&g, "t");
    assert_eq!(
        paths,
        vec![
            vec!["a".to_string(), "t".to_string()],
            vec!["x".to_string(), "a".to_string(), "t".to_string()],
        ]
    );
}
