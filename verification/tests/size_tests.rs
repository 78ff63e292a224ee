use nix_tree::path_stats::{calculate_added_size_for_path, calculate_closure, calculate_stats};
use nix_tree::store_path::{StorePath, StorePathGraph};

fn node(path: &str, size: u64, refs: &[&str]) -> StorePath {
    StorePath {
        path: path.to_string(),
        hash: path.to_string(),
        name: path.to_string(),
        nar_size: size,
        closure_size: None,
        references: refs.iter().map(|r| r.to_string()).collect(),
        signatures: Vec::new(),
    }
}

/// A diamond: top reaches bottom through both arms, but bottom's bytes are
/// counted once.
#[test]
fn closure_counts_each_artifact_once() {
    let mut g = StorePathGraph::new();
    g.add_path(node("top", 1, &["left", "right"]));
    g.add_path(node("left", 10, &["bottom"]));
    g.add_path(node("right", 100, &["bottom"]));
    g.add_path(node("bottom", 1000, &[]));
    g.roots = vec!["top".to_string()];

    let closure = calculate_closure(&g, "top");
    assert_eq!(closure.len(), 4);
    for id in ["top", "left", "right", "bottom"] {
        assert!(closure.contains(&id.to_string()));
    }

    let stats = calculate_stats(&g);
    let top = stats.get("top").unwrap();
    assert_eq!(top.closure_size, 1111);
    assert_eq!(top.added_size, None);
}

#[test]
fn closure_tolerates_cycles_and_dangling_references() {
    let mut g = StorePathGraph::new();
    g.add_path(node("a", 1, &["b", "missing"]));
    g.add_path(node("b", 2, &["a", "b"]));
    g.roots = vec!["a".to_string()];

    let closure = calculate_closure(&g, "a");
    assert_eq!(closure.len(), 2);
    let stats = calculate_stats(&g);
    assert_eq!(stats.get("a").unwrap().closure_size, 3);
    assert_eq!(stats.get("b").unwrap().closure_size, 3);
}

#[test]
fn precomputed_closure_size_is_kept() {
    let mut g = StorePathGraph::new();
    let mut n = node("a", 1, &[]);
    n.closure_size = Some(42);
    g.add_path(n);
    let stats = calculate_stats(&g);
    assert_eq!(stats.get("a").unwrap().closure_size, 42);
}

#[test]
fn stats_record_immediate_parents() {
    let mut g = StorePathGraph::new();
    g.add_path(node("p1", 1, &["c"]));
    g.add_path(node("p2", 1, &["c"]));
    g.add_path(node("c", 1, &[]));
    let stats = calculate_stats(&g);
    let c = stats.get("c").unwrap();
    assert_eq!(c.immediate_parents, vec!["p1".to_string(), "p2".to_string()]);
    assert!(stats.get("absent").is_none());
}

/// The chain root -> a -> b: the marginal size of `a` under the root is its
/// own size plus everything reachable only through it.
#[test]
fn added_size_of_a_chain_link() {
    let mut g = StorePathGraph::new();
    g.add_path(node("root", 10, &["a"]));
    g.add_path(node("a", 20, &["b"]));
    g.add_path(node("b", 30, &[]));
    g.roots = vec!["root".to_string()];

    let ctx = vec!["root".to_string()];
    assert_eq!(calculate_added_size_for_path("a", &g, &ctx), 50);
    assert_eq!(calculate_added_size_for_path("b", &g, &ctx), 30);
    assert_eq!(calculate_added_size_for_path("root", &g, &ctx), 60);
}

/// Sharing is credited correctly: a dependency still needed elsewhere in the
/// context adds no marginal cost to the sibling that also uses it.
#[test]
fn added_size_credits_sharing() {
    let mut g = StorePathGraph::new();
    g.add_path(node("root", 1000, &["dep1", "dep2", "shared"]));
    g.add_path(node("dep1", 500, &["shared", "dep1-only"]));
    g.add_path(node("dep2", 300, &["shared", "dep2-only"]));
    g.add_path(node("shared", 200, &[]));
    g.add_path(node("dep1-only", 100, &[]));
    g.add_path(node("dep2-only", 150, &[]));
    g.roots = vec!["root".to_string()];

    let ctx = vec!["root".to_string()];
    assert_eq!(calculate_added_size_for_path("dep1", &g, &ctx), 600);
    assert_eq!(calculate_added_size_for_path("dep2", &g, &ctx), 450);
    assert_eq!(calculate_added_size_for_path("shared", &g, &ctx), 200);
}

/// Marginal size depends on the context: judged from the whole root, dep1's
/// shared dependency costs it nothing; judged from dep1 alone, it does.
#[test]
fn added_size_is_context_sensitive() {
    let mut g = StorePathGraph::new();
    g.add_path(node("root", 1000, &["dep1", "dep2", "shared"]));
    g.add_path(node("dep1", 500, &["shared", "dep1-only"]));
    g.add_path(node("dep2", 300, &["shared", "dep2-only"]));
    g.add_path(node("shared", 200, &[]));
    g.add_path(node("dep1-only", 100, &[]));
    g.add_path(node("dep2-only", 150, &[]));
    g.roots = vec!["root".to_string()];

    let whole = vec!["root".to_string()];
    assert_eq!(calculate_added_size_for_path("dep1", &g, &whole), 600);
    let narrow = vec!["dep1".to_string()];
    assert_eq!(calculate_added_size_for_path("dep1", &g, &narrow), 800);
}
