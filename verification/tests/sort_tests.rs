use nix_tree::path_stats::{calculate_stats, sort_paths, SortOrder};
use nix_tree::store_path::{StorePath, StorePathGraph};

fn node(path: &str, size: u64, closure: u64) -> StorePath {
    StorePath {
        path: path.to_string(),
        hash: path.to_string(),
        name: path.to_string(),
        nar_size: size,
        closure_size: Some(closure),
        references: Vec::new(),
        signatures: Vec::new(),
    }
}

#[test]
fn sort_order_cycles_through_all_three() {
    let start = SortOrder::Alphabetical;
    let second = start.next();
    let third = second.next();
    let back = third.next();
    assert_eq!(second, SortOrder::ClosureSize);
    assert_eq!(third, SortOrder::AddedSize);
    assert_eq!(back, SortOrder::Alphabetical);
}

#[test]
fn sort_order_labels() {
    assert_eq!(SortOrder::Alphabetical.as_str(), "name");
    assert_eq!(SortOrder::ClosureSize.as_str(), "closure size");
    assert_eq!(SortOrder::AddedSize.as_str(), "added size");
}

#[test]
fn alphabetical_sort() {
    let mut g = StorePathGraph::new();
    g.add_path(node("b", 1, 1));
    g.add_path(node("a", 1, 1));
    g.add_path(node("c", 1, 1));
    let stats = calculate_stats(&g);
    let mut ids = vec!["b".to_string(), "a".to_string(), "c".to_string()];
    sort_paths(&mut ids, &stats, SortOrder::Alphabetical);
    assert_eq!(ids, vec!["a".to_string(), "b".to_string(), "c".to_string()]);
}

#[test]
fn closure_size_sorts_descending_and_is_stable() {
    let mut g = StorePathGraph::new();
    g.add_path(node("small", 1, 10));
    g.add_path(node("big", 1, 1000));
    g.add_path(node("mid1", 1, 100));
    g.add_path(node("mid2", 1, 100));
    let stats = calculate_stats(&g);
    let mut ids = vec![
        "small".to_string(),
        "mid2".to_string(),
        "mid1".to_string(),
        "big".to_string(),
    ];
    sort_paths(&mut ids, &stats, SortOrder::ClosureSize);
    // Descending by closure size; equal keys keep their relative order.
    assert_eq!(
        ids,
        vec![
            "big".to_string(),
            "mid2".to_string(),
            "mid1".to_string(),
            "small".to_string(),
        ]
    );
    // An identifier without a record sorts with key zero, at the end.
    let mut with_ghost = vec!["unknown".to_string(), "big".to_string()];
    sort_paths(&mut with_ghost, &stats, SortOrder::ClosureSize);
    assert_eq!(with_ghost, vec!["big".to_string(), "unknown".to_string()]);
}

#[test]
fn resorting_is_idempotent() {
    let mut g = StorePathGraph::new();
    g.add_path(node("b", 1, 5));
    g.add_path(node("a", 1, 50));
    g.add_path(node("c", 1, 5));
    let stats = calculate_stats(&g);
    for order in [SortOrder::Alphabetical, SortOrder::ClosureSize, SortOrder::AddedSize] {
        let mut once = vec!["b".to_string(), "a".to_string(), "c".to_string()];
        sort_paths(&mut once, &stats, order);
        let mut twice = once.clone();
        sort_paths(&mut twice, &stats, order);
        assert_eq!(once, twice);
    }
}
