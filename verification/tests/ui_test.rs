use nix_tree::nav::{App, KeyInput, Modal, Pane};
use nix_tree::path_stats::{calculate_added_size_for_path, calculate_stats};
use nix_tree::store_path::{StorePath, StorePathGraph};

#[test]
fn test_ranger_navigation() {
    // Create a test graph with multiple levels
    let mut graph = StorePathGraph::new();

    // Root -> dep1, dep2
    // dep1 -> dep1-1, dep1-2
    let root = StorePath {
        path: "/nix/store/aaa-root".to_string(),
        hash: "aaa".to_string(),
        name: "root".to_string(),
        nar_size: 1000,
        closure_size: Some(10000),
        references: vec![
            "/nix/store/bbb-dep1".to_string(),
            "/nix/store/ccc-dep2".to_string(),
        ],
        signatures: vec![],
    };

    let dep1 = StorePath {
        path: "/nix/store/bbb-dep1".to_string(),
        hash: "bbb".to_string(),
        name: "dep1".to_string(),
        nar_size: 500,
        closure_size: Some(2000),
        references: vec![
            "/nix/store/ddd-dep1-1".to_string(),
            "/nix/store/eee-dep1-2".to_string(),
        ],
        signatures: vec![],
    };

    let dep2 = StorePath {
        path: "/nix/store/ccc-dep2".to_string(),
        hash: "ccc".to_string(),
        name: "dep2".to_string(),
        nar_size: 300,
        closure_size: Some(300),
        references: vec![],
        signatures: vec![],
    };

    let dep1_1 = StorePath {
        path: "/nix/store/ddd-dep1-1".to_string(),
        hash: "ddd".to_string(),
        name: "dep1-1".to_string(),
        nar_size: 100,
        closure_size: Some(100),
        references: vec![],
        signatures: vec![],
    };

    let dep1_2 = StorePath {
        path: "/nix/store/eee-dep1-2".to_string(),
        hash: "eee".to_string(),
        name: "dep1-2".to_string(),
        nar_size: 100,
        closure_size: Some(100),
        references: vec![],
        signatures: vec![],
    };

    graph.add_path(root);
    graph.add_path(dep1);
    graph.add_path(dep2);
    graph.add_path(dep1_1);
    graph.add_path(dep1_2);
    graph.roots = vec!["/nix/store/aaa-root".to_string()];

    let stats = calculate_stats(&graph);
    let mut app = App::new(graph, stats);

    // Initial state
    println!("\nInitial state:");
    println!("Active pane: {:?}", app.active_pane);
    println!("Current: {:?}", app.current_items);
    println!("Dependencies: {:?}", app.next_items);
    assert_eq!(
        app.active_pane,
        Pane::Current,
        "Should start with Current pane active"
    );
    assert_eq!(app.current_items, vec!["/nix/store/aaa-root"]);
    assert_eq!(app.next_items.len(), 2);

    // Simulate right arrow - should move all dependencies to current
    let right_key = KeyInput::Right;
    app.handle_key(right_key);
    println!("\nAfter right arrow:");
    println!("Active pane: {:?}", app.active_pane);
    println!("Current: {:?}", app.current_items);
    println!("Dependencies: {:?}", app.next_items);
    assert_eq!(
        app.active_pane,
        Pane::Current,
        "Should stay on Current pane"
    );
    // After right arrow, all dependencies become current items
    assert_eq!(app.current_items.len(), 2);
    assert!(
        app.current_items
            .contains(&"/nix/store/bbb-dep1".to_string())
    );
    assert!(
        app.current_items
            .contains(&"/nix/store/ccc-dep2".to_string())
    );
    // The first item (bbb-dep1) is selected, so its dependencies are shown
    assert_eq!(app.next_items.len(), 2); // dep1-1 and dep1-2
}

#[test]
fn test_update_panes_logic() {
    // Create a test graph with shared dependencies to test added size calculation
    let mut graph = StorePathGraph::new();

    // Root -> dep1, dep2, shared
    // dep1 -> shared, dep1-only
    // dep2 -> shared, dep2-only
    let root = StorePath {
        path: "/nix/store/abc-root".to_string(),
        hash: "abc".to_string(),
        name: "root".to_string(),
        nar_size: 1000,
        closure_size: Some(5000),
        references: vec![
            "/nix/store/def-dep1".to_string(),
            "/nix/store/ghi-dep2".to_string(),
            "/nix/store/shared".to_string(),
        ],
        signatures: vec![],
    };

    let dep1 = StorePath {
        path: "/nix/store/def-dep1".to_string(),
        hash: "def".to_string(),
        name: "dep1".to_string(),
        nar_size: 500,
        closure_size: Some(1500),
        references: vec![
            "/nix/store/shared".to_string(),
            "/nix/store/dep1-only".to_string(),
        ],
        signatures: vec![],
    };

    let dep2 = StorePath {
        path: "/nix/store/ghi-dep2".to_string(),
        hash: "ghi".to_string(),
        name: "dep2".to_string(),
        nar_size: 300,
        closure_size: Some(1300),
        references: vec![
            "/nix/store/shared".to_string(),
            "/nix/store/dep2-only".to_string(),
        ],
        signatures: vec![],
    };

    let shared = StorePath {
        path: "/nix/store/shared".to_string(),
        hash: "sha".to_string(),
        name: "shared".to_string(),
        nar_size: 200,
        closure_size: Some(200),
        references: vec![],
        signatures: vec![],
    };

    let dep1_only = StorePath {
        path: "/nix/store/dep1-only".to_string(),
        hash: "d1o".to_string(),
        name: "dep1-only".to_string(),
        nar_size: 100,
        closure_size: Some(100),
        references: vec![],
        signatures: vec![],
    };

    let dep2_only = StorePath {
        path: "/nix/store/dep2-only".to_string(),
        hash: "d2o".to_string(),
        name: "dep2-only".to_string(),
        nar_size: 150,
        closure_size: Some(150),
        references: vec![],
        signatures: vec![],
    };

    graph.add_path(root);
    graph.add_path(dep1);
    graph.add_path(dep2);
    graph.add_path(shared);
    graph.add_path(dep1_only);
    graph.add_path(dep2_only);
    graph.roots = vec!["/nix/store/abc-root".to_string()];

    // Test with our graph
    let stats = calculate_stats(&graph);
    let mut app = App::new(graph.clone(), stats.clone());

    println!("\nTest graph results:");
    println!("Current items: {:?}", app.current_items);
    println!("Next items (dependencies): {:?}", app.next_items);

    assert_eq!(app.current_items.len(), 1);
    assert_eq!(app.current_items[0], "/nix/store/abc-root");
    assert_eq!(app.next_items.len(), 3, "Should have 3 dependencies");

    // Navigate right to move dependencies to current pane
    let right_key = KeyInput::Right;
    app.handle_key(right_key);

    // Verify all three dependencies are now current items
    assert_eq!(app.current_items.len(), 3);
    assert!(
        app.current_items
            .contains(&"/nix/store/def-dep1".to_string())
    );
    assert!(
        app.current_items
            .contains(&"/nix/store/ghi-dep2".to_string())
    );
    assert!(app.current_items.contains(&"/nix/store/shared".to_string()));

    // The marginal sizes shown for each item are judged against the parent
    // context the user navigated from.
    let parent_context = app.get_parent_context();
    assert_eq!(parent_context, vec!["/nix/store/abc-root".to_string()]);

    // dep1's added size in the context of the root should be 600 B
    // (dep1 itself: 500 B + dep1-only: 100 B)
    let added = calculate_added_size_for_path("/nix/store/def-dep1", &app.graph, &parent_context);
    assert_eq!(
        added, 600,
        "dep1 should show added size of 600 B in current context"
    );

    // dep2's added size in the context of the root should be 450 B
    // (dep2 itself: 300 B + dep2-only: 150 B)
    let added = calculate_added_size_for_path("/nix/store/ghi-dep2", &app.graph, &parent_context);
    assert_eq!(
        added, 450,
        "dep2 should show added size of 450 B in current context"
    );

    // shared's added size in the context of the root should be 200 B
    // (just itself, since it has no dependencies)
    let added = calculate_added_size_for_path("/nix/store/shared", &app.graph, &parent_context);
    assert_eq!(
        added, 200,
        "shared should show added size of 200 B in current context"
    );
}

fn small_node(path: &str, name: &str, size: u64, refs: &[&str]) -> StorePath {
    StorePath {
        path: path.to_string(),
        hash: path.to_string(),
        name: name.to_string(),
        nar_size: size,
        closure_size: None,
        references: refs.iter().map(|r| r.to_string()).collect(),
        signatures: Vec::new(),
    }
}

fn chain_app() -> App {
    let mut g = StorePathGraph::new();
    g.add_path(small_node("/nix/store/aaa-root", "root", 10, &["/nix/store/bbb-mid"]));
    g.add_path(small_node("/nix/store/bbb-mid", "mid", 20, &["/nix/store/ccc-leaf"]));
    g.add_path(small_node("/nix/store/ccc-leaf", "leaf", 30, &[]));
    g.roots = vec!["/nix/store/aaa-root".to_string()];
    let stats = calculate_stats(&g);
    App::new(g, stats)
}

#[test]
fn moving_right_into_empty_pane_is_a_no_op() {
    let mut app = chain_app();
    app.handle_key(KeyInput::Right);
    app.handle_key(KeyInput::Right);
    assert_eq!(app.current_items, vec!["/nix/store/ccc-leaf"]);
    assert!(app.next_items.is_empty());
    let items_before = app.current_items.clone();
    let sel_before = app.current_selected;
    let hist_before = app.navigation_history.len();
    app.handle_key(KeyInput::Right);
    assert_eq!(app.current_items, items_before);
    assert_eq!(app.current_selected, sel_before);
    assert_eq!(app.navigation_history.len(), hist_before);
}

#[test]
fn moving_left_with_empty_history_is_a_no_op() {
    let mut app = chain_app();
    let items_before = app.current_items.clone();
    let sel_before = app.current_selected;
    app.handle_key(KeyInput::Left);
    assert_eq!(app.current_items, items_before);
    assert_eq!(app.current_selected, sel_before);
    assert!(app.navigation_history.is_empty());
}

#[test]
fn right_then_left_restores_the_middle_pane() {
    let mut app = chain_app();
    app.handle_key(KeyInput::Down);
    let items_before = app.current_items.clone();
    let sel_before = app.current_selected;
    app.handle_key(KeyInput::Right);
    assert_ne!(app.current_items, items_before);
    app.handle_key(KeyInput::Left);
    assert_eq!(app.current_items, items_before);
    assert_eq!(app.current_selected, sel_before);
    assert!(app.navigation_history.is_empty());
}

#[test]
fn down_and_up_clamp_to_bounds() {
    let mut g = StorePathGraph::new();
    g.add_path(small_node("one", "one", 1, &[]));
    g.add_path(small_node("two", "two", 2, &[]));
    g.roots = vec!["one".to_string(), "two".to_string()];
    let stats = calculate_stats(&g);
    let mut app = App::new(g, stats);
    assert_eq!(app.current_selected, Some(0));
    app.handle_key(KeyInput::Up);
    assert_eq!(app.current_selected, Some(0));
    app.handle_key(KeyInput::Down);
    assert_eq!(app.current_selected, Some(1));
    app.handle_key(KeyInput::Down);
    assert_eq!(app.current_selected, Some(1));
    app.handle_key(KeyInput::Up);
    assert_eq!(app.current_selected, Some(0));
}

#[test]
fn search_replaces_current_pane_case_insensitively() {
    let mut app = chain_app();
    app.handle_key(KeyInput::Char('/'));
    assert!(app.searching);
    app.handle_key(KeyInput::Char('M'));
    app.handle_key(KeyInput::Char('I'));
    app.handle_key(KeyInput::Char('D'));
    assert_eq!(app.search_query, "MID");
    app.handle_key(KeyInput::Enter);
    assert!(!app.searching);
    assert_eq!(app.current_items, vec!["/nix/store/bbb-mid"]);
    assert_eq!(app.current_selected, Some(0));
}

#[test]
fn search_without_matches_changes_nothing() {
    let mut app = chain_app();
    let items_before = app.current_items.clone();
    app.handle_key(KeyInput::Char('/'));
    app.handle_key(KeyInput::Char('z'));
    app.handle_key(KeyInput::Char('z'));
    app.handle_key(KeyInput::Enter);
    assert_eq!(app.current_items, items_before);
}

#[test]
fn search_backspace_and_cancel() {
    let mut app = chain_app();
    app.handle_key(KeyInput::Char('/'));
    app.handle_key(KeyInput::Char('a'));
    app.handle_key(KeyInput::Char('b'));
    app.handle_key(KeyInput::Backspace);
    assert_eq!(app.search_query, "a");
    app.handle_key(KeyInput::Esc);
    assert!(!app.searching);
    assert_eq!(app.search_query, "");
}

#[test]
fn sort_toggle_cycles_and_keeps_selected_item() {
    let mut g = StorePathGraph::new();
    g.add_path(small_node("b", "b", 1, &[]));
    g.add_path(small_node("a", "a", 9, &[]));
    g.roots = vec!["b".to_string(), "a".to_string()];
    let stats = calculate_stats(&g);
    let mut app = App::new(g, stats);
    // Default order is by descending closure size: a (9) before b (1).
    assert_eq!(app.current_items, vec!["a".to_string(), "b".to_string()]);
    app.handle_key(KeyInput::Down);
    assert_eq!(app.current_selected, Some(1)); // b selected
    app.handle_key(KeyInput::Char('s'));
    // Now by marginal size: no marginal size is computed yet, so all keys
    // are equal and the stable sort keeps the order; b stays selected.
    assert_eq!(app.current_items, vec!["a".to_string(), "b".to_string()]);
    assert_eq!(app.current_selected, Some(1));
    app.handle_key(KeyInput::Char('s'));
    // Now alphabetical.
    assert_eq!(app.current_items, vec!["a".to_string(), "b".to_string()]);
    assert_eq!(app.current_selected, Some(1));
}

#[test]
fn help_toggle_and_quit() {
    let mut app = chain_app();
    assert!(!app.show_help);
    app.handle_key(KeyInput::Char('?'));
    assert!(app.show_help);
    app.handle_key(KeyInput::Char('?'));
    assert!(!app.show_help);
    assert!(app.handle_key(KeyInput::Char('q')));
    assert!(app.handle_key(KeyInput::Esc));
    assert!(!app.handle_key(KeyInput::Char('x')));
}

fn open_modal(app: &mut App) {
    // Focus the leaf, then ask why it is present.
    app.handle_key(KeyInput::Right);
    app.handle_key(KeyInput::Right);
    app.handle_key(KeyInput::Char('w'));
}

#[test]
fn why_depends_modal_opens_with_formatted_lines() {
    let mut app = chain_app();
    open_modal(&mut app);
    match app.modal.as_ref().expect("modal should open") {
        Modal::WhyDepends {
            paths,
            formatted_lines,
            max_line_width,
            selected,
            horizontal_scroll,
        } => {
            assert_eq!(
                paths,
                &vec![vec![
                    "/nix/store/aaa-root".to_string(),
                    "/nix/store/bbb-mid".to_string(),
                    "/nix/store/ccc-leaf".to_string(),
                ]]
            );
            assert_eq!(formatted_lines, &vec!["root \u{2192} mid \u{2192} leaf".to_string()]);
            assert_eq!(*max_line_width, 17);
            assert_eq!(*selected, 0);
            assert_eq!(*horizontal_scroll, 0);
        },
    }
}

#[test]
fn modal_with_no_focus_or_no_paths_does_not_open() {
    let mut g = StorePathGraph::new();
    g.add_path(small_node("lone", "lone", 1, &[]));
    g.roots = Vec::new();
    let stats = calculate_stats(&g);
    let mut app = App::new(g, stats);
    assert!(app.current_path.is_none());
    app.handle_key(KeyInput::Char('w'));
    assert!(app.modal.is_none());
}

#[test]
fn modal_cursor_and_scroll_clamp() {
    let mut app = chain_app();
    open_modal(&mut app);
    // A single line: the cursor cannot move off it.
    app.handle_key(KeyInput::Down);
    app.handle_key(KeyInput::PageDown);
    app.handle_key(KeyInput::PageUp);
    app.handle_key(KeyInput::Up);
    match app.modal.as_ref().unwrap() {
        Modal::WhyDepends { selected, horizontal_scroll, .. } => {
            assert_eq!(*selected, 0);
            assert_eq!(*horizontal_scroll, 0);
        },
    }
    // The line is 17 characters wide; the scroll cap leaves a margin of 20,
    // so no rightward scroll is possible.
    app.handle_key(KeyInput::Right);
    match app.modal.as_ref().unwrap() {
        Modal::WhyDepends { horizontal_scroll, .. } => assert_eq!(*horizontal_scroll, 0),
    }
    app.handle_key(KeyInput::Esc);
    assert!(app.modal.is_none());
}

#[test]
fn modal_enter_replays_the_chosen_path() {
    let mut app = chain_app();
    open_modal(&mut app);
    app.handle_key(KeyInput::Enter);
    assert!(app.modal.is_none());
    // The replay drilled down to the leaf along the chosen chain.
    assert_eq!(app.current_items, vec!["/nix/store/ccc-leaf"]);
    assert_eq!(app.current_selected, Some(0));
    assert_eq!(app.navigation_history.len(), 2);
    assert_eq!(app.current_path.as_deref(), Some("/nix/store/ccc-leaf"));
}
