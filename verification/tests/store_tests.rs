use nix_tree::store_path::{StorePath, StorePathError, StorePathGraph};

fn node(path: &str, hash: &str, name: &str, size: u64, refs: &[&str]) -> StorePath {
    StorePath {
        path: path.to_string(),
        hash: hash.to_string(),
        name: name.to_string(),
        nar_size: size,
        closure_size: None,
        references: refs.iter().map(|r| r.to_string()).collect(),
        signatures: Vec::new(),
    }
}

const HASH32: &str = "aaaaaaaaaaaaaaaaaaaaaaaaaaaaaaaa";

#[test]
fn parse_accepts_well_formed_identifier() {
    let id = format!("/nix/store/{HASH32}-hello-2.12");
    let (hash, name) = StorePath::parse(&id).unwrap();
    assert_eq!(hash, HASH32);
    assert_eq!(name, "hello-2.12");
}

#[test]
fn parse_trims_surrounding_whitespace() {
    let id = format!("  /nix/store/{HASH32}-pkg \n");
    let (hash, name) = StorePath::parse(&id).unwrap();
    assert_eq!(hash, HASH32);
    assert_eq!(name, "pkg");
}

#[test]
fn parse_rejects_wrong_prefix() {
    let r = StorePath::parse("/nix/var/abc-def");
    assert_eq!(r.unwrap_err(), StorePathError::MalformedIdentifier);
}

#[test]
fn parse_rejects_missing_dash() {
    let id = format!("/nix/store/{HASH32}");
    let r = StorePath::parse(&id);
    assert_eq!(r.unwrap_err(), StorePathError::MalformedIdentifier);
}

#[test]
fn parse_rejects_short_hash() {
    let r = StorePath::parse("/nix/store/abc-short");
    assert_eq!(r.unwrap_err(), StorePathError::MalformedIdentifier);
}

#[test]
fn parse_allows_empty_name() {
    let id = format!("/nix/store/{HASH32}-");
    let (hash, name) = StorePath::parse(&id).unwrap();
    assert_eq!(hash, HASH32);
    assert_eq!(name, "");
}

#[test]
fn lookup_and_edges_skip_self_and_dangling() {
    let mut g = StorePathGraph::new();
    g.add_path(node(
        "/nix/store/aaa-one",
        "aaa",
        "one",
        10,
        &["/nix/store/aaa-one", "/nix/store/bbb-two", "/nix/store/zzz-gone"],
    ));
    g.add_path(node("/nix/store/bbb-two", "bbb", "two", 20, &["/nix/store/aaa-one"]));

    assert!(g.get_path("/nix/store/aaa-one").is_some());
    assert!(g.get_path("/nix/store/zzz-gone").is_none());

    let refs = g.get_references("/nix/store/aaa-one");
    assert_eq!(refs.len(), 1);
    assert_eq!(refs[0].path, "/nix/store/bbb-two");

    let back = g.get_referrers("/nix/store/aaa-one");
    assert_eq!(back.len(), 1);
    assert_eq!(back[0].path, "/nix/store/bbb-two");

    // A node never refers to itself through the referrer scan either.
    let two_back = g.get_referrers("/nix/store/bbb-two");
    assert_eq!(two_back.len(), 1);
    assert_eq!(two_back[0].path, "/nix/store/aaa-one");
}

#[test]
fn disambiguate_renames_only_shared_labels() {
    let mut g = StorePathGraph::new();
    g.add_path(node("/nix/store/11111111aaa-tool", "11111111aaa", "tool", 1, &[]));
    g.add_path(node("/nix/store/22222222bbb-tool", "22222222bbb", "tool", 1, &[]));
    g.add_path(node("/nix/store/33333333ccc-solo", "33333333ccc", "solo", 1, &[]));
    g.disambiguate_names();
    assert_eq!(g.paths[0].name, "11111111-tool");
    assert_eq!(g.paths[1].name, "22222222-tool");
    assert_eq!(g.paths[2].name, "solo");
    // Neither node with a shared label keeps the bare original label.
    assert_ne!(g.paths[0].name, "tool");
    assert_ne!(g.paths[1].name, "tool");
}

#[test]
fn short_name_and_signatures() {
    let mut n = node("/nix/store/aaa-x", "aaa", "x", 1, &[]);
    assert_eq!(n.short_name(), "x");
    assert!(!n.is_signed());
    n.signatures.push("cache.example.org-1".to_string());
    assert!(n.is_signed());
}

#[test]
fn error_message_text() {
    assert_eq!(
        StorePathError::MalformedIdentifier.message(),
        "malformed store path identifier"
    );
}
