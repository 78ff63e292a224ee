use nix_tree::cli::{parse_args, CliError};

fn argv(words: &[&str]) -> Vec<String> {
    let mut v = vec!["nix-tree".to_string()];
    v.extend(words.iter().map(|w| w.to_string()));
    v
}

#[test]
fn plain_words_are_paths() {
    let c = parse_args(&argv(&["/nix/store/x", "/nix/store/y"])).unwrap();
    assert_eq!(c.paths, vec!["/nix/store/x".to_string(), "/nix/store/y".to_string()]);
    assert!(!c.derivation && !c.help && !c.version);
    assert!(c.store.is_none() && c.file.is_none());
    assert!(c.nix_options.is_empty());
}

#[test]
fn help_and_version_end_parsing_at_once() {
    let c = parse_args(&argv(&["-h", "whatever"])).unwrap();
    assert!(c.help);
    assert!(c.paths.is_empty());
    let c = parse_args(&argv(&["--version"])).unwrap();
    assert!(c.version);
}

#[test]
fn derivation_flag_and_store_value() {
    let c = parse_args(&argv(&["-d", "--store", "daemon", "p"])).unwrap();
    assert!(c.derivation);
    assert_eq!(c.store.as_deref(), Some("daemon"));
    assert_eq!(c.paths, vec!["p".to_string()]);
    let c = parse_args(&argv(&["--store=local"])).unwrap();
    assert_eq!(c.store.as_deref(), Some("local"));
}

#[test]
fn options_and_files() {
    let c = parse_args(&argv(&["--option", "a", "b", "-f", "default.nix"])).unwrap();
    assert_eq!(c.nix_options, vec![("a".to_string(), "b".to_string())]);
    assert_eq!(c.file.as_deref(), Some("default.nix"));
    let c = parse_args(&argv(&["--file=shell.nix"])).unwrap();
    assert_eq!(c.file.as_deref(), Some("shell.nix"));
}

#[test]
fn missing_arguments_are_rejected() {
    assert_eq!(
        parse_args(&argv(&["--store"])).unwrap_err(),
        CliError::MissingStoreArgument
    );
    assert_eq!(
        parse_args(&argv(&["--option", "only-one"])).unwrap_err(),
        CliError::MissingOptionArguments
    );
    assert_eq!(
        parse_args(&argv(&["--file"])).unwrap_err(),
        CliError::MissingFileArgument
    );
}

#[test]
fn unknown_options_are_rejected() {
    assert_eq!(
        parse_args(&argv(&["--bogus"])).unwrap_err(),
        CliError::UnknownOption("--bogus".to_string())
    );
}
