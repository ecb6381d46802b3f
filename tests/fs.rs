use xtask::fs::{find_all_cargo_locks, find_all_cargo_tomls, find_files_by_name};
use xtask::options::GlobalOptions;

fn entry(path: &str) -> Vec<String> {
    path.split('/').map(|c| c.to_string()).collect()
}

fn workspace() -> Vec<Vec<String>> {
    vec![
        entry("Cargo.toml"),
        entry("Cargo.lock"),
        entry("foo"),
        entry("foo/Cargo.toml"),
        entry("foo/Cargo.lock"),
        entry("bar/Cargo.toml"),
        entry("bar/Cargo.lock"),
        entry("target/debug/Cargo.toml"),
        entry(".git/Cargo.lock"),
        entry("bar/src/lib.rs"),
    ]
}

#[test]
fn cargo_tomls_are_found_outside_pruned_directories() {
    assert_eq!(find_all_cargo_tomls(&workspace()), vec![0, 3, 5]);
}

#[test]
fn cargo_locks_are_found_outside_pruned_directories() {
    assert_eq!(find_all_cargo_locks(&workspace()), vec![1, 4, 6]);
}

#[test]
fn names_must_match_exactly() {
    let entries = vec![entry("a/Cargo.toml.bak"), entry("b/cargo.toml"), entry("c/Cargo.toml")];
    assert_eq!(find_files_by_name(&entries, "Cargo.toml"), vec![2]);
    assert!(find_files_by_name(&vec![], "Cargo.toml").is_empty());
}

#[test]
fn verbosity_selects_the_log_level() {
    assert_eq!(GlobalOptions { verbose: true }.log_level(), "debug");
    assert_eq!(GlobalOptions { verbose: false }.log_level(), "info");
}
