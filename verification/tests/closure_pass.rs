//! The graph-fingerprint pass over a lockfile: bottom-up store keys,
//! every dependency kind contributing, platform-skipped optionals, and
//! the failure cases.

use pacm::closure::{fingerprint_closure, ClosureError};
use pacm::graph::{compute_graph_hash, DependencyFingerprint};
use pacm::lockfile::{empty_entry, Lockfile, PackageEntry};

fn entry_with_version(v: &str) -> PackageEntry {
    let mut e = empty_entry();
    e.version = Some(v.to_string());
    e
}

fn fp(name: &str, version: &str, store_key: String) -> DependencyFingerprint {
    DependencyFingerprint {
        name: name.to_string(),
        version: version.to_string(),
        store_key: Some(store_key),
    }
}

#[test]
fn fingerprint_closure_matches_graph_hash() {
    let mut lock = Lockfile::default();
    let mut a = entry_with_version("1.0.0");
    a.dependencies.insert("b".to_string(), "^2.0.0".to_string());
    lock.packages.insert("node_modules/a".to_string(), a);
    lock.packages.insert("node_modules/b".to_string(), entry_with_version("2.0.0"));
    let names = vec!["a".to_string()];
    let m = fingerprint_closure(&lock, &names, "linux", "x64").unwrap();

    let empty: Vec<DependencyFingerprint> = Vec::new();
    let (eb_hash, eb_key) = compute_graph_hash("b", "2.0.0", &empty);
    let (b_hash, b_key) = m.get("b").unwrap().clone();
    assert_eq!(b_hash, eb_hash);
    assert_eq!(b_key, eb_key);

    let fps = vec![fp("b", "2.0.0", b_key)];
    let (ea_hash, ea_key) = compute_graph_hash("a", "1.0.0", &fps);
    let (a_hash, a_key) = m.get("a").unwrap().clone();
    assert_eq!(a_hash, ea_hash);
    assert_eq!(a_key, ea_key);
}

#[test]
fn fingerprint_closure_covers_all_dependency_kinds() {
    let mut lock = Lockfile::default();
    let mut a = entry_with_version("1.0.0");
    a.dev_dependencies.insert("d".to_string(), "^1.0.0".to_string());
    a.peer_dependencies.insert("p".to_string(), "^1.0.0".to_string());
    lock.packages.insert("node_modules/a".to_string(), a);
    lock.packages.insert("node_modules/d".to_string(), entry_with_version("1.1.0"));
    lock.packages.insert("node_modules/p".to_string(), entry_with_version("1.2.0"));
    let m = fingerprint_closure(&lock, &vec!["a".to_string()], "linux", "x64").unwrap();
    let (_, d_key) = m.get("d").unwrap().clone();
    let (_, p_key) = m.get("p").unwrap().clone();
    let fps = vec![fp("d", "1.1.0", d_key), fp("p", "1.2.0", p_key)];
    let (ea_hash, _) = compute_graph_hash("a", "1.0.0", &fps);
    assert_eq!(m.get("a").unwrap().0, ea_hash);
}

#[test]
fn fingerprint_closure_skips_unsupported_optional() {
    let mut lock = Lockfile::default();
    let mut a = entry_with_version("1.0.0");
    a.optional_dependencies.insert("native".to_string(), "^1.0.0".to_string());
    let mut nat = entry_with_version("3.0.0");
    nat.os = vec!["darwin".to_string()];
    lock.packages.insert("node_modules/a".to_string(), a);
    lock.packages.insert("node_modules/native".to_string(), nat);

    // on a host the optional dependency rejects, it contributes nothing
    let m = fingerprint_closure(&lock, &vec!["a".to_string()], "linux", "x64").unwrap();
    assert!(m.get("native").is_none());
    let empty: Vec<DependencyFingerprint> = Vec::new();
    let (ea_hash, ea_key) = compute_graph_hash("a", "1.0.0", &empty);
    assert_eq!(m.get("a").unwrap().clone(), (ea_hash, ea_key));

    // on a matching host it contributes like any other dependency
    let m2 = fingerprint_closure(&lock, &vec!["a".to_string()], "darwin", "x64").unwrap();
    let (_, n_key) = m2.get("native").unwrap().clone();
    let fps = vec![fp("native", "3.0.0", n_key)];
    let (da_hash, _) = compute_graph_hash("a", "1.0.0", &fps);
    assert_eq!(m2.get("a").unwrap().0, da_hash);
}

#[test]
fn fingerprint_closure_reports_cycle() {
    let mut lock = Lockfile::default();
    let mut a = entry_with_version("1.0.0");
    a.dependencies.insert("b".to_string(), "*".to_string());
    let mut b = entry_with_version("2.0.0");
    b.dependencies.insert("a".to_string(), "*".to_string());
    lock.packages.insert("node_modules/a".to_string(), a);
    lock.packages.insert("node_modules/b".to_string(), b);
    let r = fingerprint_closure(&lock, &vec!["a".to_string()], "linux", "x64");
    assert!(matches!(r, Err(ClosureError::Cycle(_))));
}

#[test]
fn fingerprint_closure_missing_entry() {
    let lock = Lockfile::default();
    let r = fingerprint_closure(&lock, &vec!["ghost".to_string()], "linux", "x64");
    match r {
        Err(ClosureError::MissingEntry(n)) => assert_eq!(n, "ghost"),
        _ => panic!("expected a missing-entry error"),
    }
}

#[test]
fn fingerprint_closure_missing_version() {
    let mut lock = Lockfile::default();
    lock.packages.insert("node_modules/bare".to_string(), empty_entry());
    let r = fingerprint_closure(&lock, &vec!["bare".to_string()], "linux", "x64");
    match r {
        Err(ClosureError::MissingVersion(n)) => assert_eq!(n, "bare"),
        _ => panic!("expected a missing-version error"),
    }
}

#[test]
fn fingerprint_closure_shared_dependency_single_key() {
    // a diamond: both parents see the same child key, and the child is
    // fingerprinted once with one store key
    let mut lock = Lockfile::default();
    let mut a = entry_with_version("1.0.0");
    a.dependencies.insert("left".to_string(), "*".to_string());
    a.dependencies.insert("right".to_string(), "*".to_string());
    let mut left = entry_with_version("1.0.0");
    left.dependencies.insert("base".to_string(), "*".to_string());
    let mut right = entry_with_version("1.0.0");
    right.dependencies.insert("base".to_string(), "*".to_string());
    lock.packages.insert("node_modules/a".to_string(), a);
    lock.packages.insert("node_modules/left".to_string(), left);
    lock.packages.insert("node_modules/right".to_string(), right);
    lock.packages.insert("node_modules/base".to_string(), entry_with_version("0.1.0"));
    let m = fingerprint_closure(&lock, &vec!["a".to_string()], "linux", "x64").unwrap();
    let (_, base_key) = m.get("base").unwrap().clone();
    let fps = vec![fp("base", "0.1.0", base_key)];
    let (l_hash, l_key) = compute_graph_hash("left", "1.0.0", &fps);
    let (r_hash, r_key) = compute_graph_hash("right", "1.0.0", &fps);
    assert_eq!(m.get("left").unwrap().clone(), (l_hash, l_key.clone()));
    assert_eq!(m.get("right").unwrap().clone(), (r_hash, r_key.clone()));
    let top = vec![fp("left", "1.0.0", l_key), fp("right", "1.0.0", r_key)];
    let (a_hash, _) = compute_graph_hash("a", "1.0.0", &top);
    assert_eq!(m.get("a").unwrap().0, a_hash);
}
