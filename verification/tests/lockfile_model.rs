//! The lockfile model: syncing against the manifest, the binary codec's
//! round trip, pruning, and the install decision.

use pacm::codec::LockError;
use pacm::codec_file::{decode_current_binary, encode_current_binary};
use pacm::install::{decide_scenario, key_difference, root_deps_union, InstallScenario};
use pacm::lockfile::{empty_entry, Lockfile};
use pacm::manifest::Manifest;
use pacm::prune::prune_unreachable;
use pacm::codec_legacy::decode_manual_legacy;

#[test]
fn lockfile_sync() {
    let mut manifest = Manifest::new("demo".into(), "0.1.0".into());
    manifest.dependencies.insert("foo".into(), "^1.0.0".into());
    let mut lock = Lockfile::default();
    lock.sync_from_manifest(&manifest);
    let data = encode_current_binary(&lock).unwrap();
    let loaded = decode_current_binary(&data).unwrap();
    assert!(loaded.packages.contains_key(""));
    assert!(loaded.packages.contains_key("node_modules/foo"));
}

#[test]
fn codec_round_trip_preserves_every_field() {
    let mut manifest = Manifest::new("demo".into(), "0.1.0".into());
    manifest.dependencies.insert("alpha".into(), "1.0.0".into());
    manifest.dev_dependencies.insert("devtool".into(), "^2".into());
    manifest.optional_dependencies.insert("opt".into(), "*".into());
    let mut lock = Lockfile::default();
    lock.sync_from_manifest(&manifest);
    let mut entry = empty_entry();
    entry.version = Some("1.0.0".into());
    entry.integrity = Some("sha512-abc".into());
    entry.resolved = Some("https://example.test/alpha.tgz".into());
    entry.dependencies.insert("gamma".into(), "^1.0.0".into());
    entry.peer_dependencies.insert("peer".into(), "^3".into());
    entry
        .peer_dependencies_meta
        .insert("peer".into(), pacm::lockfile::PeerMeta { optional: true });
    entry.os = vec!["linux".into(), "darwin".into()];
    entry.cpu_arch = vec!["x64".into()];
    entry.store_key = Some("alpha@1.0.0::HASH".into());
    entry.content_hash = Some("cafe".into());
    entry.link_mode = Some("link".into());
    entry.store_path = Some("store/alpha".into());
    lock.packages.insert("node_modules/alpha".into(), entry);
    let bytes = encode_current_binary(&lock).unwrap();
    let loaded = decode_current_binary(&bytes).unwrap();
    assert_eq!(loaded.format, lock.format);
    assert_eq!(loaded.packages.len(), lock.packages.len());
    let e = loaded.packages.get("node_modules/alpha").unwrap();
    assert_eq!(e.version.as_deref(), Some("1.0.0"));
    assert_eq!(e.integrity.as_deref(), Some("sha512-abc"));
    assert_eq!(e.resolved.as_deref(), Some("https://example.test/alpha.tgz"));
    assert_eq!(e.dependencies.get("gamma").map(|s| s.as_str()), Some("^1.0.0"));
    assert_eq!(e.peer_dependencies.get("peer").map(|s| s.as_str()), Some("^3"));
    assert_eq!(e.peer_dependencies_meta.get("peer").map(|m| m.optional), Some(true));
    assert_eq!(e.os, vec!["linux".to_string(), "darwin".to_string()]);
    assert_eq!(e.cpu_arch, vec!["x64".to_string()]);
    assert_eq!(e.store_key.as_deref(), Some("alpha@1.0.0::HASH"));
    assert_eq!(e.content_hash.as_deref(), Some("cafe"));
    assert_eq!(e.link_mode.as_deref(), Some("link"));
    assert_eq!(e.store_path.as_deref(), Some("store/alpha"));
    // a second encoding of the decoded value is byte-identical
    let again = encode_current_binary(&loaded).unwrap();
    assert_eq!(again, bytes);
}

#[test]
fn decoder_refuses_foreign_bytes() {
    assert!(matches!(decode_current_binary(b"not a lockfile"), Err(LockError::Unreadable)));
    assert!(matches!(decode_current_binary(b""), Err(LockError::Unreadable)));
    // right magic, truncated body
    assert!(matches!(decode_current_binary(b"PACMLOCK\x03\x00"), Err(LockError::Unreadable)));
}

#[test]
fn sync_writes_the_root_entry() {
    let mut manifest = Manifest::new("demo".into(), "2.0.0".into());
    manifest.dependencies.insert("a".into(), "^1".into());
    let mut lock = Lockfile::default();
    lock.sync_from_manifest(&manifest);
    let root = lock.packages.get("").unwrap();
    assert_eq!(root.version.as_deref(), Some("2.0.0"));
    assert_eq!(root.dependencies.get("a").map(|s| s.as_str()), Some("^1"));
    assert!(lock.packages.contains_key("node_modules/a"));
}

#[test]
fn pruning_drops_unreachable_entries() {
    // first install: delta and epsilon
    let mut m1 = Manifest::new("demo".into(), "0.1.0".into());
    m1.dependencies.insert("delta".into(), "1.0.0".into());
    m1.dependencies.insert("epsilon".into(), "1.0.0".into());
    let mut lock = Lockfile::default();
    lock.sync_from_manifest(&m1);
    // second install: the manifest dropped epsilon
    let mut m2 = Manifest::new("demo".into(), "0.1.0".into());
    m2.dependencies.insert("delta".into(), "1.0.0".into());
    let mut lock2 = Lockfile::default();
    lock2.sync_from_manifest(&m2);
    // carry the stale entry over, as a loaded lockfile would
    let stale = empty_entry();
    lock2.packages.insert("node_modules/epsilon".into(), stale);
    let removed = prune_unreachable(&mut lock2);
    assert_eq!(removed, vec!["epsilon".to_string()]);
    assert!(!lock2.packages.contains_key("node_modules/epsilon"));
    assert!(lock2.packages.contains_key("node_modules/delta"));
}

#[test]
fn pruning_follows_dependency_edges() {
    let mut m = Manifest::new("demo".into(), "0.1.0".into());
    m.dependencies.insert("alpha".into(), "1.0.0".into());
    let mut lock = Lockfile::default();
    lock.sync_from_manifest(&m);
    // alpha depends on gamma, which stays; zeta hangs loose and goes
    let mut alpha = empty_entry();
    alpha.dependencies.insert("gamma".into(), "1.0.0".into());
    lock.packages.insert("node_modules/alpha".into(), alpha);
    lock.packages.insert("node_modules/gamma".into(), empty_entry());
    lock.packages.insert("node_modules/zeta".into(), empty_entry());
    let removed = prune_unreachable(&mut lock);
    assert_eq!(removed, vec!["zeta".to_string()]);
    assert!(lock.packages.contains_key("node_modules/gamma"));
}

#[test]
fn scenario_decision() {
    assert_eq!(decide_scenario(true, true, true, true, true, true), InstallScenario::NoOp);
    assert_eq!(decide_scenario(false, true, true, true, true, true), InstallScenario::FastPath);
    assert_eq!(decide_scenario(false, false, true, true, true, true), InstallScenario::FullPath);
    assert_eq!(decide_scenario(true, true, false, true, true, true), InstallScenario::FastPath);
    assert_eq!(decide_scenario(false, true, true, true, false, true), InstallScenario::FullPath);
}

#[test]
fn root_diff() {
    let mut m1 = Manifest::new("demo".into(), "0.1.0".into());
    m1.dependencies.insert("a".into(), "^1".into());
    let mut old_lock = Lockfile::default();
    old_lock.sync_from_manifest(&m1);
    let mut m2 = Manifest::new("demo".into(), "0.1.0".into());
    m2.dependencies.insert("a".into(), "^1".into());
    m2.dev_dependencies.insert("b".into(), "^2".into());
    let mut new_lock = Lockfile::default();
    new_lock.sync_from_manifest(&m2);
    let old_union = root_deps_union(&old_lock);
    let new_union = root_deps_union(&new_lock);
    let added = key_difference(&new_union, &old_union);
    let removed = key_difference(&old_union, &new_union);
    assert_eq!(added, vec!["b".to_string()]);
    assert!(removed.is_empty());
}

fn lv_varint(mut n: u64, out: &mut Vec<u8>) {
    loop {
        let low = (n & 0x7f) as u8;
        n >>= 7;
        if n == 0 {
            out.push(low);
            return;
        }
        out.push(low | 0x80);
    }
}

fn lv_string(s: &str, out: &mut Vec<u8>) {
    lv_varint(s.len() as u64, out);
    out.extend_from_slice(s.as_bytes());
}

#[test]
fn legacy_varint_shape_decodes() {
    // format 1, one entry keyed `node_modules/a` with a version and one
    // dependency, everything else empty
    let mut bytes: Vec<u8> = Vec::new();
    lv_varint(1, &mut bytes); // format
    lv_varint(1, &mut bytes); // entry count
    lv_string("node_modules/a", &mut bytes);
    bytes.push(1); // version present
    lv_string("1.0.0", &mut bytes);
    bytes.push(0); // no integrity
    bytes.push(0); // no resolved
    lv_varint(1, &mut bytes); // dependencies
    lv_string("b", &mut bytes);
    lv_string("^2", &mut bytes);
    lv_varint(0, &mut bytes); // dev
    lv_varint(0, &mut bytes); // optional
    lv_varint(0, &mut bytes); // peer
    lv_varint(0, &mut bytes); // peer meta
    let lf = decode_manual_legacy(&bytes).unwrap();
    assert_eq!(lf.format, 1);
    let e = lf.packages.get("node_modules/a").unwrap();
    assert_eq!(e.version.as_deref(), Some("1.0.0"));
    assert_eq!(e.dependencies.get("b").map(|s| s.as_str()), Some("^2"));
    assert!(e.os.is_empty());
    assert!(e.store_key.is_none());
    // migrating: the re-encoded current framing decodes to the same contents
    let modern = encode_current_binary(&lf).unwrap();
    let again = decode_current_binary(&modern).unwrap();
    assert_eq!(again.packages.get("node_modules/a").unwrap().version.as_deref(), Some("1.0.0"));
    // a truncated legacy stream is refused
    assert!(matches!(decode_manual_legacy(&bytes[..5]), Err(LockError::Unreadable)));
}

#[test]
fn manifest_spec_updates() {
    let mut m = Manifest::new("demo".into(), "0.1.0".into());
    assert!(pacm::install::add_spec_with_version(&mut m, "a", "1.0.0", false, false).is_ok());
    assert!(pacm::install::add_spec_with_version(&mut m, "b", "^2", true, false).is_ok());
    assert!(pacm::install::add_spec_with_version(&mut m, "c", "*", false, true).is_ok());
    assert!(pacm::install::add_spec_with_version(&mut m, "", "1", false, false).is_err());
    assert_eq!(m.dependencies.get("a").map(|s| s.as_str()), Some("1.0.0"));
    assert_eq!(m.dev_dependencies.get("b").map(|s| s.as_str()), Some("^2"));
    assert_eq!(m.optional_dependencies.get("c").map(|s| s.as_str()), Some("*"));
}
