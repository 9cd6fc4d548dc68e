//! Range canonicalization, shell quoting, specifier parsing and the
//! encoding helpers, exercised on concrete inputs.

use pacm::canon::canonicalize_npm_range;
use pacm::quote::{build_script_command, quote_arg_for_shell};
use pacm::spec_parse::{guess_name_from_spec, parse_spec, PackageSpec};
use pacm::hashes::{check_integrity, format_integrity, hex_encode, short_hash, StoreError};
use pacm::graph::{compute_graph_hash, split_store_key, DependencyFingerprint};
use pacm::platform::platform_supported;
use pacm::resolver::{ResolveError, Resolver};
use pacm::store::{cache_package_path, package_path, safe_join, sanitize_for_fs};
use semver::VersionReq;
use sha2::Digest;

#[test]
fn test_basic_wildcards() {
    assert_eq!(canonicalize_npm_range("*"), "*");
    assert_eq!(canonicalize_npm_range("1.x"), ">=1.0.0, <2.0.0".replace("  ", " "));
    assert_eq!(canonicalize_npm_range("1.2.x"), ">=1.2.0, <1.3.0");
}

#[test]
fn test_hyphen() {
    assert_eq!(canonicalize_npm_range("1.2.3 - 2.3.4"), ">=1.2.3, <=2.3.4");
}

#[test]
fn test_spaced_comparators() {
    let c = canonicalize_npm_range(">= 2.1.2 < 3.0.0");
    // Accept either comma separated comparators or if fallback produced original.
    assert!(c.contains(">=2.1.2") && c.contains("<3.0.0"));
}

#[test]
fn canonicalize_inserts_comma_between_comparators() {
    let inp = "^3.1.0 < 4";
    let out = canonicalize_npm_range(inp);
    assert_eq!(out, "^3.1.0, < 4");
    assert!(VersionReq::parse(&out).is_ok());
}

#[test]
fn canonicalize_leaves_single_comparator() {
    let inp = "^2.0.0";
    let out = canonicalize_npm_range(inp);
    assert_eq!(out, "^2.0.0");
    assert!(VersionReq::parse(&out).is_ok());
}

#[test]
fn canonicalize_more_shapes() {
    assert_eq!(canonicalize_npm_range(""), "*");
    assert_eq!(canonicalize_npm_range("latest"), "*");
    assert_eq!(canonicalize_npm_range("1"), "^1.0.0");
    assert_eq!(canonicalize_npm_range("1.2"), ">=1.2.0, <1.3.0");
    assert_eq!(canonicalize_npm_range("1.2.3"), "=1.2.3");
    assert_eq!(canonicalize_npm_range("^1 || ^2"), "^1 || ^2");
    // a junk token is handed back for the solver to reject
    assert_eq!(canonicalize_npm_range("not a range"), "not a range");
}

#[test]
fn canonical_outputs_parse_under_the_solver() {
    for inp in ["1.x", "1.*", "^1.0.0 <1.9", "1.2.x", "1", "1.2", "2.0.0-rc.1"] {
        let out = canonicalize_npm_range(inp);
        assert!(out == "*" || VersionReq::parse(&out).is_ok());
    }
    // the expanded wildcard keeps its meaning
    let req = VersionReq::parse(&canonicalize_npm_range("1.x")).unwrap();
    assert!(req.matches(&semver::Version::parse("1.5.0").unwrap()));
    assert!(!req.matches(&semver::Version::parse("2.0.0").unwrap()));
    let req2 = VersionReq::parse(&canonicalize_npm_range("^1.0.0 <1.9")).unwrap();
    assert!(req2.matches(&semver::Version::parse("1.5.0").unwrap()));
    assert!(!req2.matches(&semver::Version::parse("1.9.1").unwrap()));
}

#[test]
fn quote_unix() {
    assert_eq!(quote_arg_for_shell("abc", false), "abc");
    assert_eq!(quote_arg_for_shell("a b", false), "'a b'");
    assert_eq!(quote_arg_for_shell("it's", false), "'it'\\''s'");
    let args = vec!["--watch".to_string()];
    assert_eq!(build_script_command("node build.js", &args, false), "node build.js '--watch'");
}

#[test]
fn quote_windows() {
    assert_eq!(quote_arg_for_shell("abc", true), "abc");
    assert_eq!(quote_arg_for_shell("a b", true), "\"a b\"");
    let args = vec!["--watch".to_string()];
    assert_eq!(build_script_command("node build.js", &args, true), "node build.js \"--watch\"");
}

#[test]
fn quote_empty_argument() {
    assert_eq!(quote_arg_for_shell("", false), "''");
}

#[test]
fn specifier_classification() {
    match PackageSpec::parse("npm:^1.0.0") {
        PackageSpec::Registry { range } => assert_eq!(range, "^1.0.0"),
        _ => panic!("expected a registry range"),
    }
    match PackageSpec::parse("octo/hello.git#main") {
        PackageSpec::Github(spec) => {
            assert_eq!(spec.owner, "octo");
            assert_eq!(spec.repo, "hello");
            assert_eq!(spec.reference.as_deref(), Some("main"));
        },
        _ => panic!("expected a git-host spec"),
    }
    match PackageSpec::parse("https://example.test/pkg-1.0.0.tgz") {
        PackageSpec::Tarball { url } => assert_eq!(url, "https://example.test/pkg-1.0.0.tgz"),
        _ => panic!("expected a tarball spec"),
    }
    match PackageSpec::parse("^2.1.0") {
        PackageSpec::Registry { range } => assert_eq!(range, "^2.1.0"),
        _ => panic!("expected a registry range"),
    }
}

#[test]
fn guessing_names_from_sources() {
    assert_eq!(guess_name_from_spec("octo/hello"), Some("hello".to_string()));
    assert_eq!(
        guess_name_from_spec("https://example.test/dl/pkg-1.0.0.tgz?x=1"),
        Some("pkg-1.0.0".to_string())
    );
    assert_eq!(guess_name_from_spec("^1.0.0"), None);
}

#[test]
fn command_line_specifiers() {
    assert_eq!(parse_spec("zeta@1.0.0"), ("zeta".to_string(), "1.0.0".to_string()));
    assert_eq!(parse_spec("zeta"), ("zeta".to_string(), "*".to_string()));
    assert_eq!(parse_spec("@scope/pkg@^2"), ("@scope/pkg".to_string(), "^2".to_string()));
    assert_eq!(parse_spec("@scope/pkg"), ("@scope/pkg".to_string(), "*".to_string()));
}

#[test]
fn integrity_round_trip_and_mismatch() {
    let bytes = b"tarball bytes".to_vec();
    let digest = sha2::Sha512::digest(&bytes).to_vec();
    let hint = format_integrity(&digest);
    assert!(hint.starts_with("sha512-"));
    assert!(check_integrity(&digest, &hint).is_ok());
    // a hint over different bytes must be refused
    let other = sha2::Sha512::digest(b"other bytes").to_vec();
    let bad_hint = format_integrity(&other);
    assert_eq!(check_integrity(&digest, &bad_hint), Err(StoreError::IntegrityMismatch));
    // a non-digest hint is not a declaration and passes
    assert!(check_integrity(&digest, "sha1-whatever").is_ok());
    // an undecodable payload is refused
    assert_eq!(
        check_integrity(&digest, "sha512-!!!"),
        Err(StoreError::IntegrityUndecodable)
    );
}

#[test]
fn hex_matches_the_specification() {
    let v = vec![0u8, 1, 0xab, 0xff];
    assert_eq!(hex_encode(&v), "0001abff");
}

#[test]
fn short_hash_is_the_digest_prefix() {
    let h = short_hash("https://example.test/a.tgz");
    let full = hex::encode(sha2::Sha256::digest("https://example.test/a.tgz".as_bytes()));
    assert_eq!(h, full[..8]);
}

#[test]
fn graph_hash_matches_the_framing() {
    let deps = vec![
        DependencyFingerprint {
            name: "beta".to_string(),
            version: "2.0.0".to_string(),
            store_key: None,
        },
        DependencyFingerprint {
            name: "alpha".to_string(),
            version: "1.0.0".to_string(),
            store_key: Some("alpha@1.0.0::H".to_string()),
        },
    ];
    let (hash, key) = compute_graph_hash("pkg", "1.0.0", &deps);
    // the same digest computed directly over the sorted JSON framing
    let json = "[{\"name\":\"alpha\",\"version\":\"1.0.0\",\"store_key\":\"alpha@1.0.0::H\"},{\"name\":\"beta\",\"version\":\"2.0.0\",\"store_key\":null}]";
    let expected = data_encoding::BASE32_NOPAD.encode(&sha2::Sha256::digest(json.as_bytes()));
    assert_eq!(hash, expected);
    assert_eq!(key, format!("pkg@1.0.0::{expected}"));
}

#[test]
fn store_keys_split_back() {
    let r = split_store_key("@scope/pkg@1.2.3::ABCDEF").unwrap();
    assert_eq!(r.0, "@scope/pkg");
    assert_eq!(r.1, "1.2.3");
    assert_eq!(r.2, "ABCDEF");
    assert!(split_store_key("no separators here").is_none());
}

#[test]
fn platform_lists() {
    let none: Vec<String> = vec![];
    assert!(platform_supported(&none, &none, "linux", "x64"));
    let deny = vec!["!linux".to_string()];
    assert!(!platform_supported(&deny, &none, "linux", "x64"));
    assert!(platform_supported(&deny, &none, "darwin", "x64"));
    let allow = vec!["darwin".to_string(), "win32".to_string()];
    assert!(!platform_supported(&allow, &none, "linux", "x64"));
    assert!(platform_supported(&allow, &none, "win32", "x64"));
    let cpu = vec!["!arm64".to_string()];
    assert!(!platform_supported(&none, &cpu, "linux", "arm64"));
}

#[test]
fn resolver_picks_highest_matching() {
    let resolver = Resolver::new();
    let versions = vec![
        ("1.0.0".to_string(), "u1".to_string()),
        ("2.1.3".to_string(), "u2".to_string()),
        ("3.0.0-rc.1".to_string(), "u3".to_string()),
    ];
    let picked = resolver.pick_version(&versions, "^1 || ^2").unwrap();
    assert_eq!(picked.0, "2.1.3");
    assert_eq!(picked.1, "u2");
    let exact = resolver.pick_version(&versions, "1.0.0").unwrap();
    assert_eq!(exact.0, "1.0.0");
    assert_eq!(resolver.pick_version(&versions, "^9"), Err(ResolveError::NoMatch));
    assert_eq!(resolver.pick_version(&versions, "||"), Err(ResolveError::EmptyOrRange));
    assert_eq!(resolver.pick_version(&versions, "not a range"), Err(ResolveError::InvalidRange));
}

#[test]
fn path_helpers() {
    assert_eq!(cache_package_path("@scope/pkg", "1.0.0"), "pkgs/@scope/pkg/1.0.0/package");
    assert_eq!(package_path("abcdef"), "sha512/ab/abcdef/package");
    assert_eq!(safe_join("base", "inner/file.js"), Some("base/inner/file.js".to_string()));
    assert_eq!(safe_join("base", "../escape"), None);
    assert_eq!(sanitize_for_fs("@scope/pkg"), "@scope_pkg");
    assert_eq!(sanitize_for_fs(""), "_");
}

#[test]
fn workspace_ranges() {
    assert!(pacm::spec_parse::workspace_dep_satisfies("workspace:*", "1.2.3"));
    assert!(pacm::spec_parse::workspace_dep_satisfies("workspace:", "1.2.3"));
    assert!(pacm::spec_parse::workspace_dep_satisfies("workspace:^1.0.0", "1.2.3"));
    assert!(!pacm::spec_parse::workspace_dep_satisfies("workspace:^2", "1.2.3"));
    assert!(pacm::spec_parse::workspace_dep_satisfies("workspace:weird-tag", "weird-tag"));
}
