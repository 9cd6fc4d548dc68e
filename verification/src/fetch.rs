//! The registry client's data shapes and configuration. The network calls
//! themselves live outside the library; the resolver and graph builder work
//! on these plain records.

use vstd::prelude::*;

verus! {

use crate::smap::StrMap;
use crate::lockfile::PeerMeta;

/// Distribution data of one published version.
pub struct NpmDist {
    pub tarball: String,
    pub integrity: Option<String>,
    pub shasum: Option<String>,
}

/// Registry metadata of one published version.
pub struct NpmVersion {
    pub version: String,
    pub dist: NpmDist,
    pub dependencies: StrMap<String>,
    pub optional_dependencies: StrMap<String>,
    pub peer_dependencies: StrMap<String>,
    pub peer_dependencies_meta: StrMap<PeerMeta>,
    pub os: Vec<String>,
    pub cpu_arch: Vec<String>,
    pub scripts: StrMap<String>,
}

/// Registry metadata of a package: its distribution tags and versions.
pub struct NpmMetadata {
    pub dist_tags: Option<StrMap<String>>,
    pub versions: StrMap<NpmVersion>,
}

/// The manifest fields read from a cached package tree.
pub struct CachedManifest {
    pub name: Option<String>,
    pub version: Option<String>,
    pub dependencies: StrMap<String>,
    pub dev_dependencies: StrMap<String>,
    pub optional_dependencies: StrMap<String>,
    pub peer_dependencies: StrMap<String>,
    pub peer_dependencies_meta: StrMap<PeerMeta>,
    pub bin: Option<BinField>,
    pub scripts: StrMap<String>,
    pub os: Vec<String>,
    pub cpu_arch: Vec<String>,
}

/// A manifest's `bin` field: one path named after the package, or a map of
/// shim names to paths.
pub enum BinField {
    Single(String),
    Named(StrMap<String>),
}

/// The registry client configuration: only the registry base address.
pub struct Fetcher {
    pub registry: String,
}

impl Fetcher {
    /// A fetcher against the given registry, or the mainstream public one.
    pub fn new(registry: Option<String>) -> (r: Self)
        ensures
            match registry {
                Some(u) => r.registry@ == u@,
                None => r.registry@ == "https://registry.npmjs.org"@,
            },
    {
        match registry {
            Some(u) => Fetcher { registry: u },
            None => Fetcher { registry: String::from_str("https://registry.npmjs.org") },
        }
    }
}

/// The candidates a metadata record offers the resolver, in map order: each
/// version whose text the solver accepts, with its tarball address.
pub open spec fn accepted_candidates(vs: Seq<(Seq<char>, NpmVersion)>) -> Seq<
    (Seq<char>, Seq<char>),
>
    decreases vs.len(),
{
    if vs.len() == 0 {
        Seq::empty()
    } else {
        let rest = accepted_candidates(vs.drop_last());
        if crate::vers::semver_version_ok(vs.last().1.version@) {
            rest.push((vs.last().1.version@, vs.last().1.dist.tarball@))
        } else {
            rest
        }
    }
}

/// Build that candidate list.
pub fn map_versions(meta: &NpmMetadata) -> (r: Vec<(String, String)>)
    requires
        meta.versions.wf(),
    ensures
        crate::resolver::cand_views(r@) == accepted_candidates(meta.versions.pairs_view()),
{
    let mut out: Vec<(String, String)> = Vec::new();
    let n = meta.versions.len();
    let mut i: usize = 0;
    proof {
        assert(meta.versions.pairs_view().take(0)
            =~= Seq::<(Seq<char>, NpmVersion)>::empty());
        assert(crate::resolver::cand_views(out@) =~= accepted_candidates(
            meta.versions.pairs_view().take(0),
        ));
    }
    while i < n
        invariant
            meta.versions.wf(),
            n == meta.versions.spec_len(),
            i <= n,
            crate::resolver::cand_views(out@) == accepted_candidates(
                meta.versions.pairs_view().take(i as int),
            ),
        decreases n - i,
    {
        let ghost oldout = out@;
        let v = meta.versions.val_at(i);
        proof {
            assert(meta.versions.pairs_view().take(i + 1).drop_last() =~= meta.versions
                .pairs_view().take(i as int));
            assert(meta.versions.pairs_view().take(i + 1).last() == meta.versions.pairs_view()[
                i as int
            ]);
        }
        if crate::vers::version_parse_ok(v.version.as_str()) {
            out.push((v.version.clone(), v.dist.tarball.clone()));
            proof {
                assert(crate::resolver::cand_views(out@) =~= crate::resolver::cand_views(
                    oldout,
                ).push((v.version@, v.dist.tarball@)));
            }
        }
        i = i + 1;
    }
    proof {
        assert(meta.versions.pairs_view().take(n as int) =~= meta.versions.pairs_view());
    }
    out
}

} // verus!
