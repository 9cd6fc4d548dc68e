//! The lockfile data model: one entry per installed package, keyed by
//! `""` for the project root or `node_modules/<name>` for a dependency,
//! together with the operations that keep it in step with the manifest.

use vstd::prelude::*;

verus! {

use crate::smap::StrMap;
use crate::manifest::Manifest;
use vstd::string::{StringExecFns, StrSliceExecFns};

#[derive(Clone, Copy, PartialEq, Eq, Structural, Debug)]
pub struct PeerMeta {
    pub optional: bool,
}

pub struct PackageEntry {
    pub version: Option<String>,
    pub integrity: Option<String>,
    pub resolved: Option<String>,
    pub dependencies: StrMap<String>,
    pub dev_dependencies: StrMap<String>,
    pub optional_dependencies: StrMap<String>,
    pub peer_dependencies: StrMap<String>,
    pub peer_dependencies_meta: StrMap<PeerMeta>,
    pub os: Vec<String>,
    pub cpu_arch: Vec<String>,
    pub store_key: Option<String>,
    pub content_hash: Option<String>,
    pub link_mode: Option<String>,
    pub store_path: Option<String>,
}

/// Mathematical image of a `PackageEntry`: all strings as character
/// sequences, the maps as their sorted pair lists.
#[verifier::ext_equal]
pub ghost struct EntryView {
    pub version: Option<Seq<char>>,
    pub integrity: Option<Seq<char>>,
    pub resolved: Option<Seq<char>>,
    pub dependencies: Seq<(Seq<char>, Seq<char>)>,
    pub dev_dependencies: Seq<(Seq<char>, Seq<char>)>,
    pub optional_dependencies: Seq<(Seq<char>, Seq<char>)>,
    pub peer_dependencies: Seq<(Seq<char>, Seq<char>)>,
    pub peer_dependencies_meta: Seq<(Seq<char>, bool)>,
    pub os: Seq<Seq<char>>,
    pub cpu_arch: Seq<Seq<char>>,
    pub store_key: Option<Seq<char>>,
    pub content_hash: Option<Seq<char>>,
    pub link_mode: Option<Seq<char>>,
    pub store_path: Option<Seq<char>>,
}

/// View of an optional string.
pub open spec fn ostr(o: Option<String>) -> Option<Seq<char>> {
    match o {
        Option::None => Option::None,
        Option::Some(s) => Option::Some(s@),
    }
}

/// View of a string list.
pub open spec fn vstrs(v: Seq<String>) -> Seq<Seq<char>> {
    v.map_values(|s: String| s@)
}

/// View of a peer-meta map as key/flag pairs.
pub open spec fn peer_pairs(m: StrMap<PeerMeta>) -> Seq<(Seq<char>, bool)> {
    m.pairs_view().map_values(|p: (Seq<char>, PeerMeta)| (p.0, p.1.optional))
}

impl PackageEntry {
    pub open spec fn wf(self) -> bool {
        &&& self.dependencies.wf()
        &&& self.dev_dependencies.wf()
        &&& self.optional_dependencies.wf()
        &&& self.peer_dependencies.wf()
        &&& self.peer_dependencies_meta.wf()
    }

    pub open spec fn view(self) -> EntryView {
        EntryView {
            version: ostr(self.version),
            integrity: ostr(self.integrity),
            resolved: ostr(self.resolved),
            dependencies: self.dependencies.str_pairs(),
            dev_dependencies: self.dev_dependencies.str_pairs(),
            optional_dependencies: self.optional_dependencies.str_pairs(),
            peer_dependencies: self.peer_dependencies.str_pairs(),
            peer_dependencies_meta: peer_pairs(self.peer_dependencies_meta),
            os: vstrs(self.os@),
            cpu_arch: vstrs(self.cpu_arch@),
            store_key: ostr(self.store_key),
            content_hash: ostr(self.content_hash),
            link_mode: ostr(self.link_mode),
            store_path: ostr(self.store_path),
        }
    }
}

impl EntryView {
    /// The view of an entry with no resolution data at all.
    pub open spec fn empty() -> EntryView {
        EntryView {
            version: Option::None,
            integrity: Option::None,
            resolved: Option::None,
            dependencies: Seq::empty(),
            dev_dependencies: Seq::empty(),
            optional_dependencies: Seq::empty(),
            peer_dependencies: Seq::empty(),
            peer_dependencies_meta: Seq::empty(),
            os: Seq::empty(),
            cpu_arch: Seq::empty(),
            store_key: Option::None,
            content_hash: Option::None,
            link_mode: Option::None,
            store_path: Option::None,
        }
    }
}

/// A fresh entry with every field empty.
pub fn empty_entry() -> (r: PackageEntry)
    ensures
        r.wf(),
        r.view() =~~= EntryView::empty(),
{
    let r = PackageEntry {
        version: None,
        integrity: None,
        resolved: None,
        dependencies: StrMap::new(),
        dev_dependencies: StrMap::new(),
        optional_dependencies: StrMap::new(),
        peer_dependencies: StrMap::new(),
        peer_dependencies_meta: StrMap::new(),
        os: Vec::new(),
        cpu_arch: Vec::new(),
        store_key: None,
        content_hash: None,
        link_mode: None,
        store_path: None,
    };
    proof {
        assert(r.view().dependencies =~= Seq::<(Seq<char>, Seq<char>)>::empty());
        assert(r.view().dev_dependencies =~= Seq::<(Seq<char>, Seq<char>)>::empty());
        assert(r.view().optional_dependencies =~= Seq::<(Seq<char>, Seq<char>)>::empty());
        assert(r.view().peer_dependencies =~= Seq::<(Seq<char>, Seq<char>)>::empty());
        assert(r.view().peer_dependencies_meta =~= Seq::<(Seq<char>, bool)>::empty());
        assert(r.view().os =~= Seq::<Seq<char>>::empty());
        assert(r.view().cpu_arch =~= Seq::<Seq<char>>::empty());
    }
    r
}

/// A copy of an optional string.
pub fn clone_opt_string(o: &Option<String>) -> (r: Option<String>)
    ensures
        r == *o,
{
    match o {
        None => None,
        Some(s) => Some(s.clone()),
    }
}

/// A copy of a string list.
pub fn clone_strings(v: &Vec<String>) -> (r: Vec<String>)
    ensures
        r@ == v@,
{
    let mut r: Vec<String> = Vec::new();
    let mut i: usize = 0;
    let n = v.len();
    while i < n
        invariant
            n == v@.len(),
            i <= n,
            r@.len() == i,
            forall|j: int| 0 <= j < i ==> r@[j] == v@[j],
        decreases n - i,
    {
        r.push(v[i].clone());
        i = i + 1;
    }
    proof {
        assert(r@ =~= v@);
    }
    r
}

/// A copy of a peer-meta map.
pub fn clone_peer_map(m: &StrMap<PeerMeta>) -> (r: StrMap<PeerMeta>)
    requires
        m.wf(),
    ensures
        r.wf(),
        r.pairs_view() == m.pairs_view(),
{
    let mut r: StrMap<PeerMeta> = StrMap::new();
    let n = m.len();
    let mut i: usize = 0;
    while i < n
        invariant
            m.wf(),
            r.wf(),
            n == m.spec_len(),
            i <= n,
            r.pairs_view() =~= m.pairs_view().take(i as int),
        decreases n - i,
    {
        let k = m.key_at(i).clone();
        let v = *m.val_at(i);
        proof {
            assert forall|j: int| 0 <= j < r.pairs_view().len() implies crate::strutil::seq_char_lt(
                (#[trigger] r.pairs_view()[j]).0,
                k@,
            ) by {
                assert(r.pairs_view()[j] == m.pairs_view()[j]);
            }
        }
        r.insert(k, v);
        proof {
            assert(r.pairs_view() =~= m.pairs_view().take(i + 1));
        }
        i = i + 1;
    }
    proof {
        assert(m.pairs_view().take(n as int) =~= m.pairs_view());
    }
    r
}

/// A copy of a package entry.
pub fn clone_entry(e: &PackageEntry) -> (r: PackageEntry)
    requires
        e.wf(),
    ensures
        r.wf(),
        r.view() =~~= e.view(),
{
    PackageEntry {
        version: clone_opt_string(&e.version),
        integrity: clone_opt_string(&e.integrity),
        resolved: clone_opt_string(&e.resolved),
        dependencies: e.dependencies.duplicate(),
        dev_dependencies: e.dev_dependencies.duplicate(),
        optional_dependencies: e.optional_dependencies.duplicate(),
        peer_dependencies: e.peer_dependencies.duplicate(),
        peer_dependencies_meta: clone_peer_map(&e.peer_dependencies_meta),
        os: clone_strings(&e.os),
        cpu_arch: clone_strings(&e.cpu_arch),
        store_key: clone_opt_string(&e.store_key),
        content_hash: clone_opt_string(&e.content_hash),
        link_mode: clone_opt_string(&e.link_mode),
        store_path: clone_opt_string(&e.store_path),
    }
}

pub struct Lockfile {
    pub format: u32,
    pub packages: StrMap<PackageEntry>,
}

/// The lockfile key of an installed package.
pub open spec fn nm_key(name: Seq<char>) -> Seq<char> {
    "node_modules/"@ + name
}

/// Build the `node_modules/<name>` key.
pub fn make_nm_key(name: &str) -> (r: String)
    ensures
        r@ == nm_key(name@),
{
    let mut r = String::from_str("node_modules/");
    r.append(name);
    r
}

impl Lockfile {
    pub open spec fn wf(self) -> bool {
        &&& self.packages.wf()
        &&& forall|k: Seq<char>| #[trigger]
            self.packages.as_map().contains_key(k) ==> self.packages.as_map()[k].wf()
    }

    /// The abstract map from lockfile key to entry view.
    pub open spec fn packages_map(self) -> Map<Seq<char>, EntryView> {
        self.packages.as_map().map_values(|e: PackageEntry| e.view())
    }

    /// Entry views in key order, as the codec writes them.
    pub open spec fn packages_pairs(self) -> Seq<(Seq<char>, EntryView)> {
        self.packages.pairs_view().map_values(|p: (Seq<char>, PackageEntry)| (p.0, p.1.view()))
    }

    /// Every entry stored in the pair list of a well-formed lockfile is
    /// well-formed.
    pub proof fn lemma_entry_at_wf(self, i: int)
        requires
            self.wf(),
            0 <= i < self.packages.pairs_view().len(),
        ensures
            self.packages.pairs_view()[i].1.wf(),
    {
        self.packages.lemma_as_map_at(i);
    }
}

impl Default for Lockfile {
    /// A lockfile for a project with nothing installed yet.
    fn default() -> (r: Self)
        ensures
            r.wf(),
            r.format == 1u32,
            r.packages_map() =~~= Map::<Seq<char>, EntryView>::empty(),
            r.packages.spec_len() == 0,
    {
        let r = Lockfile { format: 1, packages: StrMap::new() };
        proof {
            assert(r.packages_map() =~~= Map::<Seq<char>, EntryView>::empty());
        }
        r
    }
}

/// True when the lockfile records nothing worth keeping on disk: either no
/// entries at all, or only a root entry that declares no dependencies.
pub open spec fn spec_lockfile_has_no_packages(lf: Lockfile) -> bool {
    if lf.packages.as_map().contains_key(Seq::<char>::empty()) {
        &&& lf.packages.spec_len() == 1
        &&& lf.packages.as_map()[Seq::<char>::empty()].view().dependencies.len() == 0
        &&& lf.packages.as_map()[Seq::<char>::empty()].view().dev_dependencies.len() == 0
        &&& lf.packages.as_map()[Seq::<char>::empty()].view().optional_dependencies.len() == 0
        &&& lf.packages.as_map()[Seq::<char>::empty()].view().peer_dependencies.len() == 0
    } else {
        lf.packages.spec_len() == 0
    }
}

pub fn lockfile_has_no_packages(lock: &Lockfile) -> (r: bool)
    requires
        lock.wf(),
    ensures
        r == spec_lockfile_has_no_packages(*lock),
{
    match lock.packages.get("") {
        Some(root) => {
            let only_root = lock.packages.len() == 1;
            let no_deps = root.dependencies.is_empty() && root.dev_dependencies.is_empty()
                && root.optional_dependencies.is_empty() && root.peer_dependencies.is_empty();
            proof {
                reveal_strlit("");
                assert(""@ =~= Seq::<char>::empty());
            }
            only_root && no_deps
        },
        None => {
            proof {
                reveal_strlit("");
                assert(""@ =~= Seq::<char>::empty());
            }
            lock.packages.len() == 0
        },
    }
}

impl Manifest {
    /// True when the manifest declares `name` in an installable section
    /// (peers are not installable).
    pub open spec fn declares(self, name: Seq<char>) -> bool {
        ||| self.dependencies.as_map().contains_key(name)
        ||| self.dev_dependencies.as_map().contains_key(name)
        ||| self.optional_dependencies.as_map().contains_key(name)
    }
}

/// Add an empty entry under `node_modules/<name>` for every listed name that
/// has no entry yet; existing entries are untouched.
fn ensure_empty_entries(lock: &mut Lockfile, names: &Vec<String>)
    requires
        old(lock).wf(),
    ensures
        final(lock).wf(),
        final(lock).format == old(lock).format,
        forall|i: int|
            0 <= i < names@.len() ==> final(lock).packages_map().contains_key(
                nm_key((#[trigger] names@[i])@),
            ),
        forall|k: Seq<char>| #[trigger]
            old(lock).packages_map().contains_key(k) ==> final(lock).packages_map().contains_key(k)
                && final(lock).packages_map()[k] == old(lock).packages_map()[k],
        forall|k: Seq<char>| #[trigger]
            final(lock).packages_map().contains_key(k) ==> old(lock).packages_map().contains_key(k)
                || (final(lock).packages_map()[k] =~~= EntryView::empty() && exists|i: int|
                0 <= i < names@.len() && k == nm_key((#[trigger] names@[i])@)),
{
    let n = names.len();
    let mut i: usize = 0;
    while i < n
        invariant
            n == names@.len(),
            i <= n,
            lock.wf(),
            lock.format == old(lock).format,
            forall|j: int|
                0 <= j < i ==> lock.packages_map().contains_key(nm_key((#[trigger] names@[j])@)),
            forall|k: Seq<char>| #[trigger]
                old(lock).packages_map().contains_key(k) ==> lock.packages_map().contains_key(k)
                    && lock.packages_map()[k] == old(lock).packages_map()[k],
            forall|k: Seq<char>| #[trigger]
                lock.packages_map().contains_key(k) ==> old(lock).packages_map().contains_key(k)
                    || (lock.packages_map()[k] =~~= EntryView::empty() && exists|j: int|
                    0 <= j < i && k == nm_key((#[trigger] names@[j])@)),
        decreases n - i,
    {
        let key = make_nm_key(names[i].as_str());
        if !lock.packages.contains_key(key.as_str()) {
            let ghost prev = *lock;
            let entry = empty_entry();
            let ghost eview = entry.view();
            lock.packages.insert(key, entry);
            proof {
                assert(lock.packages.as_map() =~= prev.packages.as_map().insert(key@, entry));
                assert(lock.packages_map() =~~= prev.packages_map().insert(key@, eview));
                assert(eview =~~= EntryView::empty());
            }
        }
        i = i + 1;
    }
}

impl Lockfile {
    /// Bring the lockfile in step with the manifest: the root entry carries
    /// the manifest's version and dependency sections, and every declared
    /// installable name has an entry.
    pub fn sync_from_manifest(&mut self, manifest: &Manifest)
        requires
            old(self).wf(),
            manifest.wf(),
        ensures
            final(self).wf(),
            final(self).format == old(self).format,
            final(self).packages_map().contains_key(Seq::<char>::empty()),
            ({
                let root = final(self).packages_map()[Seq::<char>::empty()];
                let prev_root = if old(self).packages_map().contains_key(Seq::<char>::empty()) {
                    old(self).packages_map()[Seq::<char>::empty()]
                } else {
                    EntryView::empty()
                };
                &&& root.version == Option::Some(manifest.version@)
                &&& root.dependencies == manifest.dependencies.str_pairs()
                &&& root.dev_dependencies == manifest.dev_dependencies.str_pairs()
                &&& root.optional_dependencies == manifest.optional_dependencies.str_pairs()
                &&& root.peer_dependencies == manifest.peer_dependencies.str_pairs()
                &&& root.peer_dependencies_meta == Seq::<(Seq<char>, bool)>::empty()
                &&& root.integrity == prev_root.integrity
                &&& root.resolved == prev_root.resolved
                &&& root.os == prev_root.os
                &&& root.cpu_arch == prev_root.cpu_arch
                &&& root.store_key == prev_root.store_key
                &&& root.content_hash == prev_root.content_hash
                &&& root.link_mode == prev_root.link_mode
                &&& root.store_path == prev_root.store_path
            }),
            forall|name: Seq<char>| #[trigger]
                manifest.declares(name) ==> final(self).packages_map().contains_key(nm_key(name)),
            forall|k: Seq<char>|
                #[trigger] old(self).packages_map().contains_key(k) && k != Seq::<char>::empty()
                    ==> final(self).packages_map().contains_key(k) && final(self).packages_map()[k]
                    == old(self).packages_map()[k],
            forall|k: Seq<char>| #[trigger]
                final(self).packages_map().contains_key(k) ==> k == Seq::<char>::empty() || old(
                    self,
                ).packages_map().contains_key(k) || (exists|name: Seq<char>|
                    #[trigger] manifest.declares(name) && k == nm_key(name)
                    && final(self).packages_map()[k] =~~= EntryView::empty()),
    {
        let mut root = match self.packages.get("") {
            Some(e) => {
                proof {
                    reveal_strlit("");
                    assert(""@ =~= Seq::<char>::empty());
                }
                clone_entry(e)
            },
            None => empty_entry(),
        };
        proof {
            reveal_strlit("");
            assert(""@ =~= Seq::<char>::empty());
        }
        root.version = Some(manifest.version.clone());
        root.dependencies = manifest.dependencies.duplicate();
        root.dev_dependencies = manifest.dev_dependencies.duplicate();
        root.optional_dependencies = manifest.optional_dependencies.duplicate();
        root.peer_dependencies = manifest.peer_dependencies.duplicate();
        root.peer_dependencies_meta = StrMap::new();
        let ghost prev = *self;
        let ghost rootview = root.view();
        self.packages.insert(String::from_str(""), root);
        proof {
            assert(self.packages_map() =~~= prev.packages_map().insert(Seq::<char>::empty(), rootview));
            assert(rootview.peer_dependencies_meta =~= Seq::<(Seq<char>, bool)>::empty());
        }
        let ghost mid = *self;
        let deps_names = manifest.dependencies.keys();
        ensure_empty_entries(self, &deps_names);
        let ghost mid1 = *self;
        let dev_names = manifest.dev_dependencies.keys();
        ensure_empty_entries(self, &dev_names);
        let ghost mid2 = *self;
        let opt_names = manifest.optional_dependencies.keys();
        ensure_empty_entries(self, &opt_names);
        proof {
            assert(mid.packages_map() == prev.packages_map().insert(
                Seq::<char>::empty(),
                rootview,
            ));
            assert(mid.packages_map().contains_key(Seq::<char>::empty()));
            assert(mid.packages_map()[Seq::<char>::empty()] == rootview);
            assert(mid1.packages_map().contains_key(Seq::<char>::empty()));
            assert(mid1.packages_map()[Seq::<char>::empty()] == rootview);
            assert(mid2.packages_map().contains_key(Seq::<char>::empty()));
            assert(mid2.packages_map()[Seq::<char>::empty()] == rootview);
            assert(self.packages_map().contains_key(Seq::<char>::empty()));
            assert(self.packages_map()[Seq::<char>::empty()] == rootview);
            assert(rootview.version == Option::Some(manifest.version@));
            assert(rootview.dependencies == manifest.dependencies.str_pairs());
            assert(rootview.dev_dependencies == manifest.dev_dependencies.str_pairs());
            assert(rootview.optional_dependencies == manifest.optional_dependencies.str_pairs());
            assert(rootview.peer_dependencies == manifest.peer_dependencies.str_pairs());
            assert forall|k: Seq<char>|
                #[trigger] old(self).packages_map().contains_key(k) && k != Seq::<char>::empty()
                    implies self.packages_map().contains_key(k) && self.packages_map()[k] == old(
                self,
            ).packages_map()[k] by {
                assert(mid.packages_map().contains_key(k));
                assert(mid.packages_map()[k] == old(self).packages_map()[k]);
                assert(mid1.packages_map().contains_key(k));
                assert(mid1.packages_map()[k] == old(self).packages_map()[k]);
                assert(mid2.packages_map().contains_key(k));
                assert(mid2.packages_map()[k] == old(self).packages_map()[k]);
            }
            assert forall|name: Seq<char>| #[trigger] manifest.declares(name) implies self
                .packages_map().contains_key(nm_key(name)) by {
                if manifest.dependencies.as_map().contains_key(name) {
                    let i = crate::smap::pair_index_of(manifest.dependencies.pairs_view(), name);
                    assert(deps_names@[i]@ == name);
                } else if manifest.dev_dependencies.as_map().contains_key(name) {
                    let i = crate::smap::pair_index_of(manifest.dev_dependencies.pairs_view(), name);
                    assert(dev_names@[i]@ == name);
                } else {
                    let i = crate::smap::pair_index_of(
                        manifest.optional_dependencies.pairs_view(),
                        name,
                    );
                    assert(opt_names@[i]@ == name);
                }
            }
            assert forall|k: Seq<char>| #[trigger] self.packages_map().contains_key(k) implies k
                == Seq::<char>::empty() || old(self).packages_map().contains_key(k) || (exists|
                name: Seq<char>,
            |
                #[trigger] manifest.declares(name) && k == nm_key(name)
                && self.packages_map()[k] =~~= EntryView::empty()) by {
                if k != Seq::<char>::empty() && !old(self).packages_map().contains_key(k) {
                    if mid2.packages_map().contains_key(k) {
                        if mid1.packages_map().contains_key(k) {
                            if mid.packages_map().contains_key(k) {
                            } else {
                                let i = choose|i: int|
                                    0 <= i < deps_names@.len() && k == nm_key(
                                        (#[trigger] deps_names@[i])@,
                                    );
                                assert(manifest.dependencies.as_map().contains_key(
                                    deps_names@[i]@,
                                )) by {
                                    assert(manifest.dependencies.pairs_view()[i].0
                                        == deps_names@[i]@);
                                }
                                assert(manifest.declares(deps_names@[i]@));
                            }
                        } else {
                            let i = choose|i: int|
                                0 <= i < dev_names@.len() && k == nm_key(
                                    (#[trigger] dev_names@[i])@,
                                );
                            assert(manifest.dev_dependencies.as_map().contains_key(dev_names@[i]@))
                                by {
                                assert(manifest.dev_dependencies.pairs_view()[i].0
                                    == dev_names@[i]@);
                            }
                            assert(manifest.declares(dev_names@[i]@));
                        }
                    } else {
                        let i = choose|i: int|
                            0 <= i < opt_names@.len() && k == nm_key((#[trigger] opt_names@[i])@);
                        assert(manifest.optional_dependencies.as_map().contains_key(
                            opt_names@[i]@,
                        )) by {
                            assert(manifest.optional_dependencies.pairs_view()[i].0
                                == opt_names@[i]@);
                        }
                        assert(manifest.declares(opt_names@[i]@));
                    }
                }
            }
        }
    }
}

/// Drop the lockfile entries of the named packages.
pub fn prune_removed_from_lock(lock: &mut Lockfile, removed: &Vec<String>)
    requires
        old(lock).wf(),
    ensures
        final(lock).wf(),
        final(lock).format == old(lock).format,
        forall|k: Seq<char>|
            final(lock).packages_map().contains_key(k) <==> (old(lock).packages_map().contains_key(
                k,
            ) && !(exists|i: int| 0 <= i < removed@.len() && k == nm_key((#[trigger] removed@[i])@))),
        forall|k: Seq<char>| #[trigger]
            final(lock).packages_map().contains_key(k) ==> final(lock).packages_map()[k]
                =~~= old(lock).packages_map()[k],
{
    let n = removed.len();
    let mut i: usize = 0;
    while i < n
        invariant
            n == removed@.len(),
            i <= n,
            lock.wf(),
            lock.format == old(lock).format,
            forall|k: Seq<char>|
                lock.packages_map().contains_key(k) <==> (old(lock).packages_map().contains_key(k)
                    && !(exists|j: int| 0 <= j < i && k == nm_key((#[trigger] removed@[j])@))),
            forall|k: Seq<char>| #[trigger]
                lock.packages_map().contains_key(k) ==> lock.packages_map()[k] =~~= old(
                    lock,
                ).packages_map()[k],
        decreases n - i,
    {
        let key = make_nm_key(removed[i].as_str());
        let ghost prev = *lock;
        lock.packages.remove(key.as_str());
        proof {
            assert(lock.packages_map() =~~= prev.packages_map().remove(key@));
            assert forall|k: Seq<char>|
                lock.packages_map().contains_key(k) <==> (old(lock).packages_map().contains_key(k)
                    && !(exists|j: int|
                    0 <= j < i + 1 && k == nm_key((#[trigger] removed@[j])@))) by {
                if lock.packages_map().contains_key(k) {
                    assert(prev.packages_map().contains_key(k));
                    assert(k != nm_key(removed@[i as int]@));
                    assert(!(exists|j: int| 0 <= j < i + 1 && k == nm_key((#[trigger] removed@[j])@)));
                } else {
                    if old(lock).packages_map().contains_key(k) && !(exists|j: int|
                        0 <= j < i + 1 && k == nm_key((#[trigger] removed@[j])@)) {
                        assert(forall|j: int|
                            0 <= j < i ==> k != nm_key((#[trigger] removed@[j])@));
                        assert(prev.packages_map().contains_key(k));
                        assert(k != nm_key(removed@[i as int]@));
                        assert(false);
                    }
                }
            }
        }
        i = i + 1;
    }
}

} // verus!
