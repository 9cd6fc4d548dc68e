//! The install orchestrator's decisions: the three disjoint scenarios, the
//! root-dependency diff against the previous lockfile, and the equality
//! check behind the no-op detection. The driving program performs the I/O
//! around these and follows exactly what they decide.

use vstd::prelude::*;

verus! {

use crate::lockfile::{Lockfile, PackageEntry, ostr, vstrs, peer_pairs};
use crate::manifest::Manifest;
use crate::fetch::CachedManifest;
use crate::prune::{peer_opt_pairs, lemma_peer_opt};
use crate::smap::StrMap;
use crate::strutil::{str_eq, chars_eq, string_to_chars};

/// The three ways an install proceeds.
#[derive(Clone, Copy, PartialEq, Eq, Structural, Debug)]
pub enum InstallScenario {
    /// Nothing changed: report up to date; write nothing.
    NoOp,
    /// No root added and the caches suffice: relink from the lockfile,
    /// skipping resolution.
    FastPath,
    /// Resolve, download and rebuild.
    FullPath,
}

/// Decide the scenario from the facts the orchestrator has gathered:
/// whether the synced lockfile equals the loaded one, the root diff, whether
/// the project tree still holds every root, whether explicit specifiers were
/// given, and whether a plan can be rebuilt from the lockfile and caches.
pub fn decide_scenario(
    lock_unchanged: bool,
    added_empty: bool,
    removed_empty: bool,
    tree_intact: bool,
    specs_empty: bool,
    fast_available: bool,
) -> (r: InstallScenario)
    ensures
        r == spec_decide(
            lock_unchanged,
            added_empty,
            removed_empty,
            tree_intact,
            specs_empty,
            fast_available,
        ),
{
    if lock_unchanged && added_empty && removed_empty && tree_intact {
        InstallScenario::NoOp
    } else if specs_empty && added_empty && fast_available {
        InstallScenario::FastPath
    } else {
        InstallScenario::FullPath
    }
}

/// The decision rule: a no-op needs an unchanged lockfile, an unchanged
/// root set and an intact tree; the fast path needs no new roots, no
/// explicit specifiers and a rebuildable plan; everything else resolves in
/// full.
pub open spec fn spec_decide(
    lock_unchanged: bool,
    added_empty: bool,
    removed_empty: bool,
    tree_intact: bool,
    specs_empty: bool,
    fast_available: bool,
) -> InstallScenario {
    if lock_unchanged && added_empty && removed_empty && tree_intact {
        InstallScenario::NoOp
    } else if specs_empty && added_empty && fast_available {
        InstallScenario::FastPath
    } else {
        InstallScenario::FullPath
    }
}

/// Law: a second install with no external change is a no-op. When the
/// lockfile synced from the manifest equals the one on disk, no root was
/// added or removed, and the project tree is intact, the orchestrator
/// reports up to date and writes nothing.
pub proof fn lemma_second_install_no_op(specs_empty: bool, fast_available: bool)
    ensures
        spec_decide(true, true, true, true, specs_empty, fast_available) == InstallScenario::NoOp,
{
}

/// Law: the no-op and fast-path scenarios never arise when a root was
/// added; a new root always goes through full resolution.
pub proof fn lemma_added_root_resolves(
    lock_unchanged: bool,
    removed_empty: bool,
    tree_intact: bool,
    specs_empty: bool,
    fast_available: bool,
)
    ensures
        spec_decide(
            lock_unchanged,
            false,
            removed_empty,
            tree_intact,
            specs_empty,
            fast_available,
        ) == InstallScenario::FullPath,
{
}

/// The union of the root entry's three installable sections, later sections
/// overriding earlier names, as the orchestrator diffs root sets.
pub fn root_deps_union(lock: &Lockfile) -> (r: StrMap<String>)
    requires
        lock.wf(),
    ensures
        r.wf(),
        forall|k: Seq<char>| #[trigger]
            r.as_map().contains_key(k) <==> (lock.packages_map().contains_key(Seq::<char>::empty())
                && (crate::smap::pairs_contain(
                lock.packages_map()[Seq::<char>::empty()].dependencies,
                k,
            ) || crate::smap::pairs_contain(
                lock.packages_map()[Seq::<char>::empty()].dev_dependencies,
                k,
            ) || crate::smap::pairs_contain(
                lock.packages_map()[Seq::<char>::empty()].optional_dependencies,
                k,
            ))),
{
    let mut r: StrMap<String> = StrMap::new();
    let root = match lock.packages.get("") {
        Some(e) => e,
        None => {
            proof {
                reveal_strlit("");
                assert(""@ =~= Seq::<char>::empty());
                assert forall|k: Seq<char>| !(#[trigger] r.as_map().contains_key(k)) by {}
            }
            return r;
        },
    };
    proof {
        reveal_strlit("");
        assert(""@ =~= Seq::<char>::empty());
        assert(lock.packages.as_map().contains_key(""@));
        assert(root.wf());
    }
    let ghost rv = root.view();
    let mut s: usize = 0;
    while s < 3
        invariant
            root.wf(),
            r.wf(),
            rv == root.view(),
            s <= 3,
            forall|k: Seq<char>| #[trigger]
                r.as_map().contains_key(k) ==> (crate::smap::pairs_contain(rv.dependencies, k)
                    || crate::smap::pairs_contain(rv.dev_dependencies, k)
                    || crate::smap::pairs_contain(rv.optional_dependencies, k)),
            s >= 1 ==> forall|j: int|
                0 <= j < rv.dependencies.len() ==> r.as_map().contains_key(
                    (#[trigger] rv.dependencies[j]).0,
                ),
            s >= 2 ==> forall|j: int|
                0 <= j < rv.dev_dependencies.len() ==> r.as_map().contains_key(
                    (#[trigger] rv.dev_dependencies[j]).0,
                ),
            s >= 3 ==> forall|j: int|
                0 <= j < rv.optional_dependencies.len() ==> r.as_map().contains_key(
                    (#[trigger] rv.optional_dependencies[j]).0,
                ),
        decreases 3 - s,
    {
        let m = if s == 0 {
            &root.dependencies
        } else if s == 1 {
            &root.dev_dependencies
        } else {
            &root.optional_dependencies
        };
        let n = m.len();
        let mut i: usize = 0;
        while i < n
            invariant
                root.wf(),
                r.wf(),
                rv == root.view(),
                s < 3,
                m == (if s == 0 {
                    &root.dependencies
                } else if s == 1 {
                    &root.dev_dependencies
                } else {
                    &root.optional_dependencies
                }),
                m.wf(),
                n == m.spec_len(),
                i <= n,
                forall|k: Seq<char>| #[trigger]
                    r.as_map().contains_key(k) ==> (crate::smap::pairs_contain(rv.dependencies, k)
                        || crate::smap::pairs_contain(rv.dev_dependencies, k)
                        || crate::smap::pairs_contain(rv.optional_dependencies, k)),
                s >= 1 ==> forall|j: int|
                    0 <= j < rv.dependencies.len() ==> r.as_map().contains_key(
                        (#[trigger] rv.dependencies[j]).0,
                    ),
                s >= 2 ==> forall|j: int|
                    0 <= j < rv.dev_dependencies.len() ==> r.as_map().contains_key(
                        (#[trigger] rv.dev_dependencies[j]).0,
                    ),
                forall|j: int|
                    0 <= j < i ==> r.as_map().contains_key((#[trigger] m.pairs_view()[j]).0),
            decreases n - i,
        {
            let k = m.key_at(i).clone();
            let v = m.val_at(i).clone();
            proof {
                if s == 0 {
                    assert(rv.dependencies[i as int].0 == m.pairs_view()[i as int].0);
                    assert(crate::smap::pairs_contain(rv.dependencies, k@));
                } else if s == 1 {
                    assert(rv.dev_dependencies[i as int].0 == m.pairs_view()[i as int].0);
                    assert(crate::smap::pairs_contain(rv.dev_dependencies, k@));
                } else {
                    assert(rv.optional_dependencies[i as int].0 == m.pairs_view()[i as int].0);
                    assert(crate::smap::pairs_contain(rv.optional_dependencies, k@));
                }
            }
            r.insert(k, v);
            i = i + 1;
        }
        proof {
            if s == 0 {
                assert forall|j: int| 0 <= j < rv.dependencies.len() implies r.as_map()
                    .contains_key((#[trigger] rv.dependencies[j]).0) by {
                    assert(rv.dependencies[j].0 == root.dependencies.pairs_view()[j].0);
                }
            } else if s == 1 {
                assert forall|j: int| 0 <= j < rv.dev_dependencies.len() implies r.as_map()
                    .contains_key((#[trigger] rv.dev_dependencies[j]).0) by {
                    assert(rv.dev_dependencies[j].0 == root.dev_dependencies.pairs_view()[j].0);
                }
            } else {
                assert forall|j: int| 0 <= j < rv.optional_dependencies.len() implies r.as_map()
                    .contains_key((#[trigger] rv.optional_dependencies[j]).0) by {
                    assert(rv.optional_dependencies[j].0
                        == root.optional_dependencies.pairs_view()[j].0);
                }
            }
        }
        s = s + 1;
    }
    proof {
        assert forall|k: Seq<char>| #[trigger] r.as_map().contains_key(k) <==> (
        lock.packages_map().contains_key(Seq::<char>::empty()) && (crate::smap::pairs_contain(
            lock.packages_map()[Seq::<char>::empty()].dependencies,
            k,
        ) || crate::smap::pairs_contain(
            lock.packages_map()[Seq::<char>::empty()].dev_dependencies,
            k,
        ) || crate::smap::pairs_contain(
            lock.packages_map()[Seq::<char>::empty()].optional_dependencies,
            k,
        ))) by {
            assert(lock.packages_map().contains_key(Seq::<char>::empty()));
            assert(lock.packages_map()[Seq::<char>::empty()] == rv);
            if r.as_map().contains_key(k) {
            } else {
                if crate::smap::pairs_contain(rv.dependencies, k) {
                    let j = crate::smap::pair_index_of(rv.dependencies, k);
                    assert(r.as_map().contains_key(rv.dependencies[j].0));
                } else if crate::smap::pairs_contain(rv.dev_dependencies, k) {
                    let j = crate::smap::pair_index_of(rv.dev_dependencies, k);
                    assert(r.as_map().contains_key(rv.dev_dependencies[j].0));
                } else if crate::smap::pairs_contain(rv.optional_dependencies, k) {
                    let j = crate::smap::pair_index_of(rv.optional_dependencies, k);
                    assert(r.as_map().contains_key(rv.optional_dependencies[j].0));
                }
            }
        }
    }
    r
}

/// The names present in `new` but not in `prev`, in `new`'s key order.
pub fn key_difference(new: &StrMap<String>, prev: &StrMap<String>) -> (r: Vec<String>)
    requires
        new.wf(),
        prev.wf(),
    ensures
        forall|i: int|
            0 <= i < r@.len() ==> new.as_map().contains_key(((#[trigger] r@[i])@))
                && !prev.as_map().contains_key((r@[i])@),
        forall|k: Seq<char>| #[trigger]
            new.as_map().contains_key(k) && !prev.as_map().contains_key(k) ==> exists|i: int|
                0 <= i < r@.len() && ((#[trigger] r@[i])@) == k,
{
    let mut r: Vec<String> = Vec::new();
    let n = new.len();
    let mut i: usize = 0;
    while i < n
        invariant
            new.wf(),
            prev.wf(),
            n == new.spec_len(),
            i <= n,
            forall|j: int|
                0 <= j < r@.len() ==> new.as_map().contains_key(((#[trigger] r@[j])@))
                    && !prev.as_map().contains_key((r@[j])@),
            forall|j: int|
                0 <= j < i && !prev.as_map().contains_key(
                    (#[trigger] new.pairs_view()[j]).0,
                ) ==> exists|t: int|
                    0 <= t < r@.len() && ((#[trigger] r@[t])@) == new.pairs_view()[j].0,
        decreases n - i,
    {
        let ghost oldr = r@;
        let k = new.key_at(i).clone();
        proof {
            new.lemma_as_map_at(i as int);
        }
        if !prev.contains_key(k.as_str()) {
            r.push(k);
            proof {
                assert((r@[r@.len() - 1])@ == new.pairs_view()[i as int].0);
                assert forall|j: int|
                    0 <= j < i + 1 && !prev.as_map().contains_key(
                        (#[trigger] new.pairs_view()[j]).0,
                    ) implies exists|t: int|
                    0 <= t < r@.len() && ((#[trigger] r@[t])@) == new.pairs_view()[j].0 by {
                    if j < i {
                        let t = choose|t: int|
                            0 <= t < oldr.len() && ((#[trigger] oldr[t])@)
                                == new.pairs_view()[j].0;
                        assert(r@[t] == oldr[t]);
                    } else {
                        assert((r@[r@.len() - 1])@ == new.pairs_view()[j].0);
                    }
                }
            }
        }
        i = i + 1;
    }
    proof {
        assert forall|k: Seq<char>| #[trigger]
            new.as_map().contains_key(k) && !prev.as_map().contains_key(k) implies exists|i2: int|
            0 <= i2 < r@.len() && ((#[trigger] r@[i2])@) == k by {
            let j = crate::smap::pair_index_of(new.pairs_view(), k);
            assert(0 <= j < new.pairs_view().len() && new.pairs_view()[j].0 == k);
        }
    }
    r
}

/// Record a resolved specifier in the manifest section the flags name:
/// development, optional, or plain dependencies.
pub fn add_spec_with_version(
    manifest: &mut Manifest,
    name: &str,
    version: &str,
    dev: bool,
    optional: bool,
) -> (r: Result<(), ()>)
    requires
        old(manifest).wf(),
    ensures
        final(manifest).wf(),
        r is Err <==> name@.len() == 0,
        r is Err ==> *final(manifest) == *old(manifest),
        r is Ok && dev ==> final(manifest).dev_dependencies.str_map() =~= old(
            manifest,
        ).dev_dependencies.str_map().insert(name@, version@),
        r is Ok && !dev && optional ==> final(manifest).optional_dependencies.str_map() =~= old(
            manifest,
        ).optional_dependencies.str_map().insert(name@, version@),
        r is Ok && !dev && !optional ==> final(manifest).dependencies.str_map() =~= old(
            manifest,
        ).dependencies.str_map().insert(name@, version@),
        final(manifest).name == old(manifest).name,
        final(manifest).version == old(manifest).version,
        final(manifest).peer_dependencies == old(manifest).peer_dependencies,
        final(manifest).workspaces == old(manifest).workspaces,
        dev ==> final(manifest).dependencies == old(manifest).dependencies
            && final(manifest).optional_dependencies == old(manifest).optional_dependencies,
        !dev && optional ==> final(manifest).dependencies == old(manifest).dependencies
            && final(manifest).dev_dependencies == old(manifest).dev_dependencies,
        !dev && !optional ==> final(manifest).dev_dependencies == old(manifest).dev_dependencies
            && final(manifest).optional_dependencies == old(manifest).optional_dependencies,
{
    if name.is_empty() {
        return Err(());
    }
    let n = String::from_str(name);
    let v = String::from_str(version);
    if dev {
        let ghost prev = manifest.dev_dependencies;
        manifest.dev_dependencies.insert(n, v);
        proof {
            lemma_str_map_insert(prev, manifest.dev_dependencies, name@, version@);
        }
    } else if optional {
        let ghost prev = manifest.optional_dependencies;
        manifest.optional_dependencies.insert(n, v);
        proof {
            lemma_str_map_insert(prev, manifest.optional_dependencies, name@, version@);
        }
    } else {
        let ghost prev = manifest.dependencies;
        manifest.dependencies.insert(n, v);
        proof {
            lemma_str_map_insert(prev, manifest.dependencies, name@, version@);
        }
    }
    Ok(())
}

/// A map-level insert is a view-level insert.
proof fn lemma_str_map_insert(prev: StrMap<String>, now: StrMap<String>, k: Seq<char>, v: Seq<char>)
    requires
        exists|s: String| s@ == v && now.as_map() == prev.as_map().insert(k, s),
    ensures
        now.str_map() =~= prev.str_map().insert(k, v),
{
    let s = choose|s: String| s@ == v && now.as_map() == prev.as_map().insert(k, s);
    assert forall|key: Seq<char>| #[trigger] now.str_map().contains_key(key) implies prev
        .str_map().insert(k, v).contains_key(key) by {}
    assert forall|key: Seq<char>| #[trigger] prev.str_map().insert(k, v).contains_key(key)
        implies now.str_map().contains_key(key) by {}
}

/// The traversal tasks of a dependency section: each name and range with
/// the given optional flag, in map order.
pub open spec fn dep_triples(ps: Seq<(Seq<char>, Seq<char>)>, flag: bool) -> Seq<
    (Seq<char>, Seq<char>, bool),
>
    decreases ps.len(),
{
    if ps.len() == 0 {
        Seq::empty()
    } else {
        dep_triples(ps.drop_last(), flag).push((ps.last().0, ps.last().1, flag))
    }
}

/// The traversal tasks of the peer section: each peer not marked optional,
/// with the non-optional flag, in map order.
pub open spec fn peer_triples(
    ps: Seq<(Seq<char>, Seq<char>)>,
    meta: Seq<(Seq<char>, bool)>,
) -> Seq<(Seq<char>, Seq<char>, bool)>
    decreases ps.len(),
{
    if ps.len() == 0 {
        Seq::empty()
    } else {
        let rest = peer_triples(ps.drop_last(), meta);
        if peer_opt_pairs(meta, ps.last().0) {
            rest
        } else {
            rest.push((ps.last().0, ps.last().1, false))
        }
    }
}

/// The views of a task list.
pub open spec fn triple_views(v: Seq<(String, String, bool)>) -> Seq<(Seq<char>, Seq<char>, bool)> {
    v.map_values(|t: (String, String, bool)| (t.0@, t.1@, t.2))
}

/// The tasks a resolved node adds to the traversal queue, per the seeding
/// rules: ordinary dependencies inherit the caller's optional-root flag,
/// optional dependencies are always optional-root, peers not marked
/// optional are enqueued non-optional, and optional peers are not enqueued.
pub fn enqueue_targets(mf: &CachedManifest, optional_root: bool) -> (r: Vec<
    (String, String, bool),
>)
    requires
        mf.dependencies.wf(),
        mf.optional_dependencies.wf(),
        mf.peer_dependencies.wf(),
        mf.peer_dependencies_meta.wf(),
    ensures
        triple_views(r@) == dep_triples(mf.dependencies.str_pairs(), optional_root) + dep_triples(
            mf.optional_dependencies.str_pairs(),
            true,
        ) + peer_triples(
            mf.peer_dependencies.str_pairs(),
            peer_pairs(mf.peer_dependencies_meta),
        ),
{
    let ghost part1 = dep_triples(mf.dependencies.str_pairs(), optional_root);
    let ghost part2 = dep_triples(mf.optional_dependencies.str_pairs(), true);
    let ghost part3 = peer_triples(
        mf.peer_dependencies.str_pairs(),
        peer_pairs(mf.peer_dependencies_meta),
    );
    let mut r: Vec<(String, String, bool)> = Vec::new();
    let nd = mf.dependencies.len();
    let mut i: usize = 0;
    proof {
        assert(triple_views(r@) =~= dep_triples(mf.dependencies.str_pairs().take(0), optional_root));
    }
    while i < nd
        invariant
            mf.dependencies.wf(),
            nd == mf.dependencies.spec_len(),
            i <= nd,
            triple_views(r@) == dep_triples(
                mf.dependencies.str_pairs().take(i as int),
                optional_root,
            ),
        decreases nd - i,
    {
        let ghost oldr = r@;
        let k = mf.dependencies.key_at(i).clone();
        let v = mf.dependencies.val_at(i).clone();
        r.push((k, v, optional_root));
        proof {
            let ps = mf.dependencies.str_pairs();
            assert(ps.take(i + 1).drop_last() =~= ps.take(i as int));
            assert(ps.take(i + 1).last() == ps[i as int]);
            assert(ps[i as int] == (mf.dependencies.pairs_view()[i as int].0,
                mf.dependencies.pairs_view()[i as int].1@));
            assert(triple_views(r@) =~= triple_views(oldr).push((k@, v@, optional_root)));
        }
        i = i + 1;
    }
    proof {
        assert(mf.dependencies.str_pairs().take(nd as int) =~= mf.dependencies.str_pairs());
        assert(triple_views(r@) == part1);
    }
    let no = mf.optional_dependencies.len();
    let mut i2: usize = 0;
    proof {
        assert(part1 + dep_triples(mf.optional_dependencies.str_pairs().take(0), true) =~= part1);
    }
    while i2 < no
        invariant
            mf.optional_dependencies.wf(),
            no == mf.optional_dependencies.spec_len(),
            i2 <= no,
            part1 == dep_triples(mf.dependencies.str_pairs(), optional_root),
            triple_views(r@) == part1 + dep_triples(
                mf.optional_dependencies.str_pairs().take(i2 as int),
                true,
            ),
        decreases no - i2,
    {
        let ghost oldr = r@;
        let k = mf.optional_dependencies.key_at(i2).clone();
        let v = mf.optional_dependencies.val_at(i2).clone();
        r.push((k, v, true));
        proof {
            let ps = mf.optional_dependencies.str_pairs();
            assert(ps.take(i2 + 1).drop_last() =~= ps.take(i2 as int));
            assert(ps.take(i2 + 1).last() == ps[i2 as int]);
            assert(ps[i2 as int] == (mf.optional_dependencies.pairs_view()[i2 as int].0,
                mf.optional_dependencies.pairs_view()[i2 as int].1@));
            assert(triple_views(r@) =~= triple_views(oldr).push((k@, v@, true)));
            assert(part1 + dep_triples(ps.take(i2 as int), true).push((k@, v@, true)) =~= (part1
                + dep_triples(ps.take(i2 as int), true)).push((k@, v@, true)));
        }
        i2 = i2 + 1;
    }
    proof {
        assert(mf.optional_dependencies.str_pairs().take(no as int) =~= mf
            .optional_dependencies.str_pairs());
        assert(triple_views(r@) == part1 + part2);
    }
    let np = mf.peer_dependencies.len();
    let mut i3: usize = 0;
    proof {
        assert(peer_triples(
            mf.peer_dependencies.str_pairs().take(0),
            peer_pairs(mf.peer_dependencies_meta),
        ) =~= Seq::<(Seq<char>, Seq<char>, bool)>::empty());
        assert((part1 + part2) + peer_triples(
            mf.peer_dependencies.str_pairs().take(0),
            peer_pairs(mf.peer_dependencies_meta),
        ) =~= part1 + part2);
    }
    while i3 < np
        invariant
            mf.peer_dependencies.wf(),
            mf.peer_dependencies_meta.wf(),
            np == mf.peer_dependencies.spec_len(),
            i3 <= np,
            part1 + part2 == dep_triples(mf.dependencies.str_pairs(), optional_root)
                + dep_triples(mf.optional_dependencies.str_pairs(), true),
            triple_views(r@) == (part1 + part2) + peer_triples(
                mf.peer_dependencies.str_pairs().take(i3 as int),
                peer_pairs(mf.peer_dependencies_meta),
            ),
        decreases np - i3,
    {
        let ghost oldr = r@;
        let k = mf.peer_dependencies.key_at(i3).clone();
        let optional_peer = match mf.peer_dependencies_meta.get(k.as_str()) {
            Some(meta) => meta.optional,
            None => false,
        };
        proof {
            lemma_peer_opt(mf.peer_dependencies_meta, k@);
            let ps = mf.peer_dependencies.str_pairs();
            assert(ps.take(i3 + 1).drop_last() =~= ps.take(i3 as int));
            assert(ps.take(i3 + 1).last() == ps[i3 as int]);
            assert(ps[i3 as int] == (mf.peer_dependencies.pairs_view()[i3 as int].0,
                mf.peer_dependencies.pairs_view()[i3 as int].1@));
        }
        if !optional_peer {
            let v = mf.peer_dependencies.val_at(i3).clone();
            r.push((k, v, false));
            proof {
                assert(triple_views(r@) =~= triple_views(oldr).push((
                    mf.peer_dependencies.str_pairs()[i3 as int].0,
                    v@,
                    false,
                )));
                let ps = mf.peer_dependencies.str_pairs();
                let meta = peer_pairs(mf.peer_dependencies_meta);
                assert((part1 + part2) + peer_triples(ps.take(i3 as int), meta).push((
                    ps[i3 as int].0,
                    ps[i3 as int].1,
                    false,
                )) =~= ((part1 + part2) + peer_triples(ps.take(i3 as int), meta)).push((
                    ps[i3 as int].0,
                    ps[i3 as int].1,
                    false,
                )));
            }
        }
        i3 = i3 + 1;
    }
    proof {
        assert(mf.peer_dependencies.str_pairs().take(np as int) =~= mf.peer_dependencies
            .str_pairs());
        assert(triple_views(r@) == (part1 + part2) + part3);
        assert((part1 + part2) + part3 =~= part1 + part2 + part3);
    }
    r
}

} // verus!
