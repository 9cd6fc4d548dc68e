//! Pruning: after an install, lockfile entries that the root's dependency
//! maps can no longer reach are removed. Reachability is defined as the
//! least set holding the root's declared names and closed under the
//! installed entries' dependency edges.

use vstd::prelude::*;

verus! {

use crate::lockfile::{Lockfile, EntryView, nm_key};
use crate::smap::{StrMap, pairs_contain};
use crate::strutil::string_to_chars;

/// The names an installed entry links to: its dependencies, its optional
/// dependencies, and its peers not marked optional.
pub open spec fn entry_targets(e: EntryView, n: Seq<char>) -> bool {
    ||| pairs_contain(e.dependencies, n)
    ||| pairs_contain(e.optional_dependencies, n)
    ||| (pairs_contain(e.peer_dependencies, n) && !peer_optional(e, n))
}

/// Whether the entry marks the peer as optional.
pub open spec fn peer_optional(e: EntryView, n: Seq<char>) -> bool {
    exists|i: int|
        0 <= i < e.peer_dependencies_meta.len() && (#[trigger] e.peer_dependencies_meta[i]) == (
        n,
        true,
    )
}

/// The names the root entry declares: dependencies, development and optional
/// dependencies, and peers not marked optional.
pub open spec fn root_targets(root: EntryView, n: Seq<char>) -> bool {
    ||| pairs_contain(root.dependencies, n)
    ||| pairs_contain(root.dev_dependencies, n)
    ||| pairs_contain(root.optional_dependencies, n)
    ||| (pairs_contain(root.peer_dependencies, n) && !peer_optional(root, n))
}

/// The seed set of a lockfile: the root entry's declared names.
pub open spec fn seed(pm: Map<Seq<char>, EntryView>, n: Seq<char>) -> bool {
    pm.contains_key(Seq::<char>::empty()) && root_targets(pm[Seq::<char>::empty()], n)
}

/// Names reachable in at most `k` steps from the seeds.
pub open spec fn reach_n(pm: Map<Seq<char>, EntryView>, k: nat, n: Seq<char>) -> bool
    decreases k,
{
    if k == 0 {
        seed(pm, n)
    } else {
        ||| reach_n(pm, (k - 1) as nat, n)
        ||| (exists|m: Seq<char>|
            reach_n(pm, (k - 1) as nat, m) && pm.contains_key(#[trigger] nm_key(m))
                && entry_targets(pm[nm_key(m)], n))
    }
}

/// A name is reachable when some number of steps reaches it.
pub open spec fn reachable(pm: Map<Seq<char>, EntryView>, n: Seq<char>) -> bool {
    exists|k: nat| reach_n(pm, k, n)
}

/// A reachable parent's targets are reachable.
proof fn lemma_reach_step(pm: Map<Seq<char>, EntryView>, m: Seq<char>, n: Seq<char>)
    requires
        reachable(pm, m),
        pm.contains_key(nm_key(m)),
        entry_targets(pm[nm_key(m)], n),
    ensures
        reachable(pm, n),
{
    let k = choose|k: nat| reach_n(pm, k, m);
    assert(reach_n(pm, k + 1, n));
}

/// A set holding the seeds and closed under the edges holds every reachable
/// name.
proof fn lemma_closed_covers(
    pm: Map<Seq<char>, EntryView>,
    found: Set<Seq<char>>,
    k: nat,
    n: Seq<char>,
)
    requires
        forall|x: Seq<char>| seed(pm, x) ==> found.contains(x),
        forall|m: Seq<char>, x: Seq<char>|
            found.contains(m) && pm.contains_key(#[trigger] nm_key(m)) && entry_targets(
                pm[nm_key(m)],
                x,
            ) ==> #[trigger] found.contains(x),
        reach_n(pm, k, n),
    ensures
        found.contains(n),
    decreases k,
{
    if k == 0 {
    } else {
        if reach_n(pm, (k - 1) as nat, n) {
            lemma_closed_covers(pm, found, (k - 1) as nat, n);
        } else {
            let m = choose|m: Seq<char>|
                reach_n(pm, (k - 1) as nat, m) && pm.contains_key(#[trigger] nm_key(m))
                    && entry_targets(pm[nm_key(m)], n);
            lemma_closed_covers(pm, found, (k - 1) as nat, m);
        }
    }
}

/// The found set as the abstract set of its keys.
pub open spec fn found_set(f: StrMap<bool>) -> Set<Seq<char>> {
    f.as_map().dom()
}

/// Whether a lockfile key names an installed package.
pub open spec fn is_nm_key(k: Seq<char>) -> bool {
    k.len() >= 13 && k.take(13) == seq![
        'n',
        'o',
        'd',
        'e',
        '_',
        'm',
        'o',
        'd',
        'u',
        'l',
        'e',
        's',
        '/',
    ]
}

/// The installed name a lockfile key carries.
pub open spec fn nm_name(k: Seq<char>) -> Seq<char> {
    k.skip(13)
}

/// A key of installed shape is the key of its name.
pub proof fn lemma_nm_key_shape(k: Seq<char>)
    requires
        is_nm_key(k),
    ensures
        nm_key(nm_name(k)) == k,
{
    reveal_strlit("node_modules/");
    assert("node_modules/"@ =~= k.take(13));
    assert(nm_key(nm_name(k)) =~= k);
}

/// And conversely.
pub proof fn lemma_nm_key_of_name(n: Seq<char>)
    ensures
        is_nm_key(nm_key(n)),
        nm_name(nm_key(n)) == n,
{
    reveal_strlit("node_modules/");
    assert("node_modules/"@.len() == 13);
    assert(nm_key(n).take(13) =~= "node_modules/"@);
    assert("node_modules/"@ =~= seq![
        'n',
        'o',
        'd',
        'e',
        '_',
        'm',
        'o',
        'd',
        'u',
        'l',
        'e',
        's',
        '/',
    ]);
    assert(nm_name(nm_key(n)) =~= n);
}

/// Whether a string has the `node_modules/` prefix, with the name after it.
fn split_nm_key(k: &str) -> (r: Option<String>)
    ensures
        match r {
            Some(n) => is_nm_key(k@) && n@ == nm_name(k@),
            None => !is_nm_key(k@),
        },
{
    let kv = string_to_chars(k);
    let n = kv.len();
    if n < 13 {
        return None;
    }
    let prefix_ok = kv[0] == 'n' && kv[1] == 'o' && kv[2] == 'd' && kv[3] == 'e' && kv[4] == '_'
        && kv[5] == 'm' && kv[6] == 'o' && kv[7] == 'd' && kv[8] == 'u' && kv[9] == 'l' && kv[10]
        == 'e' && kv[11] == 's' && kv[12] == '/';
    if !prefix_ok {
        proof {
            if is_nm_key(k@) {
                assert(k@.take(13)[0] == k@[0]);
                assert(k@.take(13)[1] == k@[1]);
                assert(k@.take(13)[2] == k@[2]);
                assert(k@.take(13)[3] == k@[3]);
                assert(k@.take(13)[4] == k@[4]);
                assert(k@.take(13)[5] == k@[5]);
                assert(k@.take(13)[6] == k@[6]);
                assert(k@.take(13)[7] == k@[7]);
                assert(k@.take(13)[8] == k@[8]);
                assert(k@.take(13)[9] == k@[9]);
                assert(k@.take(13)[10] == k@[10]);
                assert(k@.take(13)[11] == k@[11]);
                assert(k@.take(13)[12] == k@[12]);
            }
        }
        return None;
    }
    proof {
        assert(k@.take(13) =~= seq![
            'n',
            'o',
            'd',
            'e',
            '_',
            'm',
            'o',
            'd',
            'u',
            'l',
            'e',
            's',
            '/',
        ]);
    }
    let mut out: Vec<char> = Vec::new();
    let mut i: usize = 13;
    while i < n
        invariant
            13 <= i <= n,
            n == kv@.len(),
            kv@ == k@,
            out@ =~= k@.subrange(13, i as int),
        decreases n - i,
    {
        out.push(kv[i]);
        i = i + 1;
        proof {
            assert(out@ =~= k@.subrange(13, i as int));
        }
    }
    proof {
        assert(out@ =~= nm_name(k@));
    }
    Some(crate::strutil::chars_to_string(&out))
}

/// Peer-meta lookup against the pair view.
pub proof fn lemma_peer_opt(m: StrMap<crate::lockfile::PeerMeta>, n: Seq<char>)
    requires
        m.wf(),
    ensures
        peer_opt_pairs(crate::lockfile::peer_pairs(m), n) <==> (m.as_map().contains_key(n)
            && m.as_map()[n].optional),
{
    let ps = crate::lockfile::peer_pairs(m);
    m.lemma_unique_keys();
    if peer_opt_pairs(ps, n) {
        let i = choose|i: int| 0 <= i < ps.len() && (#[trigger] ps[i]) == (n, true);
        assert(m.pairs_view()[i].0 == n && m.pairs_view()[i].1.optional);
        m.lemma_as_map_at(i);
    }
    if m.as_map().contains_key(n) && m.as_map()[n].optional {
        let i = crate::smap::pair_index_of(m.pairs_view(), n);
        m.lemma_as_map_at(i);
        assert(ps[i] == (n, true));
    }
}

/// Helper shape of `peer_optional` stated over a pair list directly.
pub open spec fn peer_opt_pairs(ps: Seq<(Seq<char>, bool)>, n: Seq<char>) -> bool {
    exists|i: int| 0 <= i < ps.len() && (#[trigger] ps[i]) == (n, true)
}

/// Record the given name in the found set, keeping soundness.
fn add_target(
    found: &mut StrMap<bool>,
    name: String,
    Ghost(pm): Ghost<Map<Seq<char>, EntryView>>,
) -> (changed: bool)
    requires
        old(found).wf(),
        reachable(pm, name@),
        forall|x: Seq<char>|
            #[trigger] found_set(*old(found)).contains(x) ==> reachable(pm, x),
    ensures
        final(found).wf(),
        found_set(*final(found)) =~= found_set(*old(found)).insert(name@),
        forall|x: Seq<char>| #[trigger] found_set(*final(found)).contains(x) ==> reachable(pm, x),
        changed == !found_set(*old(found)).contains(name@),
        !changed ==> *final(found) == *old(found),
        final(found).spec_len() == old(found).spec_len() + (if changed {
            1int
        } else {
            0int
        }),
{
    if found.contains_key(name.as_str()) {
        proof {
            assert(found_set(*found).insert(name@) =~= found_set(*found));
        }
        return false;
    }
    let ghost prevlen = found.spec_len();
    let ghost prev = *found;
    found.insert(name, true);
    proof {
        assert(found.as_map() =~= prev.as_map().insert(name@, true));
        assert(found_set(*found) =~= found_set(prev).insert(name@));
    }
    true
}

/// The names an entry links to, pushed into the found set.
fn add_entry_targets(
    found: &mut StrMap<bool>,
    e: &crate::lockfile::PackageEntry,
    Ghost(pm): Ghost<Map<Seq<char>, EntryView>>,
    Ghost(parent): Ghost<Seq<char>>,
) -> (changed: bool)
    requires
        old(found).wf(),
        e.wf(),
        reachable(pm, parent),
        pm.contains_key(nm_key(parent)),
        pm[nm_key(parent)] == e.view(),
        forall|x: Seq<char>| #[trigger] found_set(*old(found)).contains(x) ==> reachable(pm, x),
    ensures
        final(found).wf(),
        forall|x: Seq<char>| #[trigger] found_set(*final(found)).contains(x) ==> reachable(pm, x),
        forall|x: Seq<char>|
            #[trigger] found_set(*old(found)).contains(x) ==> found_set(*final(found)).contains(x),
        !changed ==> *final(found) == *old(found) && (forall|x: Seq<char>|
            entry_targets(e.view(), x) ==> #[trigger] found_set(*final(found)).contains(x)),
        changed ==> final(found).spec_len() > old(found).spec_len(),
        final(found).spec_len() >= old(found).spec_len(),
    {
    let mut changed = false;
    // plain dependencies
    let mut i: usize = 0;
    let nd = e.dependencies.len();
    while i < nd
        invariant
            e.wf(),
            found.wf(),
            nd == e.dependencies.spec_len(),
            i <= nd,
            reachable(pm, parent),
            pm.contains_key(nm_key(parent)),
            pm[nm_key(parent)] == e.view(),
            forall|x: Seq<char>| #[trigger] found_set(*found).contains(x) ==> reachable(pm, x),
            forall|x: Seq<char>|
                #[trigger] found_set(*old(found)).contains(x) ==> found_set(*found).contains(x),
            !changed ==> *found == *old(found),
            changed ==> found.spec_len() > old(found).spec_len(),
            found.spec_len() >= old(found).spec_len(),
            !changed ==> forall|j: int|
                0 <= j < i ==> found_set(*found).contains(
                    (#[trigger] e.dependencies.pairs_view()[j]).0,
                ),
        decreases nd - i,
    {
        let name = e.dependencies.key_at(i).clone();
        proof {
            assert(pairs_contain(e.view().dependencies, name@)) by {
                assert(e.view().dependencies[i as int].0
                    == e.dependencies.pairs_view()[i as int].0);
            }
            assert(entry_targets(e.view(), name@));
            lemma_reach_step(pm, parent, name@);
        }
        let c = add_target(found, name, Ghost(pm));
        if c {
            changed = true;
        }
        i = i + 1;
    }
    // optional dependencies
    let mut i2: usize = 0;
    let no = e.optional_dependencies.len();
    while i2 < no
        invariant
            e.wf(),
            found.wf(),
            no == e.optional_dependencies.spec_len(),
            i2 <= no,
            reachable(pm, parent),
            pm.contains_key(nm_key(parent)),
            pm[nm_key(parent)] == e.view(),
            forall|x: Seq<char>| #[trigger] found_set(*found).contains(x) ==> reachable(pm, x),
            forall|x: Seq<char>|
                #[trigger] found_set(*old(found)).contains(x) ==> found_set(*found).contains(x),
            !changed ==> *found == *old(found) && (forall|j: int|
                0 <= j < e.dependencies.pairs_view().len() ==> found_set(*found).contains(
                    (#[trigger] e.dependencies.pairs_view()[j]).0,
                )),
            changed ==> found.spec_len() > old(found).spec_len(),
            found.spec_len() >= old(found).spec_len(),
            !changed ==> forall|j: int|
                0 <= j < i2 ==> found_set(*found).contains(
                    (#[trigger] e.optional_dependencies.pairs_view()[j]).0,
                ),
        decreases no - i2,
    {
        let name = e.optional_dependencies.key_at(i2).clone();
        proof {
            assert(pairs_contain(e.view().optional_dependencies, name@)) by {
                assert(e.view().optional_dependencies[i2 as int].0
                    == e.optional_dependencies.pairs_view()[i2 as int].0);
            }
            assert(entry_targets(e.view(), name@));
            lemma_reach_step(pm, parent, name@);
        }
        let c = add_target(found, name, Ghost(pm));
        if c {
            changed = true;
        }
        i2 = i2 + 1;
    }
    // peers not marked optional
    let mut i3: usize = 0;
    let np = e.peer_dependencies.len();
    while i3 < np
        invariant
            e.wf(),
            found.wf(),
            np == e.peer_dependencies.spec_len(),
            i3 <= np,
            reachable(pm, parent),
            pm.contains_key(nm_key(parent)),
            pm[nm_key(parent)] == e.view(),
            forall|x: Seq<char>| #[trigger] found_set(*found).contains(x) ==> reachable(pm, x),
            forall|x: Seq<char>|
                #[trigger] found_set(*old(found)).contains(x) ==> found_set(*found).contains(x),
            !changed ==> *found == *old(found) && (forall|j: int|
                0 <= j < e.dependencies.pairs_view().len() ==> found_set(*found).contains(
                    (#[trigger] e.dependencies.pairs_view()[j]).0,
                )) && (forall|j: int|
                0 <= j < e.optional_dependencies.pairs_view().len() ==> found_set(*found).contains(
                    (#[trigger] e.optional_dependencies.pairs_view()[j]).0,
                )),
            changed ==> found.spec_len() > old(found).spec_len(),
            found.spec_len() >= old(found).spec_len(),
            !changed ==> forall|j: int|
                0 <= j < i3 ==> peer_opt_pairs(
                    e.view().peer_dependencies_meta,
                    (#[trigger] e.peer_dependencies.pairs_view()[j]).0,
                ) || found_set(*found).contains(e.peer_dependencies.pairs_view()[j].0),
        decreases np - i3,
    {
        let name = e.peer_dependencies.key_at(i3).clone();
        let optional = match e.peer_dependencies_meta.get(name.as_str()) {
            Some(meta) => meta.optional,
            None => false,
        };
        proof {
            lemma_peer_opt(e.peer_dependencies_meta, name@);
        }
        if !optional {
            proof {
                assert(pairs_contain(e.view().peer_dependencies, name@)) by {
                    assert(e.view().peer_dependencies[i3 as int].0
                        == e.peer_dependencies.pairs_view()[i3 as int].0);
                }
                assert(!peer_opt_pairs(e.view().peer_dependencies_meta, name@));
                assert(!peer_optional(e.view(), name@));
                assert(entry_targets(e.view(), name@));
                lemma_reach_step(pm, parent, name@);
            }
            let c = add_target(found, name, Ghost(pm));
            if c {
                changed = true;
            }
        }
        i3 = i3 + 1;
    }
    proof {
        if !changed {
            assert forall|x: Seq<char>| entry_targets(e.view(), x) implies #[trigger] found_set(
                *found,
            ).contains(x) by {
                if pairs_contain(e.view().dependencies, x) {
                    let j = crate::smap::pair_index_of(e.view().dependencies, x);
                    assert(e.dependencies.pairs_view()[j].0 == x);
                } else if pairs_contain(e.view().optional_dependencies, x) {
                    let j = crate::smap::pair_index_of(e.view().optional_dependencies, x);
                    assert(e.optional_dependencies.pairs_view()[j].0 == x);
                } else {
                    let j = crate::smap::pair_index_of(e.view().peer_dependencies, x);
                    assert(e.peer_dependencies.pairs_view()[j].0 == x);
                }
            }
        }
    }
    changed
}

/// Mark the root entry's declared names as found.
fn seed_found(
    found: &mut StrMap<bool>,
    root: &crate::lockfile::PackageEntry,
    Ghost(pm): Ghost<Map<Seq<char>, EntryView>>,
)
    requires
        old(found).wf(),
        root.wf(),
        pm.contains_key(Seq::<char>::empty()),
        pm[Seq::<char>::empty()] == root.view(),
        forall|x: Seq<char>| #[trigger] found_set(*old(found)).contains(x) ==> reachable(pm, x),
    ensures
        final(found).wf(),
        forall|x: Seq<char>| #[trigger] found_set(*final(found)).contains(x) ==> reachable(pm, x),
        forall|x: Seq<char>|
            #[trigger] found_set(*old(found)).contains(x) ==> found_set(*final(found)).contains(x),
        forall|x: Seq<char>| seed(pm, x) ==> #[trigger] found_set(*final(found)).contains(x),
{
    let mut s: usize = 0;
    while s < 4
        invariant
            root.wf(),
            found.wf(),
            pm.contains_key(Seq::<char>::empty()),
            pm[Seq::<char>::empty()] == root.view(),
            s <= 4,
            forall|x: Seq<char>| #[trigger] found_set(*found).contains(x) ==> reachable(pm, x),
            forall|x: Seq<char>|
                #[trigger] found_set(*old(found)).contains(x) ==> found_set(*found).contains(x),
            s >= 1 ==> forall|j: int|
                0 <= j < root.dependencies.pairs_view().len() ==> found_set(*found).contains(
                    (#[trigger] root.dependencies.pairs_view()[j]).0,
                ),
            s >= 2 ==> forall|j: int|
                0 <= j < root.dev_dependencies.pairs_view().len() ==> found_set(*found).contains(
                    (#[trigger] root.dev_dependencies.pairs_view()[j]).0,
                ),
            s >= 3 ==> forall|j: int|
                0 <= j < root.optional_dependencies.pairs_view().len() ==> found_set(
                    *found,
                ).contains((#[trigger] root.optional_dependencies.pairs_view()[j]).0),
            s >= 4 ==> forall|j: int|
                0 <= j < root.peer_dependencies.pairs_view().len() ==> peer_opt_pairs(
                    root.view().peer_dependencies_meta,
                    (#[trigger] root.peer_dependencies.pairs_view()[j]).0,
                ) || found_set(*found).contains(root.peer_dependencies.pairs_view()[j].0),
        decreases 4 - s,
    {
        let section = s;
        let m = if section == 0 {
            root.dependencies.len()
        } else if section == 1 {
            root.dev_dependencies.len()
        } else if section == 2 {
            root.optional_dependencies.len()
        } else {
            root.peer_dependencies.len()
        };
        let mut j: usize = 0;
        while j < m
            invariant
                root.wf(),
                found.wf(),
                pm.contains_key(Seq::<char>::empty()),
                pm[Seq::<char>::empty()] == root.view(),
                s < 4,
                section == s,
                m == (if s == 0 {
                    root.dependencies.spec_len()
                } else if s == 1 {
                    root.dev_dependencies.spec_len()
                } else if s == 2 {
                    root.optional_dependencies.spec_len()
                } else {
                    root.peer_dependencies.spec_len()
                }),
                j <= m,
                forall|x: Seq<char>| #[trigger] found_set(*found).contains(x) ==> reachable(pm, x),
                forall|x: Seq<char>|
                    #[trigger] found_set(*old(found)).contains(x) ==> found_set(*found).contains(
                        x,
                    ),
                s >= 1 ==> forall|jj: int|
                    0 <= jj < root.dependencies.pairs_view().len() ==> found_set(*found).contains(
                        (#[trigger] root.dependencies.pairs_view()[jj]).0,
                    ),
                s >= 2 ==> forall|jj: int|
                    0 <= jj < root.dev_dependencies.pairs_view().len() ==> found_set(
                        *found,
                    ).contains((#[trigger] root.dev_dependencies.pairs_view()[jj]).0),
                s >= 3 ==> forall|jj: int|
                    0 <= jj < root.optional_dependencies.pairs_view().len() ==> found_set(
                        *found,
                    ).contains((#[trigger] root.optional_dependencies.pairs_view()[jj]).0),
                s == 0 ==> forall|jj: int|
                    0 <= jj < j ==> found_set(*found).contains(
                        (#[trigger] root.dependencies.pairs_view()[jj]).0,
                    ),
                s == 1 ==> forall|jj: int|
                    0 <= jj < j ==> found_set(*found).contains(
                        (#[trigger] root.dev_dependencies.pairs_view()[jj]).0,
                    ),
                s == 2 ==> forall|jj: int|
                    0 <= jj < j ==> found_set(*found).contains(
                        (#[trigger] root.optional_dependencies.pairs_view()[jj]).0,
                    ),
                s == 3 ==> forall|jj: int|
                    0 <= jj < j ==> peer_opt_pairs(
                        root.view().peer_dependencies_meta,
                        (#[trigger] root.peer_dependencies.pairs_view()[jj]).0,
                    ) || found_set(*found).contains(root.peer_dependencies.pairs_view()[jj].0),
            decreases m - j,
        {
            if section == 0 {
                let name = root.dependencies.key_at(j).clone();
                proof {
                    assert(pairs_contain(root.view().dependencies, name@)) by {
                        assert(root.view().dependencies[j as int].0
                            == root.dependencies.pairs_view()[j as int].0);
                    }
                    assert(seed(pm, name@));
                    assert(reach_n(pm, 0, name@));
                    assert(reachable(pm, name@));
                }
                add_target(found, name, Ghost(pm));
            } else if section == 1 {
                let name = root.dev_dependencies.key_at(j).clone();
                proof {
                    assert(pairs_contain(root.view().dev_dependencies, name@)) by {
                        assert(root.view().dev_dependencies[j as int].0
                            == root.dev_dependencies.pairs_view()[j as int].0);
                    }
                    assert(seed(pm, name@));
                    assert(reach_n(pm, 0, name@));
                    assert(reachable(pm, name@));
                }
                add_target(found, name, Ghost(pm));
            } else if section == 2 {
                let name = root.optional_dependencies.key_at(j).clone();
                proof {
                    assert(pairs_contain(root.view().optional_dependencies, name@)) by {
                        assert(root.view().optional_dependencies[j as int].0
                            == root.optional_dependencies.pairs_view()[j as int].0);
                    }
                    assert(seed(pm, name@));
                    assert(reach_n(pm, 0, name@));
                    assert(reachable(pm, name@));
                }
                add_target(found, name, Ghost(pm));
            } else {
                let name = root.peer_dependencies.key_at(j).clone();
                let optional = match root.peer_dependencies_meta.get(name.as_str()) {
                    Some(meta) => meta.optional,
                    None => false,
                };
                proof {
                    lemma_peer_opt(root.peer_dependencies_meta, name@);
                }
                if !optional {
                    proof {
                        assert(pairs_contain(root.view().peer_dependencies, name@)) by {
                            assert(root.view().peer_dependencies[j as int].0
                                == root.peer_dependencies.pairs_view()[j as int].0);
                        }
                        assert(!peer_opt_pairs(root.view().peer_dependencies_meta, name@));
                        assert(!peer_optional(root.view(), name@));
                        assert(seed(pm, name@));
                        assert(reach_n(pm, 0, name@));
                        assert(reachable(pm, name@));
                    }
                    add_target(found, name, Ghost(pm));
                }
            }
            j = j + 1;
        }
        s = s + 1;
    }
    proof {
        assert forall|x: Seq<char>| seed(pm, x) implies #[trigger] found_set(*found).contains(
            x,
        ) by {
            let rv = root.view();
            if pairs_contain(rv.dependencies, x) {
                let j = crate::smap::pair_index_of(rv.dependencies, x);
                assert(root.dependencies.pairs_view()[j].0 == x);
            } else if pairs_contain(rv.dev_dependencies, x) {
                let j = crate::smap::pair_index_of(rv.dev_dependencies, x);
                assert(root.dev_dependencies.pairs_view()[j].0 == x);
            } else if pairs_contain(rv.optional_dependencies, x) {
                let j = crate::smap::pair_index_of(rv.optional_dependencies, x);
                assert(root.optional_dependencies.pairs_view()[j].0 == x);
            } else {
                let j = crate::smap::pair_index_of(rv.peer_dependencies, x);
                assert(root.peer_dependencies.pairs_view()[j].0 == x);
            }
        }
    }
}

/// A lockfile without a root entry reaches nothing.
proof fn lemma_no_root(pm: Map<Seq<char>, EntryView>, k: nat, n: Seq<char>)
    requires
        !pm.contains_key(Seq::<char>::empty()),
    ensures
        !reach_n(pm, k, n),
    decreases k,
{
    if k > 0 {
        lemma_no_root(pm, (k - 1) as nat, n);
        if reach_n(pm, k, n) {
            let m = choose|m: Seq<char>|
                reach_n(pm, (k - 1) as nat, m) && pm.contains_key(#[trigger] nm_key(m))
                    && entry_targets(pm[nm_key(m)], n);
            lemma_no_root(pm, (k - 1) as nat, m);
        }
    }
}

/// Compute the set of reachable names by iterating the edges to a fixed
/// point.
fn reach_fixpoint(lock: &Lockfile) -> (found: StrMap<bool>)
    requires
        lock.wf(),
    ensures
        found.wf(),
        forall|x: Seq<char>|
            #[trigger] found_set(found).contains(x) <==> reachable(lock.packages_map(), x),
{
    let ghost pm = lock.packages_map();
    let mut found: StrMap<bool> = StrMap::new();
    let root = match lock.packages.get("") {
        Some(root) => root,
        None => {
            proof {
                reveal_strlit("");
                assert(""@ =~= Seq::<char>::empty());
                assert(!pm.contains_key(Seq::<char>::empty()));
                assert forall|x: Seq<char>| !(#[trigger] found_set(found).contains(x)) by {}
                assert forall|x: Seq<char>| !reachable(pm, x) by {
                    if reachable(pm, x) {
                        let k = choose|k: nat| reach_n(pm, k, x);
                        lemma_no_root(pm, k, x);
                    }
                }
            }
            return found;
        },
    };
    proof {
        reveal_strlit("");
        assert(""@ =~= Seq::<char>::empty());
        assert(pm.contains_key(Seq::<char>::empty()));
        assert(pm[Seq::<char>::empty()] == root.view());
        assert(root.wf()) by {
            assert(lock.packages.as_map().contains_key(""@));
        }
    }
    seed_found(&mut found, root, Ghost(pm));
    loop
        invariant
            lock.wf(),
            pm == lock.packages_map(),
            found.wf(),
            forall|x: Seq<char>| #[trigger] found_set(found).contains(x) ==> reachable(pm, x),
            forall|x: Seq<char>| seed(pm, x) ==> #[trigger] found_set(found).contains(x),
        decreases usize::MAX - found.spec_len(),
    {
        let pass_len = found.len();
        let ghost start = found;
        let mut changed = false;
        let n = lock.packages.len();
        let mut i: usize = 0;
        while i < n
            invariant
                lock.wf(),
                pm == lock.packages_map(),
                n == lock.packages.spec_len(),
                i <= n,
                found.wf(),
                pass_len == start.spec_len(),
                forall|x: Seq<char>| #[trigger] found_set(found).contains(x) ==> reachable(pm, x),
                forall|x: Seq<char>| seed(pm, x) ==> #[trigger] found_set(found).contains(x),
                forall|x: Seq<char>|
                    #[trigger] found_set(start).contains(x) ==> found_set(found).contains(x),
                !changed ==> found == start,
                changed ==> found.spec_len() > start.spec_len(),
                found.spec_len() >= start.spec_len(),
                !changed ==> forall|j: int, x: Seq<char>|
                    0 <= j < i && is_nm_key((#[trigger] lock.packages.pairs_view()[j]).0)
                        && found_set(found).contains(nm_name(lock.packages.pairs_view()[j].0))
                        && entry_targets(lock.packages.pairs_view()[j].1.view(), x)
                        ==> #[trigger] found_set(found).contains(x),
            decreases n - i,
        {
            let ghost pre = found;
            let key = lock.packages.key_at(i);
            match split_nm_key(key.as_str()) {
                Some(name) => {
                    if found.contains_key(name.as_str()) {
                        let entry = lock.packages.val_at(i);
                        proof {
                            lock.lemma_entry_at_wf(i as int);
                            lock.packages.lemma_as_map_at(i as int);
                            lemma_nm_key_shape(key@);
                            assert(nm_key(name@) == key@);
                            assert(pm.contains_key(key@));
                            assert(pm[key@] == entry.view());
                            assert(found.as_map().dom().contains(name@));
                            assert(found_set(found).contains(name@));
                            assert(reachable(pm, name@));
                        }
                        let c = add_entry_targets(&mut found, entry, Ghost(pm), Ghost(name@));
                        if c {
                            changed = true;
                        }
                        proof {
                            assert forall|x: Seq<char>| seed(pm, x) implies #[trigger] found_set(
                                found,
                            ).contains(x) by {
                                assert(found_set(pre).contains(x));
                            }
                        }
                    }
                },
                None => {},
            }
            i = i + 1;
        }
        // reading the length pins it below the address-space bound, which the
        // termination measure needs
        let _pass_end = found.len();
        if !changed {
            proof {
                assert forall|m: Seq<char>, x: Seq<char>|
                    found_set(found).contains(m) && pm.contains_key(#[trigger] nm_key(m))
                        && entry_targets(pm[nm_key(m)], x) implies #[trigger] found_set(
                    found,
                ).contains(x) by {
                    assert(lock.packages.as_map().contains_key(nm_key(m)));
                    let j = crate::smap::pair_index_of(lock.packages.pairs_view(), nm_key(m));
                    lock.packages.lemma_as_map_at(j);
                    lemma_nm_key_of_name(m);
                    assert(is_nm_key(lock.packages.pairs_view()[j].0));
                    assert(nm_name(lock.packages.pairs_view()[j].0) == m);
                    assert(pm[nm_key(m)] == lock.packages.pairs_view()[j].1.view());
                }
                assert forall|x: Seq<char>| reachable(pm, x) implies #[trigger] found_set(
                    found,
                ).contains(x) by {
                    let k = choose|k: nat| reach_n(pm, k, x);
                    lemma_closed_covers(pm, found_set(found), k, x);
                }
            }
            return found;
        }
    }
}

/// Remove every lockfile entry the root can no longer reach, returning the
/// removed names.
pub fn prune_unreachable(lock: &mut Lockfile) -> (removed: Vec<String>)
    requires
        old(lock).wf(),
    ensures
        final(lock).wf(),
        final(lock).format == old(lock).format,
        forall|k: Seq<char>|
            final(lock).packages_map().contains_key(k) <==> (old(lock).packages_map().contains_key(
                k,
            ) && (!is_nm_key(k) || reachable(old(lock).packages_map(), nm_name(k)))),
        forall|k: Seq<char>| #[trigger]
            final(lock).packages_map().contains_key(k) ==> final(lock).packages_map()[k] == old(
                lock,
            ).packages_map()[k],
        forall|i: int|
            0 <= i < removed@.len() ==> old(lock).packages_map().contains_key(
                nm_key((#[trigger] removed@[i])@),
            ) && !reachable(old(lock).packages_map(), removed@[i]@),
        forall|k: Seq<char>| #[trigger]
            old(lock).packages_map().contains_key(k) && is_nm_key(k) && !reachable(
                old(lock).packages_map(),
                nm_name(k),
            ) ==> exists|i: int| 0 <= i < removed@.len() && (#[trigger] removed@[i])@ == nm_name(k),
{
    let ghost pm = lock.packages_map();
    let found = reach_fixpoint(lock);
    let mut keys: Vec<String> = Vec::new();
    let mut removed: Vec<String> = Vec::new();
    let n = lock.packages.len();
    let mut i: usize = 0;
    while i < n
        invariant
            lock.wf(),
            lock == old(lock),
            pm == lock.packages_map(),
            n == lock.packages.spec_len(),
            i <= n,
            found.wf(),
            forall|x: Seq<char>| #[trigger] found_set(found).contains(x) <==> reachable(pm, x),
            keys@.len() == removed@.len(),
            forall|j: int|
                0 <= j < keys@.len() ==> is_nm_key((#[trigger] keys@[j])@) && pm.contains_key(
                    keys@[j]@,
                ) && !reachable(pm, nm_name(keys@[j]@)) && removed@[j]@ == nm_name(keys@[j]@),
            forall|j: int|
                0 <= j < i && is_nm_key((#[trigger] lock.packages.pairs_view()[j]).0)
                    && !reachable(pm, nm_name(lock.packages.pairs_view()[j].0)) ==> exists|t: int|
                    0 <= t < keys@.len() && (#[trigger] keys@[t])@
                    == lock.packages.pairs_view()[j].0,
        decreases n - i,
    {
        let key = lock.packages.key_at(i);
        match split_nm_key(key.as_str()) {
            Some(name) => {
                if !found.contains_key(name.as_str()) {
                    proof {
                        lock.packages.lemma_as_map_at(i as int);
                        lemma_nm_key_shape(key@);
                        assert(!found.as_map().dom().contains(name@));
                        assert(!found_set(found).contains(name@));
                        assert(!reachable(pm, name@));
                        assert(nm_name(key@) == name@);
                        assert(lock.packages.as_map().contains_key(key@));
                        assert(pm.contains_key(key@));
                    }
                    let ghost oldkeys = keys@;
                    keys.push(key.clone());
                    removed.push(name);
                    proof {
                        assert((keys@[keys@.len() - 1])@ == lock.packages.pairs_view()[i as int].0);
                        assert forall|j: int|
                            0 <= j < i + 1 && is_nm_key(
                                (#[trigger] lock.packages.pairs_view()[j]).0,
                            ) && !reachable(pm, nm_name(lock.packages.pairs_view()[j].0))
                            implies exists|t: int|
                            0 <= t < keys@.len() && (#[trigger] keys@[t])@
                                == lock.packages.pairs_view()[j].0 by {
                            if j < i {
                                let t = choose|t: int|
                                    0 <= t < oldkeys.len() && (#[trigger] oldkeys[t])@
                                        == lock.packages.pairs_view()[j].0;
                                assert(keys@[t] == oldkeys[t]);
                            } else {
                                assert((keys@[keys@.len() - 1])@
                                    == lock.packages.pairs_view()[j].0);
                            }
                        }
                    }
                } else {
                    proof {
                        lemma_nm_key_shape(key@);
                        assert(found.as_map().dom().contains(name@));
                        assert(found_set(found).contains(name@));
                        assert(reachable(pm, name@));
                        assert(reachable(pm, nm_name(key@)));
                    }
                }
            },
            None => {},
        }
        i = i + 1;
    }
    proof {
        assert forall|i2: int| 0 <= i2 < removed@.len() implies pm.contains_key(
            nm_key((#[trigger] removed@[i2])@),
        ) && !reachable(pm, removed@[i2]@) by {
            lemma_nm_key_shape(keys@[i2]@);
            assert(nm_key(removed@[i2]@) == keys@[i2]@);
        }
    }
    // drop the collected keys
    let m = keys.len();
    let mut t: usize = 0;
    while t < m
        invariant
            m == keys@.len() == removed@.len(),
            t <= m,
            lock.wf(),
            lock.format == old(lock).format,
            pm == old(lock).packages_map(),
            forall|j: int|
                0 <= j < keys@.len() ==> is_nm_key((#[trigger] keys@[j])@) && pm.contains_key(
                    keys@[j]@,
                ) && !reachable(pm, nm_name(keys@[j]@)) && removed@[j]@ == nm_name(keys@[j]@),
            forall|k: Seq<char>|
                lock.packages_map().contains_key(k) <==> (pm.contains_key(k) && !(exists|j: int|
                    0 <= j < t && (#[trigger] keys@[j])@ == k)),
            forall|k: Seq<char>| #[trigger]
                lock.packages_map().contains_key(k) ==> lock.packages_map()[k] == pm[k],
        decreases m - t,
    {
        let ghost prev = *lock;
        lock.packages.remove(keys[t].as_str());
        proof {
            assert(lock.packages_map() =~~= prev.packages_map().remove(keys@[t as int]@));
            assert forall|k: Seq<char>|
                lock.packages_map().contains_key(k) <==> (pm.contains_key(k) && !(exists|j: int|
                    0 <= j < t + 1 && (#[trigger] keys@[j])@ == k)) by {
                if lock.packages_map().contains_key(k) {
                    assert(k != keys@[t as int]@);
                    assert(!(exists|j: int| 0 <= j < t && (#[trigger] keys@[j])@ == k));
                    assert(!(exists|j: int| 0 <= j < t + 1 && (#[trigger] keys@[j])@ == k));
                } else {
                    if pm.contains_key(k) && !(exists|j: int|
                        0 <= j < t + 1 && (#[trigger] keys@[j])@ == k) {
                        assert(!(exists|j: int| 0 <= j < t && (#[trigger] keys@[j])@ == k));
                        assert(k != keys@[t as int]@);
                        assert(false);
                    }
                }
            }
        }
        t = t + 1;
    }
    proof {
        assert forall|k: Seq<char>|
            lock.packages_map().contains_key(k) <==> (pm.contains_key(k) && (!is_nm_key(k)
                || reachable(pm, nm_name(k)))) by {
            if pm.contains_key(k) {
                if is_nm_key(k) && !reachable(pm, nm_name(k)) {
                    let j = crate::smap::pair_index_of(lock_pairs_ghost(old(lock)), k);
                    assert(old(lock).packages.as_map().contains_key(k));
                    assert(0 <= j < lock_pairs_ghost(old(lock)).len() && lock_pairs_ghost(
                        old(lock),
                    )[j].0 == k);
                    assert(exists|u: int|
                        0 <= u < keys@.len() && (#[trigger] keys@[u])@ == k);
                } else {
                    if exists|j: int| 0 <= j < keys@.len() && (#[trigger] keys@[j])@ == k {
                        let j = choose|j: int|
                            0 <= j < keys@.len() && (#[trigger] keys@[j])@ == k;
                        assert(!reachable(pm, nm_name(k)));
                        assert(is_nm_key(k));
                    }
                }
            }
        }
        assert forall|k: Seq<char>| #[trigger]
            old(lock).packages_map().contains_key(k) && is_nm_key(k) && !reachable(
                pm,
                nm_name(k),
            ) implies exists|i2: int|
            0 <= i2 < removed@.len() && (#[trigger] removed@[i2])@ == nm_name(k) by {
            let j = crate::smap::pair_index_of(lock_pairs_ghost(old(lock)), k);
            assert(0 <= j < lock_pairs_ghost(old(lock)).len() && lock_pairs_ghost(old(lock))[j].0
                == k);
            let u = choose|u: int| 0 <= u < keys@.len() && (#[trigger] keys@[u])@ == k;
            assert(removed@[u]@ == nm_name(k));
        }
    }
    removed
}

/// The key pairs of a lockfile, for proofs.
pub open spec fn lock_pairs_ghost(lock: &Lockfile) -> Seq<(Seq<char>, crate::lockfile::PackageEntry)> {
    lock.packages.pairs_view()
}

} // verus!
