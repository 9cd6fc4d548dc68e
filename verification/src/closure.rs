//! The graph-fingerprint pass: compute every package's graph hash and store
//! key bottom-up over the lockfile, memoized, skipping optional
//! dependencies the host platform rejects, and failing on a dependency
//! cycle. The result is characterized as the assignment consistent with
//! the fingerprint equation at every computed name.

use vstd::prelude::*;

verus! {

use crate::graph::{compute_graph_hash, graph_hash_of, store_key_of, DependencyFingerprint, fp_views};
use crate::lockfile::{EntryView, Lockfile, PackageEntry, nm_key};
use crate::platform::{platform_ok, platform_supported};
use crate::prune::lemma_nm_key_of_name;
use crate::smap::{pairs_contain, StrMap};
use crate::strutil::seq_char_lt;

/// Why the pass stopped.
#[derive(Debug)]
pub enum ClosureError {
    /// A requested name has no lockfile entry.
    MissingEntry(String),
    /// A requested name's entry has no version.
    MissingVersion(String),
    /// The dependency edges re-entered a package on the path being built.
    Cycle(String),
}

/// The name appears in one of the entry's four dependency maps.
pub open spec fn name_in_entry(e: EntryView, n: Seq<char>) -> bool {
    ||| pairs_contain(e.dependencies, n)
    ||| pairs_contain(e.dev_dependencies, n)
    ||| pairs_contain(e.optional_dependencies, n)
    ||| pairs_contain(e.peer_dependencies, n)
}

/// Whether a dependency contributes a fingerprint: it has an entry with a
/// version, and it is not an optional dependency the host rejects.
pub open spec fn fp_ok(
    pm: Map<Seq<char>, EntryView>,
    hos: Seq<char>,
    hcpu: Seq<char>,
    parent: EntryView,
    d: Seq<char>,
) -> bool {
    &&& pm.contains_key(nm_key(d))
    &&& pm[nm_key(d)].version is Some
    &&& !(pairs_contain(parent.optional_dependencies, d) && !platform_ok(
        pm[nm_key(d)].os,
        pm[nm_key(d)].cpu_arch,
        hos,
        hcpu,
    ))
}

/// The fingerprints contributed by the dependency names `ds`, in order,
/// drawing each dependency's store key from the assignment `m`.
#[verifier::opaque]
pub open spec fn fps_along(
    pm: Map<Seq<char>, EntryView>,
    hos: Seq<char>,
    hcpu: Seq<char>,
    parent: EntryView,
    ds: Seq<Seq<char>>,
    m: StrMap<(String, String)>,
) -> Seq<(Seq<char>, Seq<char>, Option<Seq<char>>)>
    decreases ds.len(),
{
    if ds.len() == 0 {
        Seq::empty()
    } else {
        let rest = fps_along(pm, hos, hcpu, parent, ds.drop_last(), m);
        let d = ds.last();
        if fp_ok(pm, hos, hcpu, parent, d) {
            rest.push((d, pm[nm_key(d)].version->0, Option::Some(m.as_map()[d].1@)))
        } else {
            rest
        }
    }
}

/// A strictly sorted name list.
pub open spec fn sorted_names(ds: Seq<Seq<char>>) -> bool {
    forall|i: int, j: int|
        0 <= i < j < ds.len() ==> seq_char_lt(#[trigger] ds[i], #[trigger] ds[j])
}

/// The name `n` is settled in the assignment `m` along the sorted name list
/// `ds` of its entry's dependency maps: every contributing dependency is
/// assigned, and `m[n]` holds exactly the graph hash and store key of the
/// resulting fingerprints.
#[verifier::opaque]
pub open spec fn entry_settled(
    pm: Map<Seq<char>, EntryView>,
    hos: Seq<char>,
    hcpu: Seq<char>,
    m: StrMap<(String, String)>,
    n: Seq<char>,
    ds: Seq<Seq<char>>,
) -> bool {
    &&& sorted_names(ds)
    &&& forall|d: Seq<char>| ds.contains(d) <==> name_in_entry(pm[nm_key(n)], d)
    &&& forall|i: int|
        0 <= i < ds.len() && fp_ok(pm, hos, hcpu, pm[nm_key(n)], #[trigger] ds[i])
            ==> m.as_map().contains_key(ds[i]) && ds[i] != n
    &&& m.as_map()[n].0@ == graph_hash_of(fps_along(pm, hos, hcpu, pm[nm_key(n)], ds, m))
    &&& m.as_map()[n].1@ == store_key_of(
        n,
        pm[nm_key(n)].version->0,
        fps_along(pm, hos, hcpu, pm[nm_key(n)], ds, m),
    )
}

/// The assignment is a fixpoint of the fingerprint equation: every assigned
/// name is settled along its own dependency list.
#[verifier::opaque]
pub open spec fn closure_consistent(
    pm: Map<Seq<char>, EntryView>,
    hos: Seq<char>,
    hcpu: Seq<char>,
    m: StrMap<(String, String)>,
) -> bool {
    forall|n: Seq<char>| #[trigger]
        m.as_map().contains_key(n) ==> pm.contains_key(nm_key(n)) && pm[nm_key(n)].version is Some
            && (exists|ds: Seq<Seq<char>>| entry_settled(pm, hos, hcpu, m, n, ds))
}

/// A traversal edge: `b` stands in `a`'s dependency maps and contributes a
/// fingerprint.
pub open spec fn step_edge(
    pm: Map<Seq<char>, EntryView>,
    hos: Seq<char>,
    hcpu: Seq<char>,
    a: Seq<char>,
    b: Seq<char>,
) -> bool {
    &&& pm.contains_key(nm_key(a))
    &&& name_in_entry(pm[nm_key(a)], b)
    &&& fp_ok(pm, hos, hcpu, pm[nm_key(a)], b)
}

/// A dependency cycle: a nonempty path of edges returning to its start.
pub open spec fn closure_cycle(
    pm: Map<Seq<char>, EntryView>,
    hos: Seq<char>,
    hcpu: Seq<char>,
    p: Seq<Seq<char>>,
) -> bool {
    &&& p.len() > 0
    &&& forall|i: int| 0 <= i < p.len() - 1 ==> step_edge(pm, hos, hcpu, #[trigger] p[i], p[i + 1])
    &&& step_edge(pm, hos, hcpu, p[p.len() - 1], p[0])
}

/// Fingerprints are stable under growing the assignment, as long as every
/// contributing dependency was already assigned.
proof fn lemma_fps_stable(
    pm: Map<Seq<char>, EntryView>,
    hos: Seq<char>,
    hcpu: Seq<char>,
    parent: EntryView,
    ds: Seq<Seq<char>>,
    m1: StrMap<(String, String)>,
    m2: StrMap<(String, String)>,
)
    requires
        forall|k: Seq<char>| #[trigger]
            m1.as_map().contains_key(k) ==> m2.as_map().contains_key(k) && m2.as_map()[k]
                == m1.as_map()[k],
        forall|i: int|
            0 <= i < ds.len() && fp_ok(pm, hos, hcpu, parent, #[trigger] ds[i])
                ==> m1.as_map().contains_key(ds[i]),
    ensures
        fps_along(pm, hos, hcpu, parent, ds, m2) == fps_along(pm, hos, hcpu, parent, ds, m1),
    decreases ds.len(),
{
    reveal(fps_along);
    if ds.len() > 0 {
        lemma_fps_stable(pm, hos, hcpu, parent, ds.drop_last(), m1, m2);
        if fp_ok(pm, hos, hcpu, parent, ds.last()) {
            assert(m1.as_map().contains_key(ds.last()));
        }
    }
}

/// The sorted name list of an entry's four dependency maps.
fn dep_name_set(e: &PackageEntry) -> (r: StrMap<bool>)
    requires
        e.wf(),
    ensures
        r.wf(),
        forall|d: Seq<char>| #[trigger] r.as_map().contains_key(d) <==> name_in_entry(e.view(), d),
{
    let ghost ev = e.view();
    let mut r: StrMap<bool> = StrMap::new();
    let mut s: usize = 0;
    while s < 4
        invariant
            e.wf(),
            ev == e.view(),
            r.wf(),
            s <= 4,
            forall|d: Seq<char>| #[trigger] r.as_map().contains_key(d) ==> name_in_entry(ev, d),
            s >= 1 ==> forall|j: int|
                0 <= j < ev.dependencies.len() ==> r.as_map().contains_key(
                    (#[trigger] ev.dependencies[j]).0,
                ),
            s >= 2 ==> forall|j: int|
                0 <= j < ev.dev_dependencies.len() ==> r.as_map().contains_key(
                    (#[trigger] ev.dev_dependencies[j]).0,
                ),
            s >= 3 ==> forall|j: int|
                0 <= j < ev.optional_dependencies.len() ==> r.as_map().contains_key(
                    (#[trigger] ev.optional_dependencies[j]).0,
                ),
            s >= 4 ==> forall|j: int|
                0 <= j < ev.peer_dependencies.len() ==> r.as_map().contains_key(
                    (#[trigger] ev.peer_dependencies[j]).0,
                ),
        decreases 4 - s,
    {
        let m = if s == 0 {
            &e.dependencies
        } else if s == 1 {
            &e.dev_dependencies
        } else if s == 2 {
            &e.optional_dependencies
        } else {
            &e.peer_dependencies
        };
        let n = m.len();
        let mut i: usize = 0;
        while i < n
            invariant
                e.wf(),
                ev == e.view(),
                r.wf(),
                s < 4,
                m == (if s == 0 {
                    &e.dependencies
                } else if s == 1 {
                    &e.dev_dependencies
                } else if s == 2 {
                    &e.optional_dependencies
                } else {
                    &e.peer_dependencies
                }),
                m.wf(),
                n == m.spec_len(),
                i <= n,
                forall|d: Seq<char>| #[trigger] r.as_map().contains_key(d) ==> name_in_entry(ev, d),
                s >= 1 ==> forall|j: int|
                    0 <= j < ev.dependencies.len() ==> r.as_map().contains_key(
                        (#[trigger] ev.dependencies[j]).0,
                    ),
                s >= 2 ==> forall|j: int|
                    0 <= j < ev.dev_dependencies.len() ==> r.as_map().contains_key(
                        (#[trigger] ev.dev_dependencies[j]).0,
                    ),
                s >= 3 ==> forall|j: int|
                    0 <= j < ev.optional_dependencies.len() ==> r.as_map().contains_key(
                        (#[trigger] ev.optional_dependencies[j]).0,
                    ),
                forall|j: int|
                    0 <= j < i ==> r.as_map().contains_key((#[trigger] m.pairs_view()[j]).0),
            decreases n - i,
        {
            let k = m.key_at(i).clone();
            proof {
                if s == 0 {
                    assert(ev.dependencies[i as int].0 == m.pairs_view()[i as int].0);
                    assert(pairs_contain(ev.dependencies, k@));
                } else if s == 1 {
                    assert(ev.dev_dependencies[i as int].0 == m.pairs_view()[i as int].0);
                    assert(pairs_contain(ev.dev_dependencies, k@));
                } else if s == 2 {
                    assert(ev.optional_dependencies[i as int].0 == m.pairs_view()[i as int].0);
                    assert(pairs_contain(ev.optional_dependencies, k@));
                } else {
                    assert(ev.peer_dependencies[i as int].0 == m.pairs_view()[i as int].0);
                    assert(pairs_contain(ev.peer_dependencies, k@));
                }
            }
            r.insert(k, true);
            i = i + 1;
        }
        proof {
            if s == 0 {
                assert forall|j: int| 0 <= j < ev.dependencies.len() implies r.as_map()
                    .contains_key((#[trigger] ev.dependencies[j]).0) by {
                    assert(ev.dependencies[j].0 == e.dependencies.pairs_view()[j].0);
                }
            } else if s == 1 {
                assert forall|j: int| 0 <= j < ev.dev_dependencies.len() implies r.as_map()
                    .contains_key((#[trigger] ev.dev_dependencies[j]).0) by {
                    assert(ev.dev_dependencies[j].0 == e.dev_dependencies.pairs_view()[j].0);
                }
            } else if s == 2 {
                assert forall|j: int| 0 <= j < ev.optional_dependencies.len() implies r.as_map()
                    .contains_key((#[trigger] ev.optional_dependencies[j]).0) by {
                    assert(ev.optional_dependencies[j].0
                        == e.optional_dependencies.pairs_view()[j].0);
                }
            } else {
                assert forall|j: int| 0 <= j < ev.peer_dependencies.len() implies r.as_map()
                    .contains_key((#[trigger] ev.peer_dependencies[j]).0) by {
                    assert(ev.peer_dependencies[j].0 == e.peer_dependencies.pairs_view()[j].0);
                }
            }
        }
        s = s + 1;
    }
    proof {
        assert forall|d: Seq<char>| name_in_entry(ev, d) implies #[trigger] r.as_map()
            .contains_key(d) by {
            if pairs_contain(ev.dependencies, d) {
                let j = crate::smap::pair_index_of(ev.dependencies, d);
                assert(r.as_map().contains_key(ev.dependencies[j].0));
            } else if pairs_contain(ev.dev_dependencies, d) {
                let j = crate::smap::pair_index_of(ev.dev_dependencies, d);
                assert(r.as_map().contains_key(ev.dev_dependencies[j].0));
            } else if pairs_contain(ev.optional_dependencies, d) {
                let j = crate::smap::pair_index_of(ev.optional_dependencies, d);
                assert(r.as_map().contains_key(ev.optional_dependencies[j].0));
            } else if pairs_contain(ev.peer_dependencies, d) {
                let j = crate::smap::pair_index_of(ev.peer_dependencies, d);
                assert(r.as_map().contains_key(ev.peer_dependencies[j].0));
            }
        }
    }
    r
}

/// Removing the current name restores the visiting set to the incoming
/// path.
proof fn lemma_restore_visiting(
    vis_after: StrMap<bool>,
    vis_now: StrMap<bool>,
    vpath: Seq<Seq<char>>,
    name: Seq<char>,
)
    requires
        vis_now.as_map() == vis_after.as_map().remove(name),
        forall|k: Seq<char>| #[trigger]
            vis_after.as_map().contains_key(k) <==> vpath.push(name).contains(k),
        vpath.push(name).no_duplicates(),
    ensures
        forall|k: Seq<char>| #[trigger] vis_now.as_map().contains_key(k) <==> vpath.contains(k),
{
    let cur = vpath.push(name);
    assert forall|k: Seq<char>| #[trigger] vis_now.as_map().contains_key(k) <==> vpath.contains(
        k,
    ) by {
        if k == name {
            assert(!vis_now.as_map().contains_key(name));
            if vpath.contains(name) {
                let j = choose|j: int| 0 <= j < vpath.len() && vpath[j] == name;
                assert(cur[j] == name);
                assert(cur[cur.len() - 1] == name);
            }
        } else {
            if vpath.contains(k) {
                let j = choose|j: int| 0 <= j < vpath.len() && vpath[j] == k;
                assert(cur[j] == k);
            }
            if cur.contains(k) {
                let j = choose|j: int| 0 <= j < cur.len() && cur[j] == k;
                if j < vpath.len() {
                    assert(vpath[j] == k);
                }
            }
        }
    }
}

/// Inserting a freshly settled name keeps the assignment consistent.
proof fn lemma_consistent_insert(
    pm: Map<Seq<char>, EntryView>,
    hos: Seq<char>,
    hcpu: Seq<char>,
    pre: StrMap<(String, String)>,
    post: StrMap<(String, String)>,
    name: Seq<char>,
    ds: Seq<Seq<char>>,
    v: (String, String),
)
    requires
        closure_consistent(pm, hos, hcpu, pre),
        !pre.as_map().contains_key(name),
        post.as_map() == pre.as_map().insert(name, v),
        pm.contains_key(nm_key(name)),
        pm[nm_key(name)].version is Some,
        sorted_names(ds),
        forall|d: Seq<char>| ds.contains(d) <==> name_in_entry(pm[nm_key(name)], d),
        forall|j: int|
            0 <= j < ds.len() && fp_ok(pm, hos, hcpu, pm[nm_key(name)], #[trigger] ds[j])
                ==> pre.as_map().contains_key(ds[j]),
        v.0@ == graph_hash_of(fps_along(pm, hos, hcpu, pm[nm_key(name)], ds, pre)),
        v.1@ == store_key_of(
            name,
            pm[nm_key(name)].version->0,
            fps_along(pm, hos, hcpu, pm[nm_key(name)], ds, pre),
        ),
    ensures
        closure_consistent(pm, hos, hcpu, post),
{
    reveal(closure_consistent);
    reveal(entry_settled);
    assert forall|j: int|
        0 <= j < ds.len() && fp_ok(pm, hos, hcpu, pm[nm_key(name)], #[trigger] ds[j]) implies post
        .as_map().contains_key(ds[j]) && ds[j] != name by {
        assert(pre.as_map().contains_key(ds[j]));
    }
    lemma_fps_stable(pm, hos, hcpu, pm[nm_key(name)], ds, pre, post);
    assert(entry_settled(pm, hos, hcpu, post, name, ds));
    assert forall|n2: Seq<char>| #[trigger] post.as_map().contains_key(n2) implies pm.contains_key(
        nm_key(n2),
    ) && pm[nm_key(n2)].version is Some && (exists|ds2: Seq<Seq<char>>|
        entry_settled(pm, hos, hcpu, post, n2, ds2)) by {
        if n2 == name {
            assert(entry_settled(pm, hos, hcpu, post, n2, ds));
        } else {
            assert(pre.as_map().contains_key(n2));
            let ds2 = choose|ds2: Seq<Seq<char>>| entry_settled(pm, hos, hcpu, pre, n2, ds2);
            lemma_fps_stable(pm, hos, hcpu, pm[nm_key(n2)], ds2, pre, post);
            assert(entry_settled(pm, hos, hcpu, post, n2, ds2));
        }
    }
}

/// Compute one package's fingerprints bottom-up, memoizing into `memo`.
/// `vpath` is the chain of names currently being expanded; meeting one of
/// them again is a cycle.
#[verifier::rlimit(100)]
#[verifier::spinoff_prover]
fn close_one(
    lock: &Lockfile,
    host_os: &str,
    host_cpu: &str,
    name: &String,
    memo: &mut StrMap<(String, String)>,
    visiting: &mut StrMap<bool>,
    Ghost(vpath): Ghost<Seq<Seq<char>>>,
) -> (r: Result<(), ClosureError>)
    requires
        lock.wf(),
        lock.packages_map().contains_key(nm_key(name@)),
        lock.packages_map()[nm_key(name@)].version is Some,
        old(memo).wf(),
        closure_consistent(lock.packages_map(), host_os@, host_cpu@, *old(memo)),
        forall|k: Seq<char>| #[trigger]
            old(memo).as_map().contains_key(k) ==> !old(visiting).as_map().contains_key(k),
        old(visiting).wf(),
        vpath.no_duplicates(),
        forall|i: int|
            0 <= i < vpath.len() ==> lock.packages_map().contains_key(
                nm_key(#[trigger] vpath[i]),
            ),
        forall|k: Seq<char>| #[trigger]
            old(visiting).as_map().contains_key(k) <==> vpath.contains(k),
        forall|i: int|
            0 <= i < vpath.len() - 1 ==> step_edge(
                lock.packages_map(),
                host_os@,
                host_cpu@,
                #[trigger] vpath[i],
                vpath[i + 1],
            ),
        vpath.len() > 0 ==> step_edge(
            lock.packages_map(),
            host_os@,
            host_cpu@,
            vpath[vpath.len() - 1],
            name@,
        ),
        vpath.len() <= lock.packages.spec_len(),
    ensures
        final(memo).wf(),
        closure_consistent(lock.packages_map(), host_os@, host_cpu@, *final(memo)),
        forall|k: Seq<char>| #[trigger]
            old(memo).as_map().contains_key(k) ==> final(memo).as_map().contains_key(k)
                && final(memo).as_map()[k] == old(memo).as_map()[k],
        forall|k: Seq<char>| #[trigger]
            final(memo).as_map().contains_key(k) ==> !old(visiting).as_map().contains_key(k),
        final(visiting).wf(),
        forall|k: Seq<char>| #[trigger]
            final(visiting).as_map().contains_key(k) <==> old(visiting).as_map().contains_key(k),
        match r {
            Ok(()) => final(memo).as_map().contains_key(name@),
            Err(ClosureError::Cycle(c)) => exists|p: Seq<Seq<char>>|
                closure_cycle(lock.packages_map(), host_os@, host_cpu@, p) && p[0] == c@,
            Err(_) => false,
        },
    decreases lock.packages.spec_len() - vpath.len(), 1int,
{
    let ghost pm = lock.packages_map();
    let ghost hos = host_os@;
    let ghost hcpu = host_cpu@;
    if memo.contains_key(name.as_str()) {
        return Ok(());
    }
    if visiting.contains_key(name.as_str()) {
        proof {
            assert(vpath.contains(name@));
            let j = choose|j: int| 0 <= j < vpath.len() && vpath[j] == name@;
            let p = vpath.skip(j);
            assert(p[0] == name@);
            assert forall|i: int| 0 <= i < p.len() - 1 implies step_edge(
                pm,
                hos,
                hcpu,
                #[trigger] p[i],
                p[i + 1],
            ) by {
                assert(p[i] == vpath[j + i]);
                assert(p[i + 1] == vpath[j + i + 1]);
            }
            assert(p[p.len() - 1] == vpath[vpath.len() - 1]);
            assert(closure_cycle(pm, hos, hcpu, p));
        }
        return Err(ClosureError::Cycle(name.clone()));
    }
    let key = crate::lockfile::make_nm_key(name.as_str());
    let entry = match lock.packages.get(key.as_str()) {
        Some(e) => e,
        None => {
            proof {
                assert(false);
            }
            return Err(ClosureError::Cycle(name.clone()));
        },
    };
    proof {
        assert(pm.contains_key(nm_key(name@)));
        assert(pm[nm_key(name@)] == entry.view());
        assert(entry.wf()) by {
            assert(lock.packages.as_map().contains_key(key@));
        }
    }
    let version = match &entry.version {
        Some(v) => v.clone(),
        None => {
            proof {
                assert(false);
            }
            return Err(ClosureError::Cycle(name.clone()));
        },
    };
    visiting.insert(name.clone(), true);
    let ghost cur = vpath.push(name@);
    proof {
        assert(!vpath.contains(name@));
        assert(cur.no_duplicates());
        assert forall|k: Seq<char>| #[trigger] visiting.as_map().contains_key(k) <==> cur.contains(
            k,
        ) by {
            if k == name@ {
                assert(cur[cur.len() - 1] == name@);
            } else {
                if vpath.contains(k) {
                    let j = choose|j: int| 0 <= j < vpath.len() && vpath[j] == k;
                    assert(cur[j] == k);
                }
                if cur.contains(k) {
                    let j = choose|j: int| 0 <= j < cur.len() && cur[j] == k;
                    assert(j < vpath.len());
                    assert(vpath[j] == k);
                }
            }
        }
        // the extended path still fits the package count
        let kseq = Seq::new(cur.len(), |i: int| nm_key(cur[i]));
        assert(kseq.no_duplicates()) by {
            assert forall|a: int, b: int|
                0 <= a < kseq.len() && 0 <= b < kseq.len() && a != b implies kseq[a] != kseq[b] by {
                if kseq[a] == kseq[b] {
                    lemma_nm_key_of_name(cur[a]);
                    lemma_nm_key_of_name(cur[b]);
                    assert(cur[a] == cur[b]);
                }
            }
        }
        assert forall|i: int| 0 <= i < kseq.len() implies pairs_contain(
            lock.packages.pairs_view(),
            #[trigger] kseq[i],
        ) by {
            assert(pm.contains_key(nm_key(cur[i])));
            assert(lock.packages.as_map().contains_key(nm_key(cur[i])));
        }
        crate::smap::lemma_distinct_members_bound(kseq, lock.packages);
        assert(cur.len() <= lock.packages.spec_len());
    }
    let deps_set = dep_name_set(entry);
    let nd = deps_set.len();
    let ghost ds = Seq::new(deps_set.spec_len(), |i: int| deps_set.pairs_view()[i].0);
    proof {
        assert(sorted_names(ds)) by {
            assert forall|a: int, b: int| 0 <= a < b < ds.len() implies seq_char_lt(
                #[trigger] ds[a],
                #[trigger] ds[b],
            ) by {
                assert(ds[a] == deps_set.pairs_view()[a].0);
                assert(ds[b] == deps_set.pairs_view()[b].0);
            }
        }
        assert forall|d: Seq<char>| ds.contains(d) <==> name_in_entry(entry.view(), d) by {
            if ds.contains(d) {
                let j = choose|j: int| 0 <= j < ds.len() && ds[j] == d;
                deps_set.lemma_as_map_at(j);
                assert(deps_set.as_map().contains_key(d));
            }
            if name_in_entry(entry.view(), d) {
                assert(deps_set.as_map().contains_key(d));
                let j = crate::smap::pair_index_of(deps_set.pairs_view(), d);
                assert(ds[j] == d);
            }
        }
        reveal(fps_along);
        assert(fps_along(pm, hos, hcpu, entry.view(), ds.take(0), *memo) =~= Seq::<
            (Seq<char>, Seq<char>, Option<Seq<char>>),
        >::empty());
    }
    let mut fps: Vec<DependencyFingerprint> = Vec::new();
    let mut i: usize = 0;
    while i < nd
        invariant
            lock.wf(),
            pm == lock.packages_map(),
            hos == host_os@,
            hcpu == host_cpu@,
            deps_set.wf(),
            entry.wf(),
            nd == deps_set.spec_len(),
            i <= nd,
            ds.len() == nd,
            forall|j: int| 0 <= j < nd ==> #[trigger] ds[j] == deps_set.pairs_view()[j].0,
            forall|d: Seq<char>| ds.contains(d) <==> name_in_entry(entry.view(), d),
            pm.contains_key(nm_key(name@)),
            pm[nm_key(name@)] == entry.view(),
            pm[nm_key(name@)].version is Some,
            version@ == pm[nm_key(name@)].version->0,
            memo.wf(),
            closure_consistent(pm, hos, hcpu, *memo),
            forall|k: Seq<char>| #[trigger]
                old(memo).as_map().contains_key(k) ==> memo.as_map().contains_key(k)
                    && memo.as_map()[k] == old(memo).as_map()[k],
            forall|k: Seq<char>| #[trigger]
                memo.as_map().contains_key(k) ==> !visiting.as_map().contains_key(k),
            visiting.wf(),
            forall|k: Seq<char>| #[trigger]
                visiting.as_map().contains_key(k) <==> cur.contains(k),
            cur == vpath.push(name@),
            cur.no_duplicates(),
            forall|k: Seq<char>| #[trigger]
                old(visiting).as_map().contains_key(k) <==> vpath.contains(k),
            forall|j: int|
                0 <= j < cur.len() ==> pm.contains_key(nm_key(#[trigger] cur[j])),
            forall|j: int|
                0 <= j < cur.len() - 1 ==> step_edge(pm, hos, hcpu, #[trigger] cur[j], cur[j + 1]),
            cur.len() <= lock.packages.spec_len(),
            fp_views(fps@) == fps_along(pm, hos, hcpu, entry.view(), ds.take(i as int), *memo),
            forall|j: int|
                0 <= j < i && fp_ok(pm, hos, hcpu, entry.view(), #[trigger] ds[j])
                    ==> memo.as_map().contains_key(ds[j]),
        decreases nd - i,
    {
        let d = deps_set.key_at(i).clone();
        proof {
            assert(ds[i as int] == d@);
            assert(ds.take(i + 1).drop_last() =~= ds.take(i as int));
            assert(ds.take(i + 1).last() == ds[i as int]);
            assert(ds.contains(d@)) by {
                assert(ds[i as int] == d@);
            }
        }
        let ghost pre_memo = *memo;
        let ghost vis_entry = *visiting;
        match close_dep(lock, host_os, host_cpu, name, entry, &d, memo, visiting, Ghost(vpath)) {
            Ok(None) => {
                proof {
                    reveal(fps_along);
                    assert(fps_along(pm, hos, hcpu, entry.view(), ds.take(i + 1), *memo)
                        == fps_along(pm, hos, hcpu, entry.view(), ds.take(i as int), *memo));
                }
            },
            Ok(Some(fp)) => {
                let ghost oldfps = fps@;
                fps.push(fp);
                proof {
                    reveal(fps_along);
                    lemma_fps_stable(pm, hos, hcpu, entry.view(), ds.take(i as int), pre_memo, *memo);
                    assert(fp_views(fps@) =~= fp_views(oldfps).push(crate::graph::fp_view(fp)));
                    assert(fp_views(fps@) =~= fps_along(
                        pm,
                        hos,
                        hcpu,
                        entry.view(),
                        ds.take(i + 1),
                        *memo,
                    ));
                }
            },
            Err(e) => {
                let ghost vis_after = *visiting;
                visiting.remove(name.as_str());
                proof {
                    lemma_restore_visiting(vis_after, *visiting, vpath, name@);
                    assert forall|k: Seq<char>| #[trigger] memo.as_map().contains_key(k)
                        implies !old(visiting).as_map().contains_key(k) by {
                        if old(visiting).as_map().contains_key(k) {
                            assert(vpath.contains(k));
                            assert(cur.contains(k)) by {
                                let j = choose|j: int| 0 <= j < vpath.len() && vpath[j] == k;
                                assert(cur[j] == k);
                            }
                            assert(vis_entry.as_map().contains_key(k));
                        }
                    }
                    assert forall|k: Seq<char>| #[trigger] visiting.as_map().contains_key(k)
                        <==> old(visiting).as_map().contains_key(k) by {
                        assert(visiting.as_map().contains_key(k) <==> vpath.contains(k));
                    }
                }
                return Err(e);
            },
        }
        i = i + 1;
    }
    proof {
        assert(ds.take(nd as int) =~= ds);
    }
    let (hash, skey) = compute_graph_hash(name.as_str(), version.as_str(), &fps);
    let ghost pre = *memo;
    memo.insert(name.clone(), (hash, skey));
    proof {
        assert(!pre.as_map().contains_key(name@)) by {
            assert(visiting.as_map().contains_key(name@)) by {
                assert(cur[cur.len() - 1] == name@);
            }
        }
        assert(memo.as_map() == pre.as_map().insert(name@, (hash, skey)));
        lemma_consistent_insert(pm, hos, hcpu, pre, *memo, name@, ds, (hash, skey));
        // the new entry keeps off the incoming path
        assert forall|k: Seq<char>| #[trigger] memo.as_map().contains_key(k) implies !vpath
            .contains(k) by {
            if k == name@ {
                assert(!vpath.contains(name@));
            } else {
                assert(pre.as_map().contains_key(k));
                assert(!visiting.as_map().contains_key(k));
                if vpath.contains(k) {
                    let j = choose|j: int| 0 <= j < vpath.len() && vpath[j] == k;
                    assert(cur[j] == k);
                }
            }
        }
    }
    let ghost vis_after = *visiting;
    visiting.remove(name.as_str());
    proof {
        lemma_restore_visiting(vis_after, *visiting, vpath, name@);
        assert forall|k: Seq<char>| #[trigger] memo.as_map().contains_key(k) implies !old(
            visiting,
        ).as_map().contains_key(k) by {
            assert(!vpath.contains(k));
        }
        assert forall|k: Seq<char>| #[trigger] visiting.as_map().contains_key(k) <==> old(
            visiting,
        ).as_map().contains_key(k) by {
            assert(visiting.as_map().contains_key(k) <==> vpath.contains(k));
        }
    }
    Ok(())
}

/// Handle one dependency of the entry being fingerprinted: skip it when it
/// does not contribute, otherwise settle it (recursing if needed) and hand
/// back its fingerprint.
#[verifier::rlimit(100)]
#[verifier::spinoff_prover]
fn close_dep(
    lock: &Lockfile,
    host_os: &str,
    host_cpu: &str,
    name: &String,
    entry: &PackageEntry,
    d: &String,
    memo: &mut StrMap<(String, String)>,
    visiting: &mut StrMap<bool>,
    Ghost(vpath): Ghost<Seq<Seq<char>>>,
) -> (r: Result<Option<DependencyFingerprint>, ClosureError>)
    requires
        lock.wf(),
        entry.wf(),
        lock.packages_map().contains_key(nm_key(name@)),
        lock.packages_map()[nm_key(name@)] == entry.view(),
        name_in_entry(entry.view(), d@),
        old(memo).wf(),
        closure_consistent(lock.packages_map(), host_os@, host_cpu@, *old(memo)),
        forall|k: Seq<char>| #[trigger]
            old(memo).as_map().contains_key(k) ==> !old(visiting).as_map().contains_key(k),
        old(visiting).wf(),
        vpath.push(name@).no_duplicates(),
        forall|i: int|
            0 <= i < vpath.push(name@).len() ==> lock.packages_map().contains_key(
                nm_key(#[trigger] vpath.push(name@)[i]),
            ),
        forall|k: Seq<char>| #[trigger]
            old(visiting).as_map().contains_key(k) <==> vpath.push(name@).contains(k),
        forall|i: int|
            0 <= i < vpath.push(name@).len() - 1 ==> step_edge(
                lock.packages_map(),
                host_os@,
                host_cpu@,
                #[trigger] vpath.push(name@)[i],
                vpath.push(name@)[i + 1],
            ),
        vpath.push(name@).len() <= lock.packages.spec_len(),
    ensures
        final(memo).wf(),
        closure_consistent(lock.packages_map(), host_os@, host_cpu@, *final(memo)),
        forall|k: Seq<char>| #[trigger]
            old(memo).as_map().contains_key(k) ==> final(memo).as_map().contains_key(k)
                && final(memo).as_map()[k] == old(memo).as_map()[k],
        forall|k: Seq<char>| #[trigger]
            final(memo).as_map().contains_key(k) ==> !old(visiting).as_map().contains_key(k),
        final(visiting).wf(),
        forall|k: Seq<char>| #[trigger]
            final(visiting).as_map().contains_key(k) <==> old(visiting).as_map().contains_key(k),
        match r {
            Ok(None) => !fp_ok(
                lock.packages_map(),
                host_os@,
                host_cpu@,
                entry.view(),
                d@,
            ) && *final(memo) == *old(memo),
            Ok(Some(fp)) => fp_ok(lock.packages_map(), host_os@, host_cpu@, entry.view(), d@)
                && final(memo).as_map().contains_key(d@) && crate::graph::fp_view(fp) == (
                d@,
                lock.packages_map()[nm_key(d@)].version->0,
                Option::Some(final(memo).as_map()[d@].1@),
            ),
            Err(ClosureError::Cycle(c)) => exists|p: Seq<Seq<char>>|
                closure_cycle(lock.packages_map(), host_os@, host_cpu@, p) && p[0] == c@,
            Err(_) => false,
        },
    decreases lock.packages.spec_len() - vpath.len(), 0int,
{
    let ghost pm = lock.packages_map();
    let ghost hos = host_os@;
    let ghost hcpu = host_cpu@;
    let dkey = crate::lockfile::make_nm_key(d.as_str());
    let dentry = match lock.packages.get(dkey.as_str()) {
        Some(e) => e,
        None => {
            proof {
                assert(!pm.contains_key(nm_key(d@)));
            }
            return Ok(None);
        },
    };
    proof {
        assert(pm.contains_key(nm_key(d@)));
        assert(pm[nm_key(d@)] == dentry.view());
    }
    let dver = match &dentry.version {
        Some(v) => v.clone(),
        None => {
            return Ok(None);
        },
    };
    let platform_fine = platform_supported(&dentry.os, &dentry.cpu_arch, host_os, host_cpu);
    let is_opt = entry.optional_dependencies.contains_key(d.as_str());
    proof {
        if is_opt {
            let j = crate::smap::pair_index_of(entry.optional_dependencies.pairs_view(), d@);
            assert(entry.view().optional_dependencies[j].0 == d@);
            assert(pairs_contain(entry.view().optional_dependencies, d@));
        } else {
            if pairs_contain(entry.view().optional_dependencies, d@) {
                let j = crate::smap::pair_index_of(entry.view().optional_dependencies, d@);
                assert(entry.optional_dependencies.pairs_view()[j].0 == d@);
                assert(pairs_contain(entry.optional_dependencies.pairs_view(), d@));
            }
        }
    }
    if is_opt && !platform_fine {
        proof {
            assert(!fp_ok(pm, hos, hcpu, entry.view(), d@));
        }
        return Ok(None);
    }
    proof {
        assert(fp_ok(pm, hos, hcpu, entry.view(), d@));
    }
    if !memo.contains_key(d.as_str()) {
        proof {
            let cur = vpath.push(name@);
            assert(step_edge(pm, hos, hcpu, name@, d@));
            assert(cur[cur.len() - 1] == name@);
        }
        match close_one(lock, host_os, host_cpu, d, memo, visiting, Ghost(vpath.push(name@))) {
            Ok(()) => {},
            Err(e) => {
                return Err(e);
            },
        }
    }
    let stored = match memo.get(d.as_str()) {
        Some(p) => p.1.clone(),
        None => {
            proof {
                assert(false);
            }
            return Ok(None);
        },
    };
    proof {
        assert(stored@ == memo.as_map()[d@].1@);
    }
    Ok(Some(DependencyFingerprint { name: d.clone(), version: dver, store_key: Some(stored) }))
}

/// Compute graph hashes and store keys for the named packages and their
/// dependency closures, bottom-up and memoized. On success
/// the result assigns every computed name the hash and key of its
/// fingerprint equation; a dependency cycle, or a requested name without an
/// entry or version, stops the pass.
pub fn fingerprint_closure(
    lock: &Lockfile,
    names: &Vec<String>,
    host_os: &str,
    host_cpu: &str,
) -> (r: Result<StrMap<(String, String)>, ClosureError>)
    requires
        lock.wf(),
    ensures
        match r {
            Ok(m) => {
                &&& m.wf()
                &&& closure_consistent(lock.packages_map(), host_os@, host_cpu@, m)
                &&& forall|i: int|
                    0 <= i < names@.len() ==> m.as_map().contains_key(((#[trigger] names@[i])@))
            },
            Err(ClosureError::MissingEntry(n)) => !lock.packages_map().contains_key(nm_key(n@))
                && (exists|i: int| 0 <= i < names@.len() && (#[trigger] names@[i])@ == n@),
            Err(ClosureError::MissingVersion(n)) => lock.packages_map().contains_key(nm_key(n@))
                && lock.packages_map()[nm_key(n@)].version is None && (exists|i: int|
                0 <= i < names@.len() && (#[trigger] names@[i])@ == n@),
            Err(ClosureError::Cycle(c)) => exists|p: Seq<Seq<char>>|
                closure_cycle(lock.packages_map(), host_os@, host_cpu@, p) && p[0] == c@,
        },
{
    let ghost pm = lock.packages_map();
    let mut memo: StrMap<(String, String)> = StrMap::new();
    let mut visiting: StrMap<bool> = StrMap::new();
    let n = names.len();
    let mut i: usize = 0;
    proof {
        reveal(closure_consistent);
        assert forall|k: Seq<char>| !(#[trigger] memo.as_map().contains_key(k)) by {}
        assert forall|k: Seq<char>| !(#[trigger] visiting.as_map().contains_key(k)) by {}
    }
    while i < n
        invariant
            lock.wf(),
            pm == lock.packages_map(),
            n == names@.len(),
            i <= n,
            memo.wf(),
            closure_consistent(pm, host_os@, host_cpu@, memo),
            visiting.wf(),
            forall|k: Seq<char>| !(#[trigger] visiting.as_map().contains_key(k)),
            forall|j: int|
                0 <= j < i ==> memo.as_map().contains_key(((#[trigger] names@[j])@)),
        decreases n - i,
    {
        let name = &names[i];
        let key = crate::lockfile::make_nm_key(name.as_str());
        let entry = match lock.packages.get(key.as_str()) {
            Some(e) => e,
            None => {
                return Err(ClosureError::MissingEntry(name.clone()));
            },
        };
        if entry.version.is_none() {
            proof {
                lock.lemma_entry_at_wf(crate::smap::pair_index_of(
                    lock.packages.pairs_view(),
                    key@,
                ));
                assert(pm[nm_key(name@)] == entry.view());
            }
            return Err(ClosureError::MissingVersion(name.clone()));
        }
        proof {
            assert(pm.contains_key(nm_key(name@)));
            assert(pm[nm_key(name@)] == entry.view());
            assert(pm[nm_key(name@)].version is Some);
            assert(Seq::<Seq<char>>::empty().no_duplicates());
            assert forall|k: Seq<char>| #[trigger] visiting.as_map().contains_key(k)
                <==> Seq::<Seq<char>>::empty().contains(k) by {}
        }
        let ghost empty_path: Seq<Seq<char>> = Seq::empty();
        match close_one(lock, host_os, host_cpu, name, &mut memo, &mut visiting, Ghost(empty_path))
        {
            Ok(()) => {},
            Err(e) => {
                return Err(e);
            },
        }
        i = i + 1;
    }
    Ok(memo)
}

} // verus!
