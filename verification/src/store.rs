//! The content-addressed store and tarball-cache layout: path computation
//! over forward-slash relative paths (the surrounding program joins them to
//! its roots), store entries, and the store-key arithmetic.

use vstd::prelude::*;

verus! {

use crate::strutil::{string_to_chars, chars_to_string};
use crate::canon::push_all;
use crate::graph::DependencyFingerprint;

/// A store entry as read back from its metadata record. Paths are kept as
/// forward-slash relative paths under the store root.
pub struct StoreEntry {
    pub store_key: String,
    pub name: String,
    pub version: String,
    pub graph_hash: String,
    pub content_hash: String,
    pub size: u64,
    pub integrity: Option<String>,
    pub resolved: Option<String>,
    pub created_at: u64,
    pub dependencies: Vec<crate::graph::StoredDependency>,
    pub root_dir: String,
    pub package_dir: String,
    pub metadata_path: String,
}

impl StoreEntry {
    /// The directory holding the entry's package tree.
    pub fn package_dir(&self) -> (r: &String)
        ensures
            r@ == self.package_dir@,
    {
        &self.package_dir
    }
}

/// What `ensure_entry` needs to stage a store entry.
pub struct EnsureParams {
    pub name: String,
    pub version: String,
    pub dependencies: Vec<DependencyFingerprint>,
    pub source_dir: String,
    pub integrity: Option<String>,
    pub resolved: Option<String>,
}

/// The store: its root and the fixed subdirectories under it, as relative
/// path text.
pub struct CasStore {
    pub root: String,
    pub packages_dir: String,
    pub tmp_dir: String,
}

impl CasStore {
    /// A store rooted at the given path text.
    pub fn open(root: String) -> (r: Self)
        ensures
            r.root@ == root@,
            r.packages_dir@ == root@ + seq!['/', 'p', 'a', 'c', 'k', 'a', 'g', 'e', 's'],
            r.tmp_dir@ == root@ + seq!['/', 't', 'm', 'p'],
    {
        let rv = string_to_chars(root.as_str());
        let mut p = Vec::new();
        push_all(&mut p, &rv);
        crate::canon::push_str_chars(&mut p, &['/', 'p', 'a', 'c', 'k', 'a', 'g', 'e', 's']);
        let mut t = Vec::new();
        push_all(&mut t, &rv);
        crate::canon::push_str_chars(&mut t, &['/', 't', 'm', 'p']);
        CasStore { root, packages_dir: chars_to_string(&p), tmp_dir: chars_to_string(&t) }
    }

    /// The store root.
    pub fn root(&self) -> (r: &String)
        ensures
            r@ == self.root@,
    {
        &self.root
    }

    /// The entry directory for a package, under the packages directory: the
    /// name's segments each a directory, then `<leaf>@<version>_<graph-hash>`
    /// as the final component — as text, the packages directory, a slash,
    /// the name, then `@<version>_<graph-hash>`.
    pub fn store_dir_for(&self, name: &str, version: &str, graph_hash: &str) -> (r: String)
        ensures
            r@ == self.packages_dir@ + seq!['/'] + name@ + seq!['@'] + version@ + seq!['_']
                + graph_hash@,
    {
        let mut out = string_to_chars(self.packages_dir.as_str());
        out.push('/');
        let nv = string_to_chars(name);
        push_all(&mut out, &nv);
        out.push('@');
        let vv = string_to_chars(version);
        push_all(&mut out, &vv);
        out.push('_');
        let hv = string_to_chars(graph_hash);
        push_all(&mut out, &hv);
        proof {
            assert(out@ =~= self.packages_dir@ + seq!['/'] + name@ + seq!['@'] + version@ + seq![
                '_',
            ] + graph_hash@);
        }
        chars_to_string(&out)
    }
}

/// The tarball-cache directory of a package, relative to the cache root:
/// `pkgs/<name-segments>/<version>`.
pub fn cache_dir_for(name: &str, version: &str) -> (r: String)
    ensures
        r@ == seq!['p', 'k', 'g', 's', '/'] + name@ + seq!['/'] + version@,
{
    let mut out: Vec<char> = Vec::new();
    crate::canon::push_str_chars(&mut out, &['p', 'k', 'g', 's', '/']);
    let nv = string_to_chars(name);
    push_all(&mut out, &nv);
    out.push('/');
    let vv = string_to_chars(version);
    push_all(&mut out, &vv);
    proof {
        assert(out@ =~= seq!['p', 'k', 'g', 's', '/'] + name@ + seq!['/'] + version@);
    }
    chars_to_string(&out)
}

/// The materialized package tree of a cached package:
/// `pkgs/<name>/<version>/package`.
pub fn cache_package_path(name: &str, version: &str) -> (r: String)
    ensures
        r@ == seq!['p', 'k', 'g', 's', '/'] + name@ + seq!['/'] + version@ + seq![
            '/',
            'p',
            'a',
            'c',
            'k',
            'a',
            'g',
            'e',
        ],
{
    let base = cache_dir_for(name, version);
    let mut out = string_to_chars(base.as_str());
    crate::canon::push_str_chars(&mut out, &['/', 'p', 'a', 'c', 'k', 'a', 'g', 'e']);
    proof {
        assert(out@ =~= seq!['p', 'k', 'g', 's', '/'] + name@ + seq!['/'] + version@ + seq![
            '/',
            'p',
            'a',
            'c',
            'k',
            'a',
            'g',
            'e',
        ]);
    }
    chars_to_string(&out)
}

/// The flat-store directory of a raw digest, relative to the store root:
/// `sha512/<first-two>/<digest>`.
pub fn package_dir(sha512_hex: &str) -> (r: String)
    ensures
        sha512_hex@.len() >= 2 ==> r@ == seq!['s', 'h', 'a', '5', '1', '2', '/'] + sha512_hex@.take(
            2,
        ) + seq!['/'] + sha512_hex@,
        sha512_hex@.len() < 2 ==> r@ == seq!['s', 'h', 'a', '5', '1', '2', '/'] + sha512_hex@
            + seq!['/'] + sha512_hex@,
{
    let hv = string_to_chars(sha512_hex);
    let mut out: Vec<char> = Vec::new();
    crate::canon::push_str_chars(&mut out, &['s', 'h', 'a', '5', '1', '2', '/']);
    if hv.len() >= 2 {
        out.push(hv[0]);
        out.push(hv[1]);
    } else {
        push_all(&mut out, &hv);
    }
    out.push('/');
    push_all(&mut out, &hv);
    proof {
        if sha512_hex@.len() >= 2 {
            assert(out@ =~= seq!['s', 'h', 'a', '5', '1', '2', '/'] + sha512_hex@.take(2) + seq![
                '/',
            ] + sha512_hex@);
        } else {
            assert(out@ =~= seq!['s', 'h', 'a', '5', '1', '2', '/'] + sha512_hex@ + seq!['/']
                + sha512_hex@);
        }
    }
    chars_to_string(&out)
}

/// The package tree under a flat-store directory.
pub fn package_path(sha512_hex: &str) -> (r: String)
    ensures
        sha512_hex@.len() >= 2 ==> r@ == seq!['s', 'h', 'a', '5', '1', '2', '/'] + sha512_hex@.take(
            2,
        ) + seq!['/'] + sha512_hex@ + seq!['/', 'p', 'a', 'c', 'k', 'a', 'g', 'e'],
        sha512_hex@.len() < 2 ==> r@ == seq!['s', 'h', 'a', '5', '1', '2', '/'] + sha512_hex@
            + seq!['/'] + sha512_hex@ + seq!['/', 'p', 'a', 'c', 'k', 'a', 'g', 'e'],
{
    let base = package_dir(sha512_hex);
    let mut out = string_to_chars(base.as_str());
    crate::canon::push_str_chars(&mut out, &['/', 'p', 'a', 'c', 'k', 'a', 'g', 'e']);
    proof {
        if sha512_hex@.len() >= 2 {
            assert(out@ =~= seq!['s', 'h', 'a', '5', '1', '2', '/'] + sha512_hex@.take(2) + seq![
                '/',
            ] + sha512_hex@ + seq!['/', 'p', 'a', 'c', 'k', 'a', 'g', 'e']);
        } else {
            assert(out@ =~= seq!['s', 'h', 'a', '5', '1', '2', '/'] + sha512_hex@ + seq!['/']
                + sha512_hex@ + seq!['/', 'p', 'a', 'c', 'k', 'a', 'g', 'e']);
        }
    }
    chars_to_string(&out)
}

/// The name with every path separator replaced by an underscore.
pub open spec fn sanitized(name: Seq<char>) -> Seq<char> {
    name.map_values(
        |c: char|
            if c == '/' || c == '\\' {
                '_'
            } else {
                c
            },
    )
}

/// Replace path separators in a name so it can stand in one path segment;
/// an empty name becomes a single underscore.
pub fn sanitize_for_fs(name: &str) -> (r: String)
    ensures
        r@ == (if name@.len() == 0 {
            seq!['_']
        } else {
            sanitized(name@)
        }),
{
    let nv = string_to_chars(name);
    let mut out: Vec<char> = Vec::new();
    let n = nv.len();
    let mut i: usize = 0;
    while i < n
        invariant
            n == nv@.len(),
            nv@ == name@,
            i <= n,
            out@ =~= sanitized(name@).take(i as int),
        decreases n - i,
    {
        let c = nv[i];
        if c == '/' || c == '\\' {
            out.push('_');
        } else {
            out.push(c);
        }
        proof {
            assert(out@ =~= sanitized(name@).take(i + 1));
        }
        i = i + 1;
    }
    proof {
        assert(sanitized(name@).take(n as int) =~= sanitized(name@));
    }
    if out.len() == 0 {
        out.push('_');
        proof {
            assert(out@ =~= seq!['_']);
        }
    }
    chars_to_string(&out)
}

/// Join a relative path onto a base, refusing parent traversal: any `..`
/// anywhere in the relative part is rejected. The join is plain text with a
/// slash between the parts; a rooted `rel` does not displace the base.
pub fn safe_join(base: &str, rel: &str) -> (r: Option<String>)
    ensures
        match r {
            Some(p) => p@ == base@ + seq!['/'] + rel@ && !has_dotdot(rel@),
            None => has_dotdot(rel@),
        },
{
    let rv = string_to_chars(rel);
    let n = rv.len();
    if n >= 2 {
        let mut i: usize = 0;
        while i <= n - 2
            invariant
                2 <= n == rv@.len(),
                i <= n - 1,
                forall|j: int| 0 <= j < i ==> !dotdot_at(rel@, j),
                rv@ == rel@,
            decreases n - i,
        {
            if rv[i] == '.' && rv[i + 1] == '.' {
                proof {
                    assert(dotdot_at(rel@, i as int));
                }
                return None;
            }
            i = i + 1;
        }
        proof {
            assert forall|j: int| true implies !dotdot_at(rel@, j) by {
                if 0 <= j && j + 2 <= rel@.len() {
                    assert(j <= n - 2);
                }
            }
        }
    } else {
        proof {
            assert forall|j: int| true implies !dotdot_at(rel@, j) by {}
        }
    }
    let mut out = string_to_chars(base);
    out.push('/');
    push_all(&mut out, &rv);
    proof {
        assert(out@ =~= base@ + seq!['/'] + rel@);
    }
    Some(chars_to_string(&out))
}

/// Two consecutive dots at `i`.
pub open spec fn dotdot_at(s: Seq<char>, i: int) -> bool {
    0 <= i && i + 2 <= s.len() && s[i] == '.' && s[i + 1] == '.'
}

/// The string holds `..` somewhere.
pub open spec fn has_dotdot(s: Seq<char>) -> bool {
    exists|i: int| dotdot_at(s, i)
}

} // verus!
