//! Dependency specifier classification: registry ranges, git-host
//! `owner/repo[#ref]` forms, and remote tarball URLs, plus the helpers that
//! guess a package name from a non-registry source and split `name@range`
//! command-line specifiers.

use vstd::prelude::*;

verus! {

use crate::strutil::{string_to_chars, chars_to_string};
use crate::canon::{trim_chars, trim_sp};

pub struct GithubSpec {
    pub owner: String,
    pub repo: String,
    pub reference: Option<String>,
}

pub enum PackageSpec {
    Registry { range: String },
    Github(GithubSpec),
    Tarball { url: String },
}

/// Whether `s` starts with the given prefix.
pub open spec fn starts_with(s: Seq<char>, p: Seq<char>) -> bool {
    s.len() >= p.len() && s.take(p.len() as int) == p
}

/// Whether `s` ends with the given suffix.
pub open spec fn ends_with(s: Seq<char>, p: Seq<char>) -> bool {
    s.len() >= p.len() && s.skip(s.len() - p.len()) == p
}

pub open spec fn char_at(s: Seq<char>, i: int, c: char) -> bool {
    0 <= i < s.len() && s[i] == c
}

pub open spec fn has_char(s: Seq<char>, c: char) -> bool {
    exists|i: int| char_at(s, i, c)
}

/// The first position of `c` in `s`, when there is one.
pub open spec fn first_char(s: Seq<char>, c: char) -> int {
    choose|i: int| char_at(s, i, c) && forall|j: int| 0 <= j < i ==> s[j] != c
}

/// The last position of `c` in `s`, when there is one.
pub open spec fn last_char(s: Seq<char>, c: char) -> int {
    choose|i: int| char_at(s, i, c) && forall|j: int| i < j < s.len() ==> s[j] != c
}

proof fn lemma_first_char_is(s: Seq<char>, c: char, i: int)
    requires
        char_at(s, i, c),
        forall|j: int| 0 <= j < i ==> s[j] != c,
    ensures
        has_char(s, c),
        first_char(s, c) == i,
{
    let k = first_char(s, c);
    assert(char_at(s, k, c) && forall|j: int| 0 <= j < k ==> s[j] != c);
    if k < i {
        assert(s[k] != c);
    }
    if k > i {
        assert(s[i] != c);
    }
}

proof fn lemma_last_char_is(s: Seq<char>, c: char, i: int)
    requires
        char_at(s, i, c),
        forall|j: int| i < j < s.len() ==> s[j] != c,
    ensures
        has_char(s, c),
        last_char(s, c) == i,
{
    let k = last_char(s, c);
    assert(char_at(s, k, c) && forall|j: int| k < j < s.len() ==> s[j] != c);
    if k < i {
        assert(s[i] != c);
    }
    if k > i {
        assert(s[k] != c);
    }
}

/// Check a prefix, handing back the rest.
fn strip_prefix_chars(v: &Vec<char>, p: &[char]) -> (r: Option<Vec<char>>)
    ensures
        match r {
            Some(rest) => starts_with(v@, p@) && rest@ == v@.skip(p@.len() as int),
            None => !starts_with(v@, p@),
        },
{
    let pl = p.len();
    if v.len() < pl {
        return None;
    }
    let mut i: usize = 0;
    while i < pl
        invariant
            pl == p@.len() <= v@.len(),
            i <= pl,
            forall|j: int| 0 <= j < i ==> v@[j] == p@[j],
        decreases pl - i,
    {
        if v[i] != p[i] {
            proof {
                if starts_with(v@, p@) {
                    assert(v@.take(p@.len() as int)[i as int] == v@[i as int]);
                }
            }
            return None;
        }
        i = i + 1;
    }
    proof {
        assert(v@.take(pl as int) =~= p@);
    }
    let mut rest: Vec<char> = Vec::new();
    let mut k: usize = pl;
    while k < v.len()
        invariant
            pl <= k <= v@.len(),
            rest@ =~= v@.subrange(pl as int, k as int),
        decreases v@.len() - k,
    {
        rest.push(v[k]);
        k = k + 1;
        proof {
            assert(rest@ =~= v@.subrange(pl as int, k as int));
        }
    }
    proof {
        assert(rest@ =~= v@.skip(pl as int));
    }
    Some(rest)
}

/// Check a suffix, handing back the front.
fn strip_suffix_chars(v: &Vec<char>, p: &[char]) -> (r: Option<Vec<char>>)
    requires
        p@.len() > 0,
    ensures
        match r {
            Some(front) => ends_with(v@, p@) && front@ == v@.take(v@.len() - p@.len()),
            None => !ends_with(v@, p@),
        },
{
    let n = v.len();
    let m = p.len();
    if n < m {
        return None;
    }
    let mut i: usize = 0;
    while i < m
        invariant
            0 < m == p@.len() <= n == v@.len(),
            i <= m,
            forall|j: int| 0 <= j < i ==> v@[n - m + j] == p@[j],
        decreases m - i,
    {
        if v[n - m + i] != p[i] {
            proof {
                if ends_with(v@, p@) {
                    assert(v@.skip(v@.len() - p@.len())[i as int] == v@[n - m + i]);
                }
            }
            return None;
        }
        i = i + 1;
    }
    proof {
        assert(v@.skip(v@.len() - p@.len()) =~= p@);
    }
    let mut front: Vec<char> = Vec::new();
    let mut k: usize = 0;
    while k < n - m
        invariant
            m <= n == v@.len(),
            k <= n - m,
            front@ =~= v@.subrange(0, k as int),
        decreases n - m - k,
    {
        front.push(v[k]);
        k = k + 1;
        proof {
            assert(front@ =~= v@.subrange(0, k as int));
        }
    }
    proof {
        assert(front@ =~= v@.take(v@.len() - p@.len()));
    }
    Some(front)
}

/// The string with every trailing occurrence of the suffix removed.
pub open spec fn strip_all(s: Seq<char>, suf: Seq<char>) -> Seq<char>
    decreases s.len(),
{
    if suf.len() > 0 && ends_with(s, suf) {
        strip_all(s.take(s.len() - suf.len()), suf)
    } else {
        s
    }
}

/// Remove every trailing occurrence of the suffix.
fn strip_all_exec(v: Vec<char>, suf: &[char]) -> (r: Vec<char>)
    requires
        suf@.len() > 0,
    ensures
        r@ == strip_all(v@, suf@),
{
    let mut cur = v;
    let ghost orig = cur@;
    let mut done = false;
    while !done
        invariant
            suf@.len() > 0,
            strip_all(orig, suf@) == strip_all(cur@, suf@),
            done ==> !ends_with(cur@, suf@),
        decreases cur@.len() + (if done {
            0int
        } else {
            1int
        }),
    {
        match strip_suffix_chars(&cur, suf) {
            Some(front) => {
                cur = front;
            },
            None => {
                done = true;
            },
        }
    }
    proof {
        assert(strip_all(cur@, suf@) == cur@);
    }
    cur
}

/// A `http://` or `https://` URL.
pub open spec fn is_http_url_spec(s: Seq<char>) -> bool {
    starts_with(s, seq!['h', 't', 't', 'p', ':', '/', '/']) || starts_with(
        s,
        seq!['h', 't', 't', 'p', 's', ':', '/', '/'],
    )
}

pub fn is_http_url(value: &Vec<char>) -> (r: bool)
    ensures
        r == is_http_url_spec(value@),
{
    let a = strip_prefix_chars(value, &['h', 't', 't', 'p', ':', '/', '/']);
    if a.is_some() {
        return true;
    }
    let b = strip_prefix_chars(value, &['h', 't', 't', 'p', 's', ':', '/', '/']);
    b.is_some()
}

/// The index of the first occurrence of `c`, if any.
fn find_char(v: &Vec<char>, c: char) -> (r: Option<usize>)
    ensures
        match r {
            Some(i) => has_char(v@, c) && i as int == first_char(v@, c) && char_at(
                v@,
                i as int,
                c,
            ) && (forall|j: int| 0 <= j < i ==> v@[j] != c),
            None => !has_char(v@, c),
        },
{
    let n = v.len();
    let mut i: usize = 0;
    while i < n
        invariant
            n == v@.len(),
            i <= n,
            forall|j: int| 0 <= j < i ==> v@[j] != c,
        decreases n - i,
    {
        if v[i] == c {
            proof {
                lemma_first_char_is(v@, c, i as int);
            }
            return Some(i);
        }
        i = i + 1;
    }
    proof {
        if has_char(v@, c) {
            let w = choose|w: int| char_at(v@, w, c);
            assert(v@[w] != c);
        }
    }
    None
}

/// The index of the last occurrence of `c`, if any.
fn rfind_char(v: &Vec<char>, c: char) -> (r: Option<usize>)
    ensures
        match r {
            Some(i) => has_char(v@, c) && i as int == last_char(v@, c) && char_at(
                v@,
                i as int,
                c,
            ) && (forall|j: int| i < j < v@.len() ==> v@[j] != c),
            None => !has_char(v@, c),
        },
{
    let n = v.len();
    let mut i: usize = n;
    while i > 0
        invariant
            n == v@.len(),
            i <= n,
            forall|j: int| i <= j < n ==> v@[j] != c,
        decreases i,
    {
        i = i - 1;
        if v[i] == c {
            proof {
                lemma_last_char_is(v@, c, i as int);
            }
            return Some(i);
        }
    }
    proof {
        if has_char(v@, c) {
            let w = choose|w: int| char_at(v@, w, c);
            assert(v@[w] != c);
        }
    }
    None
}

fn sub_chars(v: &Vec<char>, a: usize, b: usize) -> (r: Vec<char>)
    requires
        a <= b <= v@.len(),
    ensures
        r@ == v@.subrange(a as int, b as int),
{
    let mut out: Vec<char> = Vec::new();
    let mut i: usize = a;
    while i < b
        invariant
            a <= i <= b <= v@.len(),
            out@ =~= v@.subrange(a as int, i as int),
        decreases b - i,
    {
        out.push(v[i]);
        i = i + 1;
        proof {
            assert(out@ =~= v@.subrange(a as int, i as int));
        }
    }
    out
}

impl GithubSpec {
    /// The requested reference, when one was written after `#`.
    pub fn display_ref(&self) -> (r: Option<&String>)
        ensures
            match r {
                Some(s) => self.reference is Some && s@ == self.reference->0@,
                None => self.reference is None,
            },
    {
        match &self.reference {
            Some(s) => Some(s),
            None => None,
        }
    }
}

// ---------------------------------------------------------------------------
// the git-host grammar, `owner/repo[#ref]`
// ---------------------------------------------------------------------------

/// The part before the first `#`, or the whole input.
pub open spec fn gh_path(s: Seq<char>) -> Seq<char> {
    if has_char(s, '#') {
        s.take(first_char(s, '#'))
    } else {
        s
    }
}

/// The trimmed reference after the first `#`, when one was written.
pub open spec fn gh_reference(s: Seq<char>) -> Option<Seq<char>> {
    if has_char(s, '#') {
        Option::Some(trim_sp(s.skip(first_char(s, '#') + 1)))
    } else {
        Option::None
    }
}

/// The path segment before the first `/`, untrimmed.
pub open spec fn gh_owner_raw(s: Seq<char>) -> Seq<char> {
    gh_path(s).take(first_char(gh_path(s), '/'))
}

/// The path after the first `/`, untrimmed.
pub open spec fn gh_rest(s: Seq<char>) -> Seq<char> {
    gh_path(s).skip(first_char(gh_path(s), '/') + 1)
}

/// A well-formed git-host specifier: no leading `@`, no space, and a path of
/// exactly two nonempty segments.
pub open spec fn gh_ok(s: Seq<char>) -> bool {
    &&& !(s.len() > 0 && s[0] == '@')
    &&& !has_char(s, ' ')
    &&& has_char(gh_path(s), '/')
    &&& !has_char(gh_rest(s), '/')
    &&& trim_sp(gh_owner_raw(s)).len() > 0
    &&& trim_sp(gh_rest(s)).len() > 0
}

pub open spec fn gh_owner(s: Seq<char>) -> Seq<char> {
    trim_sp(gh_owner_raw(s))
}

/// The trimmed repository, with one trailing `.git` dropped.
pub open spec fn gh_repo(s: Seq<char>) -> Seq<char> {
    let t = trim_sp(gh_rest(s));
    if ends_with(t, seq!['.', 'g', 'i', 't']) {
        t.take(t.len() - 4)
    } else {
        t
    }
}

/// Parse `owner/repo[#ref]`: `Some` exactly on the well-formed shape, with
/// owner and repository trimmed, a trailing `.git` dropped, and the
/// reference after `#` trimmed.
pub fn parse_github(input: &Vec<char>) -> (r: Option<GithubSpec>)
    ensures
        match r {
            Some(g) => gh_ok(input@) && g.owner@ == gh_owner(input@) && g.repo@ == gh_repo(input@)
                && crate::lockfile::ostr(g.reference) == gh_reference(input@),
            None => !gh_ok(input@),
        },
{
    let n = input.len();
    if n > 0 && input[0] == '@' {
        return None;
    }
    let mut i: usize = 0;
    while i < n
        invariant
            n == input@.len(),
            i <= n,
            forall|j: int| 0 <= j < i ==> input@[j] != ' ',
        decreases n - i,
    {
        if input[i] == ' ' {
            proof {
                assert(char_at(input@, i as int, ' '));
                assert(has_char(input@, ' '));
            }
            return None;
        }
        i = i + 1;
    }
    proof {
        if has_char(input@, ' ') {
            let w = choose|w: int| char_at(input@, w, ' ');
            assert(input@[w] != ' ');
        }
    }
    let (path, reference) = match find_char(input, '#') {
        Some(h) => {
            let path = sub_chars(input, 0, h);
            let tail = sub_chars(input, h + 1, n);
            let trimmed = trim_chars(&tail);
            (path, Some(chars_to_string(&trimmed)))
        },
        None => {
            let path = sub_chars(input, 0, n);
            (path, None)
        },
    };
    proof {
        assert(path@ == gh_path(input@));
        assert(crate::lockfile::ostr(reference) == gh_reference(input@));
    }
    let slash = match find_char(&path, '/') {
        Some(s) => s,
        None => {
            return None;
        },
    };
    let pl = path.len();
    let owner_raw = sub_chars(&path, 0, slash);
    let rest = sub_chars(&path, slash + 1, pl);
    proof {
        assert(owner_raw@ == gh_owner_raw(input@));
        assert(rest@ == gh_rest(input@));
    }
    // a second separator means more than two segments
    match find_char(&rest, '/') {
        Some(_) => {
            return None;
        },
        None => {},
    }
    let owner = trim_chars(&owner_raw);
    let repo_t = trim_chars(&rest);
    if owner.len() == 0 || repo_t.len() == 0 {
        return None;
    }
    // drop a trailing `.git`
    let repo_final = match strip_suffix_chars(&repo_t, &['.', 'g', 'i', 't']) {
        Some(stripped) => stripped,
        None => repo_t,
    };
    proof {
        assert(gh_ok(input@));
        assert(repo_final@ == gh_repo(input@));
    }
    Some(
        GithubSpec {
            owner: chars_to_string(&owner),
            repo: chars_to_string(&repo_final),
            reference,
        },
    )
}

// ---------------------------------------------------------------------------
// classification
// ---------------------------------------------------------------------------

/// The abstract shape a raw specifier classifies to.
pub ghost enum SpecShape {
    Registry(Seq<char>),
    GitHost(Seq<char>, Seq<char>, Option<Seq<char>>),
    RemoteTarball(Seq<char>),
}

/// The classification rules, in order: `npm:` forces a registry range; a
/// `github:` prefix or a bare well-formed `owner/repo[#ref]` names a git
/// host; `git+http(s)` or a plain URL names a remote tarball; anything else
/// is a registry range, trimmed.
pub open spec fn classify(raw: Seq<char>) -> SpecShape {
    let t = trim_sp(raw);
    if starts_with(t, seq!['n', 'p', 'm', ':']) {
        SpecShape::Registry(t.skip(4))
    } else if starts_with(t, seq!['g', 'i', 't', 'h', 'u', 'b', ':']) && gh_ok(t.skip(7)) {
        SpecShape::GitHost(gh_owner(t.skip(7)), gh_repo(t.skip(7)), gh_reference(t.skip(7)))
    } else if gh_ok(t) {
        SpecShape::GitHost(gh_owner(t), gh_repo(t), gh_reference(t))
    } else if starts_with(t, seq!['g', 'i', 't', '+']) && is_http_url_spec(t.skip(4)) {
        SpecShape::RemoteTarball(t.skip(4))
    } else if is_http_url_spec(t) {
        SpecShape::RemoteTarball(t)
    } else {
        SpecShape::Registry(t)
    }
}

/// The shape a specifier value stands for.
pub open spec fn shape_of(p: PackageSpec) -> SpecShape {
    match p {
        PackageSpec::Registry { range } => SpecShape::Registry(range@),
        PackageSpec::Github(g) => SpecShape::GitHost(
            g.owner@,
            g.repo@,
            crate::lockfile::ostr(g.reference),
        ),
        PackageSpec::Tarball { url } => SpecShape::RemoteTarball(url@),
    }
}

impl PackageSpec {
    /// Classify a raw specifier by the rules of `classify`.
    pub fn parse(raw: &str) -> (r: Self)
        ensures
            shape_of(r) == classify(raw@),
    {
        let rv = string_to_chars(raw);
        let trimmed = trim_chars(&rv);
        if let Some(rest) = strip_prefix_chars(&trimmed, &['n', 'p', 'm', ':']) {
            return PackageSpec::Registry { range: chars_to_string(&rest) };
        }
        if let Some(rest) = strip_prefix_chars(
            &trimmed,
            &['g', 'i', 't', 'h', 'u', 'b', ':'],
        ) {
            if let Some(spec) = parse_github(&rest) {
                return PackageSpec::Github(spec);
            }
        }
        if let Some(spec) = parse_github(&trimmed) {
            return PackageSpec::Github(spec);
        }
        if let Some(rest) = strip_prefix_chars(&trimmed, &['g', 'i', 't', '+']) {
            if is_http_url(&rest) {
                return PackageSpec::Tarball { url: chars_to_string(&rest) };
            }
        }
        if is_http_url(&trimmed) {
            return PackageSpec::Tarball { url: chars_to_string(&trimmed) };
        }
        PackageSpec::Registry { range: chars_to_string(&trimmed) }
    }
}

// ---------------------------------------------------------------------------
// name guessing
// ---------------------------------------------------------------------------

/// The repository's part after its last `/`, or the whole repository.
pub open spec fn repo_leaf(repo: Seq<char>) -> Seq<char> {
    if has_char(repo, '/') {
        repo.skip(last_char(repo, '/') + 1)
    } else {
        repo
    }
}

/// The file stem of a tarball URL: the last path segment before any query
/// string, with every trailing `.tar.gz`, `.tgz` and `.tar` removed, in
/// that order.
pub open spec fn tarball_stem(url: Seq<char>) -> Seq<char> {
    let upto = if has_char(url, '?') {
        url.take(first_char(url, '?'))
    } else {
        url
    };
    let file = if has_char(upto, '/') {
        upto.skip(last_char(upto, '/') + 1)
    } else {
        upto
    };
    strip_all(
        strip_all(strip_all(file, seq!['.', 't', 'a', 'r', '.', 'g', 'z']), seq![
            '.',
            't',
            'g',
            'z',
        ]),
        seq!['.', 't', 'a', 'r'],
    )
}

/// Guess a package name for a non-registry source: the repository leaf for
/// a git host, the nonempty file stem for a tarball, nothing for a registry
/// range.
pub fn guess_name_from_spec(raw: &str) -> (r: Option<String>)
    ensures
        match (classify(raw@), r) {
            (SpecShape::GitHost(_, repo, _), Some(name)) => name@ == repo_leaf(repo),
            (SpecShape::RemoteTarball(url), Some(name)) => tarball_stem(url).len() > 0 && name@
                == tarball_stem(url),
            (SpecShape::RemoteTarball(url), None) => tarball_stem(url).len() == 0,
            (SpecShape::Registry(_), None) => true,
            _ => false,
        },
{
    match PackageSpec::parse(raw) {
        PackageSpec::Github(spec) => {
            let rv = string_to_chars(spec.repo.as_str());
            let rl = rv.len();
            match rfind_char(&rv, '/') {
                Some(idx) => {
                    let tail = sub_chars(&rv, idx + 1, rl);
                    proof {
                        assert(tail@ == repo_leaf(spec.repo@));
                    }
                    Some(chars_to_string(&tail))
                },
                None => {
                    proof {
                        assert(spec.repo@ == repo_leaf(spec.repo@));
                    }
                    Some(spec.repo)
                },
            }
        },
        PackageSpec::Tarball { url } => {
            let uv = string_to_chars(url.as_str());
            // cut at the query string, then take the last path segment
            let upto = match find_char(&uv, '?') {
                Some(q) => sub_chars(&uv, 0, q),
                None => uv,
            };
            let ul = upto.len();
            let file = match rfind_char(&upto, '/') {
                Some(idx) => sub_chars(&upto, idx + 1, ul),
                None => upto,
            };
            let f1 = strip_all_exec(file, &['.', 't', 'a', 'r', '.', 'g', 'z']);
            let f2 = strip_all_exec(f1, &['.', 't', 'g', 'z']);
            let f3 = strip_all_exec(f2, &['.', 't', 'a', 'r']);
            proof {
                assert(f3@ == tarball_stem(url@));
            }
            if f3.len() == 0 {
                None
            } else {
                Some(chars_to_string(&f3))
            }
        },
        PackageSpec::Registry { .. } => None,
    }
}

// ---------------------------------------------------------------------------
// command-line specifiers
// ---------------------------------------------------------------------------

/// An empty range becomes `*`.
pub open spec fn default_star(range: Seq<char>) -> Seq<char> {
    if range.len() == 0 {
        seq!['*']
    } else {
        range
    }
}

/// How a command-line `name@range` specifier splits: a scoped name splits
/// at its last `@` when that is not the leading one; anything else splits
/// at its first `@`; a missing or empty range becomes `*`.
pub open spec fn split_spec(s: Seq<char>) -> (Seq<char>, Seq<char>) {
    if s.len() > 0 && s[0] == '@' {
        if last_char(s, '@') == 0 {
            (s, seq!['*'])
        } else {
            (s.take(last_char(s, '@')), default_star(s.skip(last_char(s, '@') + 1)))
        }
    } else if has_char(s, '@') {
        (s.take(first_char(s, '@')), default_star(s.skip(first_char(s, '@') + 1)))
    } else {
        (s, seq!['*'])
    }
}

/// Split a command-line `name@range` specifier.
pub fn parse_spec(spec: &str) -> (r: (String, String))
    ensures
        r.0@ == split_spec(spec@).0,
        r.1@ == split_spec(spec@).1,
{
    let sv = string_to_chars(spec);
    let n = sv.len();
    if n > 0 && sv[0] == '@' {
        match rfind_char(&sv, '@') {
            Some(idx) => {
                if idx == 0 {
                    let star: Vec<char> = vec!['*'];
                    proof {
                        assert(star@ =~= seq!['*']);
                    }
                    return (chars_to_string(&sv), chars_to_string(&star));
                }
                let name = sub_chars(&sv, 0, idx);
                let range = sub_chars(&sv, idx + 1, n);
                let range_final = if range.len() == 0 {
                    let star: Vec<char> = vec!['*'];
                    proof {
                        assert(star@ =~= seq!['*']);
                    }
                    star
                } else {
                    range
                };
                return (chars_to_string(&name), chars_to_string(&range_final));
            },
            None => {
                // the leading character is an `@`, so one always exists
                let star: Vec<char> = vec!['*'];
                proof {
                    assert(char_at(sv@, 0, '@'));
                    assert(has_char(sv@, '@'));
                }
                return (chars_to_string(&sv), chars_to_string(&star));
            },
        }
    }
    match find_char(&sv, '@') {
        Some(idx) => {
            let name = sub_chars(&sv, 0, idx);
            let range = sub_chars(&sv, idx + 1, n);
            let range_final = if range.len() == 0 {
                let star: Vec<char> = vec!['*'];
                proof {
                    assert(star@ =~= seq!['*']);
                }
                star
            } else {
                range
            };
            (chars_to_string(&name), chars_to_string(&range_final))
        },
        None => {
            let star: Vec<char> = vec!['*'];
            proof {
                assert(star@ =~= seq!['*']);
            }
            (chars_to_string(&sv), chars_to_string(&star))
        },
    }
}

/// Whether a sibling workspace package satisfies a `workspace:` range: an
/// empty or `*` suffix always does; otherwise the canonicalized range must
/// accept the version under the solver, or equal it verbatim.
pub fn workspace_dep_satisfies(range: &str, version: &str) -> (r: bool)
    ensures
        r == ({
            let spec = crate::canon::trim_sp(range@);
            let suffix = if starts_with(
                spec,
                seq!['w', 'o', 'r', 'k', 's', 'p', 'a', 'c', 'e', ':'],
            ) {
                spec.skip(10)
            } else {
                spec
            };
            ||| suffix.len() == 0
            ||| suffix == seq!['*']
            ||| (crate::vers::semver_version_ok(version@) && crate::vers::semver_req_ok(
                crate::canon::canon_spec(suffix),
            ) && crate::vers::semver_matches(crate::canon::canon_spec(suffix), version@))
            ||| suffix == version@
        }),
{
    let rv = string_to_chars(range);
    let trimmed = trim_chars(&rv);
    let suffix = match strip_prefix_chars(
        &trimmed,
        &['w', 'o', 'r', 'k', 's', 'p', 'a', 'c', 'e', ':'],
    ) {
        Some(rest) => rest,
        None => trimmed,
    };
    if suffix.len() == 0 {
        return true;
    }
    if suffix.len() == 1 && suffix[0] == '*' {
        proof {
            assert(suffix@ =~= seq!['*']);
        }
        return true;
    }
    proof {
        if suffix@.len() == 1 {
            assert(suffix@ =~= seq![suffix@[0]]);
        }
    }
    let mut by_solver = false;
    if crate::vers::version_parse_ok(version) {
        let suffix_str = chars_to_string(&suffix);
        let canon = crate::canon::canonicalize_npm_range(suffix_str.as_str());
        match crate::vers::parse_req(canon.as_str()) {
            Some(req) => {
                match crate::vers::parse_version(version) {
                    Some(ver) => {
                        by_solver = crate::vers::req_matches(&req, &ver);
                    },
                    None => {},
                }
            },
            None => {},
        }
    }
    if by_solver {
        return true;
    }
    let vv = string_to_chars(version);
    crate::strutil::chars_eq(&suffix, &vv)
}

} // verus!
