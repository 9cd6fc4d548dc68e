//! Graph fingerprints: a package's store identity is a digest over the
//! sorted list of its immediate dependencies' fingerprints. The list is
//! framed as a JSON array of `{name, version, store_key}` records, hashed
//! with SHA-256, and rendered in unpadded base32; the store key is
//! `<name>@<version>::<graph-hash>`.

use vstd::prelude::*;

verus! {

use crate::strutil::{seq_char_lt, string_to_chars, chars_to_string, chars_lt};
use crate::hashes::{sha256_of, base32_of, sha256_digest, base32_encode, hex_digit};
use vstd::utf8::encode_utf8;

/// One dependency fingerprint: name, resolved version, and the dependency's
/// own store key once known.
pub struct DependencyFingerprint {
    pub name: String,
    pub version: String,
    pub store_key: Option<String>,
}

/// A dependency as recorded in store metadata.
pub struct StoredDependency {
    pub name: String,
    pub version: String,
    pub store_key: Option<String>,
}

/// The view of a fingerprint.
pub open spec fn fp_view(d: DependencyFingerprint) -> (Seq<char>, Seq<char>, Option<Seq<char>>) {
    (d.name@, d.version@, crate::lockfile::ostr(d.store_key))
}

pub open spec fn fp_views(ds: Seq<DependencyFingerprint>) -> Seq<
    (Seq<char>, Seq<char>, Option<Seq<char>>),
> {
    ds.map_values(|d: DependencyFingerprint| fp_view(d))
}

/// One character in a JSON string body: quotes and backslashes are escaped,
/// control characters take their short escapes or a `\u00..` form, and
/// everything else stands as itself.
pub open spec fn json_escape_char(c: char) -> Seq<char> {
    if c == '"' {
        seq!['\\', '"']
    } else if c == '\\' {
        seq!['\\', '\\']
    } else if c as u32 == 8 {
        seq!['\\', 'b']
    } else if c as u32 == 12 {
        seq!['\\', 'f']
    } else if c == '\n' {
        seq!['\\', 'n']
    } else if c == '\r' {
        seq!['\\', 'r']
    } else if c == '\t' {
        seq!['\\', 't']
    } else if (c as u32) < 32 {
        seq!['\\', 'u', '0', '0'] + seq![hex_digit((c as u32 / 16) as int)] + seq![
            hex_digit((c as u32 % 16) as int),
        ]
    } else {
        seq![c]
    }
}

pub open spec fn json_escape(s: Seq<char>) -> Seq<char>
    decreases s.len(),
{
    if s.len() == 0 {
        Seq::empty()
    } else {
        json_escape_char(s[0]) + json_escape(s.drop_first())
    }
}

/// A JSON string literal.
pub open spec fn json_string(s: Seq<char>) -> Seq<char> {
    seq!['"'] + json_escape(s) + seq!['"']
}

/// One fingerprint record in field order.
pub open spec fn json_of_item(it: (Seq<char>, Seq<char>, Option<Seq<char>>)) -> Seq<char> {
    seq!['{'] + json_string(seq!['n', 'a', 'm', 'e']) + seq![':'] + json_string(it.0) + seq![',']
        + json_string(seq!['v', 'e', 'r', 's', 'i', 'o', 'n']) + seq![':'] + json_string(it.1)
        + seq![','] + json_string(
        seq!['s', 't', 'o', 'r', 'e', '_', 'k', 'e', 'y'],
    ) + seq![':'] + (match it.2 {
        Option::None => seq!['n', 'u', 'l', 'l'],
        Option::Some(k) => json_string(k),
    }) + seq!['}']
}

pub open spec fn json_of_items_rest(items: Seq<(Seq<char>, Seq<char>, Option<Seq<char>>)>) -> Seq<
    char,
>
    decreases items.len(),
{
    if items.len() == 0 {
        Seq::empty()
    } else {
        seq![','] + json_of_item(items[0]) + json_of_items_rest(items.drop_first())
    }
}

/// The JSON array of fingerprint records.
pub open spec fn json_of_items(items: Seq<(Seq<char>, Seq<char>, Option<Seq<char>>)>) -> Seq<char> {
    if items.len() == 0 {
        seq!['[', ']']
    } else {
        seq!['['] + json_of_item(items[0]) + json_of_items_rest(items.drop_first()) + seq![']']
    }
}

/// Insert an item into a name-sorted list, after any equal names.
pub open spec fn insert_by_name(
    it: (Seq<char>, Seq<char>, Option<Seq<char>>),
    s: Seq<(Seq<char>, Seq<char>, Option<Seq<char>>)>,
) -> Seq<(Seq<char>, Seq<char>, Option<Seq<char>>)>
    decreases s.len(),
{
    if s.len() == 0 {
        seq![it]
    } else if seq_char_lt(it.0, s[0].0) {
        seq![it] + s
    } else {
        seq![s[0]] + insert_by_name(it, s.drop_first())
    }
}

/// Stable insertion sort by name.
pub open spec fn sort_by_name(s: Seq<(Seq<char>, Seq<char>, Option<Seq<char>>)>) -> Seq<
    (Seq<char>, Seq<char>, Option<Seq<char>>),
>
    decreases s.len(),
{
    if s.len() == 0 {
        Seq::empty()
    } else {
        insert_by_name(s.last(), sort_by_name(s.drop_last()))
    }
}

/// The graph hash of a dependency list: base32 of the SHA-256 of the UTF-8
/// bytes of the JSON framing of the name-sorted fingerprints.
pub open spec fn graph_hash_of(items: Seq<(Seq<char>, Seq<char>, Option<Seq<char>>)>) -> Seq<char> {
    base32_of(sha256_of(encode_utf8(json_of_items(sort_by_name(items)))))
}

/// The store key written `<name>@<version>::<graph-hash>`.
pub open spec fn store_key_of(
    name: Seq<char>,
    version: Seq<char>,
    items: Seq<(Seq<char>, Seq<char>, Option<Seq<char>>)>,
) -> Seq<char> {
    name + seq!['@'] + version + seq![':', ':'] + graph_hash_of(items)
}

/// Append the JSON escape of a string to the output.
fn push_json_string(out: &mut Vec<char>, s: &str)
    ensures
        final(out)@ == old(out)@ + json_string(s@),
{
    let v = string_to_chars(s);
    let n = v.len();
    out.push('"');
    let ghost base = out@;
    let mut i: usize = 0;
    proof {
        assert(v@.skip(0) =~= v@);
        assert(base + json_escape(v@) == base + json_escape(v@.skip(0)));
    }
    while i < n
        invariant
            n == v@.len(),
            v@ == s@,
            i <= n,
            base + json_escape(s@) == out@ + json_escape(v@.skip(i as int)),
        decreases n - i,
    {
        let ghost oldout = out@;
        let c = v[i];
        let u = c as u32;
        if c == '"' {
            out.push('\\');
            out.push('"');
        } else if c == '\\' {
            out.push('\\');
            out.push('\\');
        } else if u == 8 {
            out.push('\\');
            out.push('b');
        } else if u == 12 {
            out.push('\\');
            out.push('f');
        } else if c == '\n' {
            out.push('\\');
            out.push('n');
        } else if c == '\r' {
            out.push('\\');
            out.push('r');
        } else if c == '\t' {
            out.push('\\');
            out.push('t');
        } else if u < 32 {
            out.push('\\');
            out.push('u');
            out.push('0');
            out.push('0');
            let hi = (u / 16) as u8;
            let lo = (u % 16) as u8;
            out.push(nibble_char(hi));
            out.push(nibble_char(lo));
        } else {
            out.push(c);
        }
        proof {
            assert(out@ =~= oldout + json_escape_char(v@[i as int]));
            assert(v@.skip(i as int)[0] == v@[i as int]);
            assert(v@.skip(i as int).drop_first() =~= v@.skip(i + 1));
            assert(json_escape(v@.skip(i as int)) == json_escape_char(v@[i as int]) + json_escape(
                v@.skip(i + 1),
            ));
            assert(oldout + (json_escape_char(v@[i as int]) + json_escape(v@.skip(i + 1))) =~= out@
                + json_escape(v@.skip(i + 1)));
        }
        i = i + 1;
    }
    out.push('"');
    proof {
        assert(json_escape(v@.skip(n as int)).len() == 0);
        assert(base + json_escape(s@) + Seq::<char>::empty() =~= base + json_escape(s@));
        assert(out@ =~= old(out)@ + json_string(s@));
    }
}

fn nibble_char(n: u8) -> (r: char)
    requires
        n < 16,
    ensures
        r == hex_digit(n as int),
{
    if n < 10 {
        let c = (48u8 + n) as char;
        proof {
            assert(c as u32 == 48 + n) by {
                assert((48u8 + n) < 128) by (bit_vector)
                    requires n < 10u8;
            }
            vstd::utf8::char_u32_cast(c, c as u32);
            assert(crate::strutil::digit_char(n as int) == (((48 + n) as u32) as char));
        }
        c
    } else {
        let c = (87u8 + n) as char;
        proof {
            assert(c as u32 == 87 + n) by {
                assert((87u8 + n) < 128) by (bit_vector)
                    requires n < 16u8;
            }
            vstd::utf8::char_u32_cast(c, c as u32);
        }
        c
    }
}

/// Append one fingerprint record.
fn push_json_item(out: &mut Vec<char>, d: &DependencyFingerprint)
    ensures
        final(out)@ == old(out)@ + json_of_item(fp_view(*d)),
{
    out.push('{');
    push_json_string(out, "name");
    out.push(':');
    push_json_string(out, d.name.as_str());
    out.push(',');
    push_json_string(out, "version");
    out.push(':');
    push_json_string(out, d.version.as_str());
    out.push(',');
    push_json_string(out, "store_key");
    out.push(':');
    match &d.store_key {
        None => {
            out.push('n');
            out.push('u');
            out.push('l');
            out.push('l');
        },
        Some(k) => {
            push_json_string(out, k.as_str());
        },
    }
    out.push('}');
    proof {
        reveal_strlit("name");
        reveal_strlit("version");
        reveal_strlit("store_key");
        assert("name"@ =~= seq!['n', 'a', 'm', 'e']);
        assert("version"@ =~= seq!['v', 'e', 'r', 's', 'i', 'o', 'n']);
        assert("store_key"@ =~= seq!['s', 't', 'o', 'r', 'e', '_', 'k', 'e', 'y']);
        assert(out@ =~= old(out)@ + json_of_item(fp_view(*d)));
    }
}

/// Sort fingerprints by name, keeping the order of equal names.
fn sort_fingerprints(deps: &Vec<DependencyFingerprint>) -> (r: Vec<DependencyFingerprint>)
    ensures
        fp_views(r@) == sort_by_name(fp_views(deps@)),
{
    let mut out: Vec<DependencyFingerprint> = Vec::new();
    let n = deps.len();
    let mut i: usize = 0;
    proof {
        assert(fp_views(deps@).take(0) =~= Seq::<(Seq<char>, Seq<char>, Option<Seq<char>>)>::empty());
        assert(fp_views(out@) =~= sort_by_name(fp_views(deps@).take(0)));
    }
    while i < n
        invariant
            n == deps@.len(),
            i <= n,
            fp_views(out@) == sort_by_name(fp_views(deps@).take(i as int)),
        decreases n - i,
    {
        let item = DependencyFingerprint {
            name: deps[i].name.clone(),
            version: deps[i].version.clone(),
            store_key: crate::lockfile::clone_opt_string(&deps[i].store_key),
        };
        let ghost itv = fp_view(deps@[i as int]);
        proof {
            assert(fp_view(item) == itv);
        }
        let nv = string_to_chars(item.name.as_str());
        let pos = find_insert_pos(&out, &nv);
        let ghost oldviews = fp_views(out@);
        let ghost specpos = pos as int;
        if pos < out.len() {
            out.insert(pos, item);
        } else {
            out.push(item);
        }
        proof {
            lemma_insert_by_name_at(itv, oldviews, specpos);
            if specpos < oldviews.len() {
                assert(fp_views(out@) =~= oldviews.insert(specpos, itv));
            } else {
                assert(fp_views(out@) =~= oldviews.push(itv));
                assert(oldviews.insert(specpos, itv) =~= oldviews.push(itv));
            }
            assert(fp_views(out@) == insert_by_name(itv, oldviews));
            assert(fp_views(deps@).take(i + 1).drop_last() =~= fp_views(deps@).take(i as int));
            assert(fp_views(deps@).take(i + 1).last() == itv);
        }
        i = i + 1;
    }
    proof {
        assert(fp_views(deps@).take(n as int) =~= fp_views(deps@));
    }
    out
}

/// The first position whose name is strictly above the probe name.
fn find_insert_pos(out: &Vec<DependencyFingerprint>, nv: &Vec<char>) -> (r: usize)
    ensures
        r <= out@.len(),
        forall|j: int| 0 <= j < r ==> !seq_char_lt(nv@, fp_views(out@)[j].0),
        r < out@.len() ==> seq_char_lt(nv@, fp_views(out@)[r as int].0),
{
    let m = out.len();
    let mut pos: usize = 0;
    loop
        invariant
            m == out@.len(),
            pos <= m,
            forall|j: int| 0 <= j < pos ==> !seq_char_lt(nv@, fp_views(out@)[j].0),
        decreases m - pos,
    {
        if pos >= m {
            return pos;
        }
        let ev = string_to_chars(out[pos].name.as_str());
        proof {
            assert(fp_views(out@)[pos as int].0 == out@[pos as int].name@);
        }
        if chars_lt(nv, &ev) {
            return pos;
        }
        pos = pos + 1;
    }
}

/// Inserting at the first position whose name is above the new name realizes
/// the specification insert.
proof fn lemma_insert_by_name_at(
    it: (Seq<char>, Seq<char>, Option<Seq<char>>),
    s: Seq<(Seq<char>, Seq<char>, Option<Seq<char>>)>,
    pos: int,
)
    requires
        0 <= pos <= s.len(),
        forall|j: int| 0 <= j < pos ==> !seq_char_lt(it.0, s[j].0),
        pos < s.len() ==> seq_char_lt(it.0, s[pos].0),
    ensures
        insert_by_name(it, s) =~= s.insert(pos, it),
    decreases s.len(),
{
    if s.len() == 0 {
        assert(insert_by_name(it, s) == seq![it]);
        assert(s.insert(0, it) =~= seq![it]);
    } else if pos == 0 {
        assert(insert_by_name(it, s) == seq![it] + s);
        assert(s.insert(0, it) =~= seq![it] + s);
    } else {
        assert(!seq_char_lt(it.0, s[0].0));
        lemma_insert_by_name_at(it, s.drop_first(), pos - 1);
        assert(insert_by_name(it, s) == seq![s[0]] + insert_by_name(it, s.drop_first()));
        assert(s.insert(pos, it) =~= seq![s[0]] + s.drop_first().insert(pos - 1, it));
    }
}

/// Compute the graph hash and store key of a package from its dependency
/// fingerprints. Both are functions of the name, the version and the
/// fingerprints alone.
pub fn compute_graph_hash(name: &str, version: &str, deps: &Vec<DependencyFingerprint>) -> (r: (
    String,
    String,
))
    ensures
        r.0@ == graph_hash_of(fp_views(deps@)),
        r.1@ == store_key_of(name@, version@, fp_views(deps@)),
{
    let sorted = sort_fingerprints(deps);
    let mut json: Vec<char> = Vec::new();
    let n = sorted.len();
    json.push('[');
    let ghost items = fp_views(sorted@);
    if n > 0 {
        push_json_item(&mut json, &sorted[0]);
        proof {
            assert(fp_views(sorted@)[0] == fp_view(sorted@[0]));
            assert(json@ =~= seq!['['] + json_of_item(items[0]) + json_of_items_rest(
                items.drop_first().take(0),
            ));
            assert(json_of_items_rest(items.drop_first().take(0)).len() == 0);
        }
        let mut i: usize = 1;
        while i < n
            invariant
                n == items.len(),
                items == fp_views(sorted@),
                1 <= i <= n,
                json@ == seq!['['] + json_of_item(items[0]) + json_of_items_rest(
                    items.drop_first().take(i - 1),
                ),
            decreases n - i,
        {
            let ghost oldjson = json@;
            json.push(',');
            push_json_item(&mut json, &sorted[i]);
            proof {
                let rest = items.drop_first();
                assert(fp_views(sorted@)[i as int] == fp_view(sorted@[i as int]));
                assert(rest.take(i as int).drop_last() =~= rest.take(i - 1));
                assert(rest.take(i as int).last() == items[i as int]);
                lemma_json_rest_snoc(rest.take(i - 1), items[i as int]);
                assert(rest.take(i as int) =~= rest.take(i - 1).push(items[i as int]));
                assert(json@ =~= seq!['['] + json_of_item(items[0]) + json_of_items_rest(
                    rest.take(i as int),
                ));
            }
            i = i + 1;
        }
        proof {
            assert(items.drop_first().take(n - 1) =~= items.drop_first());
        }
    }
    json.push(']');
    proof {
        if items.len() == 0 {
            assert(json@ =~= seq!['[', ']']);
        } else {
            assert(json@ =~= json_of_items(items));
        }
        assert(json@ == json_of_items(sort_by_name(fp_views(deps@))));
    }
    let json_str = chars_to_string(&json);
    let bytes = vstd::string::StrSliceExecFns::as_bytes_vec(json_str.as_str());
    let digest = sha256_digest(&bytes);
    let graph_hash = base32_encode(&digest);
    // store key: <name>@<version>::<hash>
    let mut key: Vec<char> = Vec::new();
    let nv = string_to_chars(name);
    crate::canon::push_all(&mut key, &nv);
    key.push('@');
    let vv = string_to_chars(version);
    crate::canon::push_all(&mut key, &vv);
    key.push(':');
    key.push(':');
    let hv = string_to_chars(graph_hash.as_str());
    crate::canon::push_all(&mut key, &hv);
    proof {
        assert(key@ =~= store_key_of(name@, version@, fp_views(deps@)));
    }
    (graph_hash, chars_to_string(&key))
}

/// Appending an item to the tail list appends its record.
proof fn lemma_json_rest_snoc(
    items: Seq<(Seq<char>, Seq<char>, Option<Seq<char>>)>,
    it: (Seq<char>, Seq<char>, Option<Seq<char>>),
)
    ensures
        json_of_items_rest(items.push(it)) =~= json_of_items_rest(items) + seq![',']
            + json_of_item(it),
    decreases items.len(),
{
    if items.len() == 0 {
        assert(items.push(it)[0] == it);
        assert(items.push(it).drop_first() =~= Seq::<
            (Seq<char>, Seq<char>, Option<Seq<char>>),
        >::empty());
        assert(json_of_items_rest(items.push(it)) == seq![','] + json_of_item(it)
            + json_of_items_rest(items.push(it).drop_first()));
        assert(json_of_items_rest(items.push(it).drop_first()) == Seq::<char>::empty());
        assert(json_of_items_rest(items) == Seq::<char>::empty());
    } else {
        assert(items.push(it)[0] == items[0]);
        assert(items.push(it).drop_first() =~= items.drop_first().push(it));
        lemma_json_rest_snoc(items.drop_first(), it);
        assert(json_of_items_rest(items.push(it)) == seq![','] + json_of_item(items[0])
            + json_of_items_rest(items.drop_first().push(it)));
        assert(json_of_items_rest(items) == seq![','] + json_of_item(items[0])
            + json_of_items_rest(items.drop_first()));
    }
}

/// Law: graph identity is deterministic. The graph hash and store key are
/// functions of the package's name, its version and its dependency
/// fingerprints alone, so for a fixed resolved closure two computations
/// agree, whatever order produced the fingerprints' values.
pub proof fn lemma_graph_identity_deterministic(
    name: Seq<char>,
    version: Seq<char>,
    d1: Seq<DependencyFingerprint>,
    d2: Seq<DependencyFingerprint>,
)
    requires
        fp_views(d1) == fp_views(d2),
    ensures
        graph_hash_of(fp_views(d1)) == graph_hash_of(fp_views(d2)),
        store_key_of(name, version, fp_views(d1)) == store_key_of(name, version, fp_views(d2)),
{
}

/// Split a store key back into name, version and graph hash: the text after
/// the `::` separator, and the name/version around the last `@` before it.
pub open spec fn colons_at(s: Seq<char>, i: int) -> bool {
    0 <= i && i + 2 <= s.len() && s[i] == ':' && s[i + 1] == ':'
}

pub open spec fn first_colons(s: Seq<char>) -> int {
    choose|i: int| colons_at(s, i) && forall|j: int| 0 <= j < i ==> !colons_at(s, j)
}

pub open spec fn at_positions(s: Seq<char>, i: int) -> bool {
    0 <= i < s.len() && s[i] == '@'
}

pub open spec fn last_at(s: Seq<char>) -> int {
    choose|i: int| at_positions(s, i) && forall|j: int| i < j < s.len() ==> !at_positions(s, j)
}

/// What splitting a store key yields, when the separators are present: the
/// prefix splits at its last `@`, the rest is the graph hash.
pub open spec fn split_key_spec(s: Seq<char>) -> Option<(Seq<char>, Seq<char>, Seq<char>)> {
    if !(exists|i: int| colons_at(s, i)) {
        Option::None
    } else {
        let c = first_colons(s);
        let prefix = s.take(c);
        if !(exists|i: int| at_positions(prefix, i)) {
            Option::None
        } else {
            let a = last_at(prefix);
            Option::Some((prefix.take(a), prefix.skip(a + 1), s.skip(c + 2)))
        }
    }
}

/// The first position of `::`, when there is one.
fn find_colons(s: &Vec<char>) -> (r: Option<usize>)
    ensures
        match r {
            Some(i) => colons_at(s@, i as int) && (forall|j: int| 0 <= j < i ==> !colons_at(s@, j)),
            None => !(exists|i: int| colons_at(s@, i)),
        },
{
    let n = s.len();
    if n < 2 {
        proof {
            if exists|i: int| colons_at(s@, i) {
                let i = choose|i: int| colons_at(s@, i);
            }
        }
        return None;
    }
    let mut c: usize = 0;
    loop
        invariant
            2 <= n == s@.len(),
            c <= n,
            forall|j: int| 0 <= j < c ==> !colons_at(s@, j),
        decreases n - c,
    {
        if c >= n - 1 {
            proof {
                assert forall|i: int| true implies !colons_at(s@, i) by {
                    if 0 <= i && i + 2 <= s@.len() {
                        assert(i < c);
                    }
                }
            }
            return None;
        }
        if s[c] == ':' && s[c + 1] == ':' {
            proof {
                assert(colons_at(s@, c as int));
            }
            return Some(c);
        }
        c = c + 1;
    }
}

/// Split `name@version::hash`.
pub fn split_store_key(store_key: &str) -> (r: Option<(String, String, String)>)
    ensures
        match r {
            Some(t) => split_key_spec(store_key@) is Some && ({
                let (n, v, h) = split_key_spec(store_key@)->0;
                t.0@ == n && t.1@ == v && t.2@ == h
            }),
            None => split_key_spec(store_key@) is None,
        },
{
    let s = string_to_chars(store_key);
    let n = s.len();
    let c = match find_colons(&s) {
        Some(c) => c,
        None => {
            proof {
                if exists|i: int| colons_at(s@, i) {
                    let i = choose|i: int| colons_at(s@, i);
                    assert(!colons_at(s@, i));
                }
            }
            return None;
        },
    };
    proof {
        let k = first_colons(s@);
        assert(colons_at(s@, k) && forall|j: int| 0 <= j < k ==> !colons_at(s@, j));
        if k < c as int {
            assert(!colons_at(s@, k));
        }
        if k > c as int {
            assert(!colons_at(s@, c as int));
        }
        assert(k == c as int);
    }
    // last '@' in the prefix
    let mut a: usize = 0;
    let mut found_a = false;
    let mut p: usize = 0;
    while p < c
        invariant
            c <= s@.len(),
            p <= c,
            found_a ==> a < p && s@.take(c as int)[a as int] == '@' && (forall|j: int|
                a < j < p ==> s@.take(c as int)[j] != '@'),
            !found_a ==> (forall|j: int| 0 <= j < p ==> s@.take(c as int)[j] != '@'),
        decreases c - p,
    {
        if s[p] == '@' {
            a = p;
            found_a = true;
        }
        proof {
            assert(s@.take(c as int)[p as int] == s@[p as int]);
        }
        p = p + 1;
    }
    if !found_a {
        proof {
            let prefix = s@.take(first_colons(s@));
            if exists|i: int| at_positions(prefix, i) {
                let i = choose|i: int| at_positions(prefix, i);
                assert(prefix[i] != '@');
            }
        }
        return None;
    }
    proof {
        let prefix = s@.take(c as int);
        assert(at_positions(prefix, a as int));
        let k = last_at(prefix);
        assert(at_positions(prefix, k) && forall|j: int| k < j < prefix.len() ==> !at_positions(
            prefix,
            j,
        ));
        if k < a as int {
            assert(!at_positions(prefix, a as int));
        }
        if k > a as int {
            assert(!at_positions(prefix, k));
        }
        assert(k == a as int);
    }
    let mut namev: Vec<char> = Vec::new();
    let mut i: usize = 0;
    while i < a
        invariant
            a < s@.len(),
            i <= a,
            namev@ =~= s@.take(i as int),
        decreases a - i,
    {
        namev.push(s[i]);
        i = i + 1;
        proof {
            assert(namev@ =~= s@.take(i as int));
        }
    }
    let mut verv: Vec<char> = Vec::new();
    let mut i2: usize = a + 1;
    while i2 < c
        invariant
            a + 1 <= i2 <= c || (i2 == a + 1),
            c <= s@.len(),
            verv@ =~= s@.subrange(a + 1, i2 as int),
        decreases c - i2,
    {
        verv.push(s[i2]);
        i2 = i2 + 1;
        proof {
            assert(verv@ =~= s@.subrange(a + 1, i2 as int));
        }
    }
    let mut hashv: Vec<char> = Vec::new();
    let mut i3: usize = c + 2;
    while i3 < n
        invariant
            c + 2 <= i3 <= n || i3 == c + 2,
            n == s@.len(),
            hashv@ =~= s@.subrange(c + 2, i3 as int),
        decreases n - i3,
    {
        hashv.push(s[i3]);
        i3 = i3 + 1;
        proof {
            assert(hashv@ =~= s@.subrange(c + 2, i3 as int));
        }
    }
    proof {
        let prefix = s@.take(c as int);
        assert(namev@ =~= prefix.take(a as int));
        assert(verv@ =~= prefix.skip(a + 1));
        assert(hashv@ =~= s@.skip(c + 2));
    }
    Some((chars_to_string(&namev), chars_to_string(&verv), chars_to_string(&hashv)))
}

} // verus!
