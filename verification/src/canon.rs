//! The range canonicalizer: normalizes a user-written version range to a
//! comparator expression the semver solver understands. The rules, in order:
//! empty, `*` and `latest` become `*`; an OR set is kept verbatim; an exact
//! version becomes `=v`; a spaced hyphen range becomes a pair of bounds;
//! whitespace-separated comparators are comma-joined; bare majors,
//! major.minor pairs and wildcard patterns expand to bounded ranges; anything
//! else is returned unchanged for the solver to judge.

use vstd::prelude::*;

verus! {

use crate::strutil::{
    string_to_chars, chars_to_string, is_digit, u64_chars, u64_to_chars, parse_u64_of,
    parse_u64_chars,
};
use crate::vers::{semver_version_ok, version_parse_ok};

pub open spec fn is_space(c: char) -> bool {
    c == ' ' || c == '\t' || c == '\n' || c == '\r'
}

pub open spec fn trim_start_sp(s: Seq<char>) -> Seq<char>
    decreases s.len(),
{
    if s.len() > 0 && is_space(s[0]) {
        trim_start_sp(s.drop_first())
    } else {
        s
    }
}

pub open spec fn trim_end_sp(s: Seq<char>) -> Seq<char>
    decreases s.len(),
{
    if s.len() > 0 && is_space(s.last()) {
        trim_end_sp(s.drop_last())
    } else {
        s
    }
}

/// The string with leading and trailing whitespace removed.
pub open spec fn trim_sp(s: Seq<char>) -> Seq<char> {
    trim_end_sp(trim_start_sp(s))
}

/// The string holds `||` somewhere.
pub open spec fn or_at(s: Seq<char>, i: int) -> bool {
    0 <= i && i + 2 <= s.len() && s[i] == '|' && s[i + 1] == '|'
}

pub open spec fn has_or(s: Seq<char>) -> bool {
    exists|i: int| or_at(s, i)
}

/// A spaced hyphen, ` - `, begins at `i`.
pub open spec fn hyphen_at(s: Seq<char>, i: int) -> bool {
    0 <= i && i + 3 <= s.len() && s[i] == ' ' && s[i + 1] == '-' && s[i + 2] == ' '
}

pub open spec fn has_hyphen(s: Seq<char>) -> bool {
    exists|i: int| hyphen_at(s, i)
}

/// The first position of a spaced hyphen.
pub open spec fn first_hyphen(s: Seq<char>) -> int {
    choose|i: int| hyphen_at(s, i) && forall|j: int| 0 <= j < i ==> !hyphen_at(s, j)
}

/// A comparator operator token.
pub open spec fn is_op_tok(t: Seq<char>) -> bool {
    ||| t == seq!['>']
    ||| t == seq!['<']
    ||| t == seq!['>', '=']
    ||| t == seq!['<', '=']
    ||| t == seq!['=']
    ||| t == seq!['^']
    ||| t == seq!['~']
}

pub open spec fn is_numeric_tok(t: Seq<char>) -> bool {
    t.len() > 0 && forall|i: int| 0 <= i < t.len() ==> is_digit(#[trigger] t[i])
}

pub open spec fn count_dots(t: Seq<char>) -> int
    decreases t.len(),
{
    if t.len() == 0 {
        0
    } else {
        (if t[0] == '.' {
            1int
        } else {
            0int
        }) + count_dots(t.drop_first())
    }
}

pub open spec fn version_like_char(c: char) -> bool {
    ||| is_digit(c)
    ||| c == '.'
    ||| c == '-'
    ||| c == 'x'
    ||| c == 'X'
    ||| c == '*'
    ||| (97 <= c as u32 <= 122)
    ||| (65 <= c as u32 <= 90)
}

/// Digits, dots, dashes, letters and wildcard marks, with at least one digit.
pub open spec fn is_version_like(t: Seq<char>) -> bool {
    &&& forall|i: int| 0 <= i < t.len() ==> version_like_char(#[trigger] t[i])
    &&& exists|i: int| 0 <= i < t.len() && is_digit(#[trigger] t[i])
}

pub open spec fn has_wild(t: Seq<char>) -> bool {
    exists|i: int| 0 <= i < t.len() && ((#[trigger] t[i]) == 'x' || t[i] == 'X' || t[i] == '*')
}

pub open spec fn all_digit_or_dot(t: Seq<char>) -> bool {
    forall|i: int| 0 <= i < t.len() ==> is_digit(#[trigger] t[i]) || t[i] == '.'
}

/// Split at `.` separators; empty parts are kept.
pub open spec fn split_dots_rec(t: Seq<char>, i: int, cur: Seq<char>) -> Seq<Seq<char>>
    decreases t.len() - i,
{
    if i < 0 || i >= t.len() {
        seq![cur]
    } else if t[i] == '.' {
        seq![cur] + split_dots_rec(t, i + 1, Seq::empty())
    } else {
        split_dots_rec(t, i + 1, cur.push(t[i]))
    }
}

pub open spec fn split_dots(t: Seq<char>) -> Seq<Seq<char>> {
    split_dots_rec(t, 0, Seq::empty())
}

/// A part standing for a whole component: `x`, `X` or `*`.
pub open spec fn wild_part(p: Seq<char>) -> bool {
    p == seq!['x'] || p == seq!['X'] || p == seq!['*']
}

/// Expansion of `N.x` and `N.M.x` shaped patterns; anything else, or a
/// component that does not parse as a number, is returned unchanged.
pub open spec fn expand_wildcard_spec(t: Seq<char>) -> Seq<char> {
    let parts = split_dots(t);
    if parts.len() == 2 && wild_part(parts[1]) {
        match parse_u64_of(parts[0]) {
            Option::Some(maj) => if maj < u64::MAX {
                seq!['>', '='] + u64_chars(maj) + seq!['.', '0', '.', '0', ',', ' ', '<']
                    + u64_chars((maj + 1) as u64) + seq!['.', '0', '.', '0']
            } else {
                t
            },
            Option::None => t,
        }
    } else if parts.len() == 3 && wild_part(parts[2]) {
        match (parse_u64_of(parts[0]), parse_u64_of(parts[1])) {
            (Option::Some(maj), Option::Some(min)) => if min < u64::MAX {
                seq!['>', '='] + u64_chars(maj) + seq!['.'] + u64_chars(min) + seq![
                    '.',
                    '0',
                    ',',
                    ' ',
                    '<',
                ] + u64_chars(maj) + seq!['.'] + u64_chars((min + 1) as u64) + seq!['.', '0']
            } else {
                t
            },
            _ => t,
        }
    } else {
        t
    }
}

/// The `^N.0.0` expansion of a bare major.
pub open spec fn caret_expand(t: Seq<char>) -> Seq<char> {
    seq!['^'] + t + seq!['.', '0', '.', '0']
}

/// The `>=A.B.0, <A.(B+1).0` expansion of `major.minor`, keeping the major
/// exactly as written.
pub open spec fn major_minor_expand(maj: Seq<char>, min: Seq<char>, minv: u64) -> Seq<char> {
    seq!['>', '='] + maj + seq!['.'] + min + seq!['.', '0', ',', ' ', '<'] + maj + seq!['.']
        + u64_chars((minv + 1) as u64) + seq!['.', '0']
}

/// Join comparator strings with `, `.
pub open spec fn join_comma(cs: Seq<Seq<char>>) -> Seq<char>
    decreases cs.len(),
{
    if cs.len() == 0 {
        Seq::empty()
    } else if cs.len() == 1 {
        cs[0]
    } else {
        cs[0] + seq![',', ' '] + join_comma(cs.drop_first())
    }
}

/// Length of the comparator operator that opens the token, or zero.
pub open spec fn op_prefix_len(t: Seq<char>) -> int {
    if t.len() >= 2 && (t.take(2) == seq!['>', '='] || t.take(2) == seq!['<', '=']) {
        2
    } else if t.len() >= 1 && (t[0] == '>' || t[0] == '<' || t[0] == '=' || t[0] == '^' || t[0]
        == '~') {
        1
    } else {
        0
    }
}

/// A comparator written as one token: an operator glued to a version, as in
/// `^3.1.0`. Such a token is kept verbatim and comma-joined, so that the
/// solver can read the result.
pub open spec fn is_glued_comparator(t: Seq<char>) -> bool {
    op_prefix_len(t) > 0 && t.len() > op_prefix_len(t) && is_version_like(t.skip(op_prefix_len(t)))
}

/// Outcome of the comparator-pairing walk over the tokens.
pub ghost enum TokOut {
    /// The walk settled the whole result.
    Settled(Seq<char>),
    /// The walk produced comparators to be comma-joined.
    Comparators(Seq<Seq<char>>),
    /// The walk met a token it cannot place; the input is returned verbatim.
    GiveUp,
}

/// One walk over the whitespace tokens: operators pair with the following
/// token; bare versions expand or become exact comparators; anything else
/// gives up.
pub open spec fn canon_tokens(toks: Seq<Seq<char>>, i: int) -> TokOut
    decreases toks.len() - i,
{
    if i < 0 || i >= toks.len() {
        TokOut::Comparators(Seq::empty())
    } else {
        let t = toks[i];
        if is_op_tok(t) {
            if i + 1 < toks.len() {
                match canon_tokens(toks, i + 2) {
                    TokOut::Comparators(cs) => TokOut::Comparators(
                        seq![
                            if is_numeric_tok(toks[i + 1]) {
                                t + seq![' '] + toks[i + 1]
                            } else {
                                t + toks[i + 1]
                            },
                        ] + cs,
                    ),
                    other => other,
                }
            } else {
                TokOut::GiveUp
            }
        } else if is_glued_comparator(t) {
            match canon_tokens(toks, i + 1) {
                TokOut::Comparators(cs) => TokOut::Comparators(seq![t] + cs),
                other => other,
            }
        } else if is_version_like(t) {
            if has_wild(t) {
                TokOut::Settled(expand_wildcard_spec(t))
            } else if is_numeric_tok(t) {
                TokOut::Settled(caret_expand(t))
            } else if count_dots(t) == 1 && all_digit_or_dot(t) && parse_u64_of(
                split_dots(t)[1],
            ) is Some && parse_u64_of(split_dots(t)[1])->0 < u64::MAX {
                TokOut::Settled(
                    major_minor_expand(
                        split_dots(t)[0],
                        split_dots(t)[1],
                        parse_u64_of(split_dots(t)[1])->0,
                    ),
                )
            } else {
                match canon_tokens(toks, i + 1) {
                    TokOut::Comparators(cs) => TokOut::Comparators(seq![seq!['='] + t] + cs),
                    other => other,
                }
            }
        } else {
            TokOut::GiveUp
        }
    }
}

/// Whitespace tokenization.
pub open spec fn tokens_rec(s: Seq<char>, i: int, cur: Seq<char>) -> Seq<Seq<char>>
    decreases s.len() - i,
{
    if i < 0 || i >= s.len() {
        if cur.len() > 0 {
            seq![cur]
        } else {
            Seq::empty()
        }
    } else if is_space(s[i]) {
        if cur.len() > 0 {
            seq![cur] + tokens_rec(s, i + 1, Seq::empty())
        } else {
            tokens_rec(s, i + 1, Seq::empty())
        }
    } else {
        tokens_rec(s, i + 1, cur.push(s[i]))
    }
}

pub open spec fn tokens_of(s: Seq<char>) -> Seq<Seq<char>> {
    tokens_rec(s, 0, Seq::empty())
}

/// The single-token fallback expansions at the end of the rule list: a bare
/// major, a major.minor pair, or a trailing wildcard.
pub open spec fn fallback_spec(s: Seq<char>) -> Seq<char> {
    if is_numeric_tok(s) {
        caret_expand(s)
    } else if count_dots(s) == 1 && all_digit_or_dot(s) && parse_u64_of(split_dots(s)[1]) is Some
        && parse_u64_of(split_dots(s)[1])->0 < u64::MAX {
        major_minor_expand(split_dots(s)[0], split_dots(s)[1], parse_u64_of(split_dots(s)[1])->0)
    } else if s.len() >= 2 && (s.subrange(s.len() - 2, s.len() as int) == seq!['.', 'x']
        || s.subrange(s.len() - 2, s.len() as int) == seq!['.', '*']) {
        expand_wildcard_spec(s)
    } else {
        s
    }
}

/// The canonicalized range, rule by rule.
pub open spec fn canon_spec(input: Seq<char>) -> Seq<char> {
    let s = trim_sp(input);
    if s.len() == 0 || s == seq!['*'] || s == seq!['l', 'a', 't', 'e', 's', 't'] {
        seq!['*']
    } else if has_or(s) {
        s
    } else if semver_version_ok(s) {
        seq!['='] + s
    } else if has_hyphen(s) && is_version_like(trim_sp(s.take(first_hyphen(s)))) && is_version_like(
        trim_sp(s.skip(first_hyphen(s) + 3)),
    ) {
        seq!['>', '='] + trim_sp(s.take(first_hyphen(s))) + seq![',', ' ', '<', '='] + trim_sp(
            s.skip(first_hyphen(s) + 3),
        )
    } else {
        canon_tail_spec(s)
    }
}

/// The comparator walk and final fallbacks, applied after the early rules.
pub open spec fn canon_tail_spec(s: Seq<char>) -> Seq<char> {
    let toks = tokens_of(s);
    if toks.len() > 1 {
        match canon_tokens(toks, 0) {
            TokOut::Settled(r) => r,
            TokOut::GiveUp => s,
            TokOut::Comparators(cs) => if cs.len() > 0 {
                join_comma(cs)
            } else {
                fallback_spec(s)
            },
        }
    } else {
        fallback_spec(s)
    }
}

// ---------------------------------------------------------------------------
// executable pieces
// ---------------------------------------------------------------------------

fn char_is_space(c: char) -> (r: bool)
    ensures
        r == is_space(c),
{
    c == ' ' || c == '\t' || c == '\n' || c == '\r'
}

/// Remove leading and trailing whitespace.
pub fn trim_chars(v: &Vec<char>) -> (r: Vec<char>)
    ensures
        r@ == trim_sp(v@),
{
    let n = v.len();
    let mut a: usize = 0;
    proof {
        assert(v@.skip(0) =~= v@);
    }
    while a < n && char_is_space(v[a])
        invariant
            n == v@.len(),
            a <= n,
            trim_start_sp(v@) == trim_start_sp(v@.skip(a as int)),
        decreases n - a,
    {
        proof {
            assert(v@.skip(a as int).drop_first() =~= v@.skip(a + 1));
        }
        a = a + 1;
    }
    proof {
        if a < n {
            assert(trim_start_sp(v@.skip(a as int)) == v@.skip(a as int));
        } else {
            assert(v@.skip(a as int).len() == 0);
            assert(trim_start_sp(v@.skip(a as int)) == v@.skip(a as int));
        }
    }
    let ghost t = v@.skip(a as int);
    let mut b: usize = n;
    proof {
        assert(t.take(n - a) =~= t);
    }
    while b > a && char_is_space(v[b - 1])
        invariant
            n == v@.len(),
            a <= b <= n,
            t == v@.skip(a as int),
            trim_end_sp(t) == trim_end_sp(t.take(b - a)),
        decreases b,
    {
        proof {
            assert(t.take(b - a).last() == v@[b - 1]);
            assert(t.take(b - a).drop_last() =~= t.take(b - 1 - a));
        }
        b = b - 1;
    }
    proof {
        if b > a {
            assert(t.take(b - a).last() == v@[b - 1]);
            assert(trim_end_sp(t.take(b - a)) == t.take(b - a));
        } else {
            assert(t.take(b - a).len() == 0);
            assert(trim_end_sp(t.take(b - a)) == t.take(b - a));
        }
    }
    let mut r: Vec<char> = Vec::new();
    let mut i: usize = a;
    while i < b
        invariant
            a <= i <= b <= n,
            n == v@.len(),
            r@ =~= v@.subrange(a as int, i as int),
        decreases b - i,
    {
        r.push(v[i]);
        i = i + 1;
    }
    proof {
        assert(r@ =~= t.take(b - a));
    }
    r
}

pub fn chars_has_or(v: &Vec<char>) -> (r: bool)
    ensures
        r == has_or(v@),
{
    let n = v.len();
    if n < 2 {
        return false;
    }
    let mut i: usize = 0;
    while i <= n - 2
        invariant
            2 <= n == v@.len(),
            i <= n - 1,
            forall|j: int| 0 <= j < i ==> !or_at(v@, j),
        decreases n - i,
    {
        if v[i] == '|' && v[i + 1] == '|' {
            assert(or_at(v@, i as int));
            return true;
        }
        i = i + 1;
    }
    proof {
        assert forall|j: int| true implies !or_at(v@, j) by {
            if 0 <= j && j + 2 <= v@.len() {
                assert(j < i);
            }
        }
    }
    false
}

fn find_hyphen(v: &Vec<char>) -> (r: Option<usize>)
    ensures
        match r {
            Some(i) => hyphen_at(v@, i as int) && (forall|j: int| 0 <= j < i ==> !hyphen_at(v@, j))
                && i as int == first_hyphen(v@),
            None => !has_hyphen(v@),
        },
{
    let n = v.len();
    if n < 3 {
        proof {
            assert forall|j: int| true implies !hyphen_at(v@, j) by {}
        }
        return None;
    }
    let mut i: usize = 0;
    while i <= n - 3
        invariant
            3 <= n == v@.len(),
            i <= n - 2,
            forall|j: int| 0 <= j < i ==> !hyphen_at(v@, j),
        decreases n - i,
    {
        if v[i] == ' ' && v[i + 1] == '-' && v[i + 2] == ' ' {
            proof {
                assert(hyphen_at(v@, i as int));
                let k = first_hyphen(v@);
                assert(hyphen_at(v@, k) && forall|j: int| 0 <= j < k ==> !hyphen_at(v@, j));
                if k < i as int {
                    assert(!hyphen_at(v@, k));
                }
                if k > i as int {
                    assert(!hyphen_at(v@, i as int));
                }
            }
            return Some(i);
        }
        i = i + 1;
    }
    proof {
        assert forall|j: int| true implies !hyphen_at(v@, j) by {
            if 0 <= j && j + 3 <= v@.len() {
                assert(j < i);
            }
        }
    }
    None
}

/// Split at whitespace.
fn tokenize(v: &Vec<char>) -> (r: Vec<Vec<char>>)
    ensures
        r@.map_values(|t: Vec<char>| t@) == tokens_of(v@),
{
    let n = v.len();
    let mut out: Vec<Vec<char>> = Vec::new();
    let mut cur: Vec<char> = Vec::new();
    let mut i: usize = 0;
    proof {
        assert(out@.map_values(|t: Vec<char>| t@) =~= Seq::<Seq<char>>::empty());
    }
    while i < n
        invariant
            n == v@.len(),
            i <= n,
            tokens_of(v@) == out@.map_values(|t: Vec<char>| t@) + tokens_rec(v@, i as int, cur@),
        decreases n - i,
    {
        let ghost oldout = out@;
        let ghost oldcur = cur@;
        if char_is_space(v[i]) {
            if cur.len() > 0 {
                out.push(cur);
                cur = Vec::new();
                proof {
                    assert(out@.map_values(|t: Vec<char>| t@) =~= oldout.map_values(
                        |t: Vec<char>| t@,
                    ).push(oldcur));
                    assert(tokens_rec(v@, i as int, oldcur) == seq![oldcur] + tokens_rec(
                        v@,
                        i + 1,
                        Seq::<char>::empty(),
                    ));
                    assert(oldout.map_values(|t: Vec<char>| t@) + (seq![oldcur] + tokens_rec(
                        v@,
                        i + 1,
                        Seq::<char>::empty(),
                    )) =~= out@.map_values(|t: Vec<char>| t@) + tokens_rec(
                        v@,
                        i + 1,
                        Seq::<char>::empty(),
                    ));
                }
            } else {
                proof {
                    assert(cur@ =~= Seq::<char>::empty());
                    assert(tokens_rec(v@, i as int, cur@) == tokens_rec(v@, i + 1, cur@));
                }
            }
        } else {
            cur.push(v[i]);
            proof {
                assert(tokens_rec(v@, i as int, oldcur) == tokens_rec(v@, i + 1, cur@));
            }
        }
        i = i + 1;
    }
    if cur.len() > 0 {
        let ghost oldout = out@;
        let ghost oldcur = cur@;
        out.push(cur);
        proof {
            assert(tokens_rec(v@, n as int, oldcur) == seq![oldcur]);
            assert(out@.map_values(|t: Vec<char>| t@) =~= oldout.map_values(
                |t: Vec<char>| t@,
            ) + seq![oldcur]);
        }
    } else {
        proof {
            assert(tokens_rec(v@, n as int, cur@) =~= Seq::<Seq<char>>::empty());
            assert(out@.map_values(|t: Vec<char>| t@) + Seq::<Seq<char>>::empty() =~= out@
                .map_values(|t: Vec<char>| t@));
        }
    }
    proof {
        assert(out@.map_values(|t: Vec<char>| t@) =~= tokens_of(v@));
    }
    out
}

fn chars_eq_lit(v: &Vec<char>, ghost_target: Ghost<Seq<char>>, lit: &[char]) -> (r: bool)
    requires
        lit@ == ghost_target@,
    ensures
        r == (v@ == ghost_target@),
{
    if v.len() != lit.len() {
        return false;
    }
    let n = v.len();
    let mut i: usize = 0;
    while i < n
        invariant
            n == v@.len() == lit@.len(),
            i <= n,
            lit@ == ghost_target@,
            forall|j: int| 0 <= j < i ==> v@[j] == lit@[j],
        decreases n - i,
    {
        if v[i] != lit[i] {
            return false;
        }
        i = i + 1;
    }
    proof {
        assert(v@ =~= ghost_target@);
    }
    true
}

fn is_op_chars(t: &Vec<char>) -> (r: bool)
    ensures
        r == is_op_tok(t@),
{
    if t.len() == 1 {
        let c = t[0];
        proof {
            assert(t@ =~= seq![t@[0]]);
        }
        c == '>' || c == '<' || c == '=' || c == '^' || c == '~'
    } else if t.len() == 2 {
        proof {
            assert(t@ =~= seq![t@[0], t@[1]]);
        }
        (t[0] == '>' && t[1] == '=') || (t[0] == '<' && t[1] == '=')
    } else {
        proof {
            assert(t@.len() != 1 && t@.len() != 2);
        }
        false
    }
}

fn is_numeric_chars(t: &Vec<char>) -> (r: bool)
    ensures
        r == is_numeric_tok(t@),
{
    let n = t.len();
    if n == 0 {
        return false;
    }
    let mut i: usize = 0;
    while i < n
        invariant
            n == t@.len(),
            i <= n,
            forall|j: int| 0 <= j < i ==> is_digit(#[trigger] t@[j]),
        decreases n - i,
    {
        let c = t[i] as u32;
        if c < 48 || c > 57 {
            return false;
        }
        i = i + 1;
    }
    true
}

fn is_version_like_chars(t: &Vec<char>) -> (r: bool)
    ensures
        r == is_version_like(t@),
{
    let n = t.len();
    let mut has_digit = false;
    let mut i: usize = 0;
    while i < n
        invariant
            n == t@.len(),
            i <= n,
            forall|j: int| 0 <= j < i ==> version_like_char(#[trigger] t@[j]),
            has_digit == (exists|j: int| 0 <= j < i && is_digit(#[trigger] t@[j])),
        decreases n - i,
    {
        let c = t[i];
        let u = c as u32;
        if 48 <= u && u <= 57 {
            proof {
                assert(is_digit(t@[i as int]));
            }
            has_digit = true;
        } else if c == '.' || c == '-' || c == 'x' || c == 'X' || c == '*' || (97 <= u && u <= 122)
            || (65 <= u && u <= 90) {
        } else {
            proof {
                assert(!version_like_char(t@[i as int]));
            }
            return false;
        }
        i = i + 1;
    }
    has_digit
}

fn has_wild_chars(t: &Vec<char>) -> (r: bool)
    ensures
        r == has_wild(t@),
{
    let n = t.len();
    let mut i: usize = 0;
    while i < n
        invariant
            n == t@.len(),
            i <= n,
            forall|j: int|
                0 <= j < i ==> !((#[trigger] t@[j]) == 'x' || t@[j] == 'X' || t@[j] == '*'),
        decreases n - i,
    {
        let c = t[i];
        if c == 'x' || c == 'X' || c == '*' {
            return true;
        }
        i = i + 1;
    }
    false
}

fn count_dots_is_one_all_digit_or_dot(t: &Vec<char>) -> (r: bool)
    ensures
        r == (count_dots(t@) == 1 && all_digit_or_dot(t@)),
{
    let n = t.len();
    let mut dots: usize = 0;
    let mut i: usize = 0;
    proof {
        assert(t@.skip(0) =~= t@);
    }
    while i < n
        invariant
            n == t@.len(),
            i <= n,
            dots <= i,
            count_dots(t@) == dots + count_dots(t@.skip(i as int)),
            forall|j: int| 0 <= j < i ==> is_digit(#[trigger] t@[j]) || t@[j] == '.',
        decreases n - i,
    {
        let c = t[i];
        let u = c as u32;
        proof {
            assert(t@.skip(i as int).drop_first() =~= t@.skip(i + 1));
        }
        if c == '.' {
            dots = dots + 1;
        } else if 48 <= u && u <= 57 {
        } else {
            proof {
                assert(!(is_digit(t@[i as int]) || t@[i as int] == '.'));
            }
            return false;
        }
        i = i + 1;
    }
    proof {
        assert(t@.skip(n as int).len() == 0);
    }
    dots == 1
}

/// Split at dots.
fn split_dots_chars(t: &Vec<char>) -> (r: Vec<Vec<char>>)
    ensures
        r@.map_values(|p: Vec<char>| p@) =~= split_dots(t@),
{
    let n = t.len();
    let mut out: Vec<Vec<char>> = Vec::new();
    let mut cur: Vec<char> = Vec::new();
    let mut i: usize = 0;
    while i < n
        invariant
            n == t@.len(),
            i <= n,
            split_dots(t@) == out@.map_values(|p: Vec<char>| p@) + split_dots_rec(
                t@,
                i as int,
                cur@,
            ),
        decreases n - i,
    {
        let ghost oldout = out@;
        let ghost oldcur = cur@;
        if t[i] == '.' {
            out.push(cur);
            cur = Vec::new();
            proof {
                assert(out@.map_values(|p: Vec<char>| p@) =~= oldout.map_values(
                    |p: Vec<char>| p@,
                ).push(oldcur));
                assert(split_dots_rec(t@, i as int, oldcur) == seq![oldcur] + split_dots_rec(
                    t@,
                    i + 1,
                    Seq::<char>::empty(),
                ));
                assert(oldout.map_values(|p: Vec<char>| p@) + (seq![oldcur] + split_dots_rec(
                    t@,
                    i + 1,
                    Seq::<char>::empty(),
                )) =~= out@.map_values(|p: Vec<char>| p@) + split_dots_rec(
                    t@,
                    i + 1,
                    Seq::<char>::empty(),
                ));
            }
        } else {
            cur.push(t[i]);
        }
        i = i + 1;
    }
    let ghost oldout = out@;
    let ghost oldcur = cur@;
    out.push(cur);
    proof {
        assert(split_dots_rec(t@, n as int, oldcur) == seq![oldcur]);
        assert(out@.map_values(|p: Vec<char>| p@) =~= oldout.map_values(|p: Vec<char>| p@) + seq![
            oldcur,
        ]);
    }
    out
}

fn is_wild_part(p: &Vec<char>) -> (r: bool)
    ensures
        r == wild_part(p@),
{
    if p.len() != 1 {
        proof {
            assert(p@.len() != 1);
        }
        return false;
    }
    proof {
        assert(p@ =~= seq![p@[0]]);
    }
    p[0] == 'x' || p[0] == 'X' || p[0] == '*'
}

pub fn push_str_chars(out: &mut Vec<char>, lit: &[char])
    ensures
        final(out)@ == old(out)@ + lit@,
{
    let n = lit.len();
    let mut i: usize = 0;
    while i < n
        invariant
            n == lit@.len(),
            i <= n,
            out@ =~= old(out)@ + lit@.take(i as int),
        decreases n - i,
    {
        out.push(lit[i]);
        proof {
            assert(old(out)@ + lit@.take(i + 1) =~= (old(out)@ + lit@.take(i as int)).push(
                lit@[i as int],
            ));
        }
        i = i + 1;
    }
    proof {
        assert(lit@.take(n as int) =~= lit@);
    }
}

pub fn push_all(out: &mut Vec<char>, piece: &Vec<char>)
    ensures
        final(out)@ == old(out)@ + piece@,
{
    let n = piece.len();
    let mut i: usize = 0;
    while i < n
        invariant
            n == piece@.len(),
            i <= n,
            out@ =~= old(out)@ + piece@.take(i as int),
        decreases n - i,
    {
        out.push(piece[i]);
        proof {
            assert(old(out)@ + piece@.take(i + 1) =~= (old(out)@ + piece@.take(i as int)).push(
                piece@[i as int],
            ));
        }
        i = i + 1;
    }
    proof {
        assert(piece@.take(n as int) =~= piece@);
    }
}

/// The `N.x` / `N.M.x` expansion.
fn expand_wildcard(t: &Vec<char>) -> (r: Vec<char>)
    ensures
        r@ == expand_wildcard_spec(t@),
{
    let parts = split_dots_chars(t);
    let ghost sparts = split_dots(t@);
    if parts.len() == 2 {
        proof {
            assert(parts@.map_values(|p: Vec<char>| p@)[1] == sparts[1]);
            assert(parts@.map_values(|p: Vec<char>| p@)[0] == sparts[0]);
        }
        if is_wild_part(&parts[1]) {
            match parse_u64_chars(&parts[0]) {
                Some(maj) if maj < u64::MAX => {
                    let mut out: Vec<char> = Vec::new();
                    push_str_chars(&mut out, &['>', '=']);
                    let md = u64_to_chars(maj);
                    push_all(&mut out, &md);
                    push_str_chars(&mut out, &['.', '0', '.', '0', ',', ' ', '<']);
                    let md2 = u64_to_chars(maj + 1);
                    push_all(&mut out, &md2);
                    push_str_chars(&mut out, &['.', '0', '.', '0']);
                    proof {
                        assert(out@ =~= expand_wildcard_spec(t@));
                    }
                    return out;
                },
                _ => {
                    return t.clone();
                },
            }
        }
        return t.clone();
    }
    if parts.len() == 3 {
        proof {
            assert(parts@.map_values(|p: Vec<char>| p@)[2] == sparts[2]);
            assert(parts@.map_values(|p: Vec<char>| p@)[1] == sparts[1]);
            assert(parts@.map_values(|p: Vec<char>| p@)[0] == sparts[0]);
        }
        if is_wild_part(&parts[2]) {
            let pm = parse_u64_chars(&parts[0]);
            let pn = parse_u64_chars(&parts[1]);
            match (pm, pn) {
                (Some(maj), Some(min)) if min < u64::MAX => {
                    let mut out: Vec<char> = Vec::new();
                    push_str_chars(&mut out, &['>', '=']);
                    let md = u64_to_chars(maj);
                    push_all(&mut out, &md);
                    push_str_chars(&mut out, &['.']);
                    let mind = u64_to_chars(min);
                    push_all(&mut out, &mind);
                    push_str_chars(&mut out, &['.', '0', ',', ' ', '<']);
                    push_all(&mut out, &md);
                    push_str_chars(&mut out, &['.']);
                    let mind2 = u64_to_chars(min + 1);
                    push_all(&mut out, &mind2);
                    push_str_chars(&mut out, &['.', '0']);
                    proof {
                        assert(out@ =~= expand_wildcard_spec(t@));
                    }
                    return out;
                },
                _ => {
                    return t.clone();
                },
            }
        }
        return t.clone();
    }
    proof {
        assert(sparts.len() != 2 && sparts.len() != 3);
    }
    t.clone()
}

/// A string with `d` dots splits into `d + 1` parts.
proof fn lemma_split_count(t: Seq<char>, i: int, cur: Seq<char>)
    requires
        0 <= i <= t.len(),
    ensures
        split_dots_rec(t, i, cur).len() == count_dots(t.skip(i)) + 1,
    decreases t.len() - i,
{
    if i >= t.len() {
        assert(t.skip(i).len() == 0);
    } else {
        assert(t.skip(i).drop_first() =~= t.skip(i + 1));
        assert(t.skip(i)[0] == t[i]);
        if t[i] == '.' {
            lemma_split_count(t, i + 1, Seq::empty());
        } else {
            lemma_split_count(t, i + 1, cur.push(t[i]));
        }
    }
}

/// Merge accumulated comparators into a walk outcome.
pub open spec fn merge_out(cs: Seq<Seq<char>>, o: TokOut) -> TokOut {
    match o {
        TokOut::Comparators(rest) => TokOut::Comparators(cs + rest),
        other => other,
    }
}

/// A copy of a character vector.
fn copy_chars(v: &Vec<char>) -> (r: Vec<char>)
    ensures
        r@ == v@,
{
    let mut r: Vec<char> = Vec::new();
    let n = v.len();
    let mut i: usize = 0;
    while i < n
        invariant
            n == v@.len(),
            i <= n,
            r@ =~= v@.take(i as int),
        decreases n - i,
    {
        r.push(v[i]);
        i = i + 1;
        proof {
            assert(r@ =~= v@.take(i as int));
        }
    }
    proof {
        assert(r@ =~= v@);
    }
    r
}

/// Concatenate two character vectors.
fn concat_chars(a: &Vec<char>, b: &Vec<char>) -> (r: Vec<char>)
    ensures
        r@ == a@ + b@,
{
    let mut r = a.clone();
    push_all(&mut r, b);
    r
}

/// Whether a token is an operator glued to a version.
fn is_glued_comparator_chars(t: &Vec<char>) -> (r: bool)
    ensures
        r == is_glued_comparator(t@),
{
    let n = t.len();
    if n == 0 {
        return false;
    }
    let two = n >= 2 && ((t[0] == '>' && t[1] == '=') || (t[0] == '<' && t[1] == '='));
    proof {
        if two {
            assert(t@.take(2) =~= seq![t@[0], t@[1]]);
        } else {
            if t@.len() >= 2 && (t@.take(2) == seq!['>', '='] || t@.take(2) == seq!['<', '=']) {
                assert(t@.take(2)[0] == t@[0]);
                assert(t@.take(2)[1] == t@[1]);
            }
        }
    }
    let plen: usize = if two {
        2
    } else if t[0] == '>' || t[0] == '<' || t[0] == '=' || t[0] == '^' || t[0] == '~' {
        1
    } else {
        proof {
            assert(op_prefix_len(t@) == 0);
        }
        return false;
    };
    proof {
        assert(op_prefix_len(t@) == plen);
    }
    if n <= plen {
        return false;
    }
    let mut rest: Vec<char> = Vec::new();
    let mut i: usize = plen;
    while i < n
        invariant
            plen <= i <= n,
            n == t@.len(),
            rest@ =~= t@.subrange(plen as int, i as int),
        decreases n - i,
    {
        rest.push(t[i]);
        i = i + 1;
        proof {
            assert(rest@ =~= t@.subrange(plen as int, i as int));
        }
    }
    proof {
        assert(rest@ =~= t@.skip(plen as int));
    }
    is_version_like_chars(&rest)
}

/// The comparator walk and final fallbacks.
#[verifier::rlimit(100)]
#[verifier::spinoff_prover]
fn canon_tail(s: &Vec<char>) -> (r: Vec<char>)
    ensures
        r@ == canon_tail_spec(s@),
{
    let toks = tokenize(s);
    let ghost tv = toks@.map_values(|t: Vec<char>| t@);
    if toks.len() > 1 {
        let n = toks.len();
        let mut comps: Vec<Vec<char>> = Vec::new();
        let mut i: usize = 0;
        proof {
            assert(comps@.map_values(|t: Vec<char>| t@) + Seq::<Seq<char>>::empty()
                =~= Seq::<Seq<char>>::empty());
        }
        while i < n
            invariant
                n == tv.len(),
                n > 1,
                tv == toks@.map_values(|t: Vec<char>| t@),
                tv == tokens_of(s@),
                i <= n,
                canon_tokens(tv, 0) == merge_out(
                    comps@.map_values(|t: Vec<char>| t@),
                    canon_tokens(tv, i as int),
                ),
            decreases n - i,
        {
            let ghost oldcs = comps@.map_values(|t: Vec<char>| t@);
            proof {
                assert(toks@.map_values(|t: Vec<char>| t@)[i as int] == toks@[i as int]@);
            }
            let isop = is_op_chars(&toks[i]);
            if isop {
                if i + 1 < n {
                    proof {
                        assert(toks@.map_values(|t: Vec<char>| t@)[i + 1] == toks@[i + 1]@);
                    }
                    let numeric_next = is_numeric_chars(&toks[i + 1]);
                    let pair = if numeric_next {
                        let mut p = copy_chars(&toks[i]);
                        p.push(' ');
                        push_all(&mut p, &toks[i + 1]);
                        proof {
                            assert(p@ =~= tv[i as int] + seq![' '] + tv[i + 1]);
                        }
                        p
                    } else {
                        concat_chars(&toks[i], &toks[i + 1])
                    };
                    comps.push(pair);
                    proof {
                        let newcs = comps@.map_values(|t: Vec<char>| t@);
                        if is_numeric_tok(tv[i + 1]) {
                            assert(newcs =~= oldcs.push(tv[i as int] + seq![' '] + tv[i + 1]));
                        } else {
                            assert(newcs =~= oldcs.push(tv[i as int] + tv[i + 1]));
                        }
                        match canon_tokens(tv, i + 2) {
                            TokOut::Comparators(rest) => {
                                if is_numeric_tok(tv[i + 1]) {
                                    assert(oldcs + (seq![tv[i as int] + seq![' '] + tv[i + 1]]
                                        + rest) =~= newcs + rest);
                                } else {
                                    assert(oldcs + (seq![tv[i as int] + tv[i + 1]] + rest)
                                        =~= newcs + rest);
                                }
                            },
                            _ => {},
                        }
                    }
                    i = i + 2;
                } else {
                    proof {
                        assert(canon_tokens(tv, i as int) == TokOut::GiveUp);
                        assert(canon_tokens(tv, 0) == TokOut::GiveUp);
                        assert(tv == tokens_of(s@));
                        assert(canon_tail_spec(s@) == s@);
                    }
                    return copy_chars(s);
                }
            } else if is_glued_comparator_chars(&toks[i]) {
                comps.push(copy_chars(&toks[i]));
                proof {
                    let newcs = comps@.map_values(|t: Vec<char>| t@);
                    assert(newcs =~= oldcs.push(tv[i as int]));
                    match canon_tokens(tv, i + 1) {
                        TokOut::Comparators(rest) => {
                            assert(oldcs + (seq![tv[i as int]] + rest) =~= newcs + rest);
                        },
                        _ => {},
                    }
                }
                i = i + 1;
            } else {
                let isvl = is_version_like_chars(&toks[i]);
                if !isvl {
                    proof {
                        assert(canon_tokens(tv, i as int) == TokOut::GiveUp);
                        assert(canon_tokens(tv, 0) == TokOut::GiveUp);
                        assert(tv == tokens_of(s@));
                        assert(canon_tail_spec(s@) == s@);
                    }
                    return copy_chars(s);
                }
                if has_wild_chars(&toks[i]) {
                    let e = expand_wildcard(&toks[i]);
                    proof {
                        assert(canon_tokens(tv, i as int) == TokOut::Settled(
                            expand_wildcard_spec(tv[i as int]),
                        ));
                    }
                    return e;
                }
                if is_numeric_chars(&toks[i]) {
                    let mut out: Vec<char> = Vec::new();
                    out.push('^');
                    push_all(&mut out, &toks[i]);
                    push_str_chars(&mut out, &['.', '0', '.', '0']);
                    proof {
                        assert(out@ =~= caret_expand(tv[i as int]));
                        assert(canon_tokens(tv, i as int) == TokOut::Settled(
                            caret_expand(tv[i as int]),
                        ));
                    }
                    return out;
                }
                let mm = count_dots_is_one_all_digit_or_dot(&toks[i]);
                if mm {
                    let parts = split_dots_chars(&toks[i]);
                    proof {
                        lemma_split_count(tv[i as int], 0, Seq::<char>::empty());
                        assert(tv[i as int].skip(0) =~= tv[i as int]);
                        assert(parts@.map_values(|p: Vec<char>| p@).len() == 2);
                        assert(parts@.map_values(|p: Vec<char>| p@)[1] == split_dots(
                            tv[i as int],
                        )[1]);
                        assert(parts@.map_values(|p: Vec<char>| p@)[0] == split_dots(
                            tv[i as int],
                        )[0]);
                    }
                    match parse_u64_chars(&parts[1]) {
                        Some(minv) if minv < u64::MAX => {
                            let mut out: Vec<char> = Vec::new();
                            push_str_chars(&mut out, &['>', '=']);
                            push_all(&mut out, &parts[0]);
                            out.push('.');
                            push_all(&mut out, &parts[1]);
                            push_str_chars(&mut out, &['.', '0', ',', ' ', '<']);
                            push_all(&mut out, &parts[0]);
                            out.push('.');
                            let m2 = u64_to_chars(minv + 1);
                            push_all(&mut out, &m2);
                            push_str_chars(&mut out, &['.', '0']);
                            proof {
                                assert(out@ =~= major_minor_expand(
                                    split_dots(tv[i as int])[0],
                                    split_dots(tv[i as int])[1],
                                    minv,
                                ));
                                assert(canon_tokens(tv, i as int) == TokOut::Settled(
                                    major_minor_expand(
                                        split_dots(tv[i as int])[0],
                                        split_dots(tv[i as int])[1],
                                        minv,
                                    ),
                                ));
                            }
                            return out;
                        },
                        _ => {},
                    }
                }
                // exact comparator
                let mut comp: Vec<char> = Vec::new();
                comp.push('=');
                push_all(&mut comp, &toks[i]);
                comps.push(comp);
                proof {
                    let newcs = comps@.map_values(|t: Vec<char>| t@);
                    assert(newcs =~= oldcs.push(seq!['='] + tv[i as int]));
                    match canon_tokens(tv, i + 1) {
                        TokOut::Comparators(rest) => {
                            assert(oldcs + (seq![seq!['='] + tv[i as int]] + rest) =~= newcs
                                + rest);
                        },
                        _ => {},
                    }
                }
                i = i + 1;
            }
        }
        proof {
            assert(canon_tokens(tv, n as int) == TokOut::Comparators(Seq::<Seq<char>>::empty()));
            assert(comps@.map_values(|t: Vec<char>| t@) + Seq::<Seq<char>>::empty() =~= comps@
                .map_values(|t: Vec<char>| t@));
        }
        if comps.len() > 0 {
            // join with ", "
            let ghost cs = comps@.map_values(|t: Vec<char>| t@);
            let mut out: Vec<char> = Vec::new();
            let m = comps.len();
            let mut j: usize = 0;
            proof {
                assert(cs.skip(0) =~= cs);
                assert(out@ + join_comma(cs) =~= join_comma(cs));
            }
            while j < m
                invariant
                    m == cs.len(),
                    cs == comps@.map_values(|t: Vec<char>| t@),
                    0 < m,
                    j <= m,
                    join_comma(cs) == out@ + join_comma(cs.skip(j as int)),
                decreases m - j,
            {
                proof {
                    assert(comps@.map_values(|t: Vec<char>| t@)[j as int] == cs[j as int]);
                }
                push_all(&mut out, &comps[j]);
                if j + 1 < m {
                    push_str_chars(&mut out, &[',', ' ']);
                }
                proof {
                    if j + 1 < m {
                        assert(cs.skip(j as int)[0] == cs[j as int]);
                        assert(cs.skip(j as int).drop_first() =~= cs.skip(j + 1));
                        assert(join_comma(cs.skip(j as int)) == cs[j as int] + seq![',', ' ']
                            + join_comma(cs.skip(j + 1)));
                        assert(join_comma(cs) =~= out@ + join_comma(cs.skip(j + 1)));
                    } else {
                        assert(cs.skip(j as int).len() == 1);
                        assert(cs.skip(j as int)[0] == cs[j as int]);
                        assert(join_comma(cs.skip(j as int)) == cs[j as int]);
                        assert(cs.skip(j + 1).len() == 0);
                        assert(join_comma(cs) =~= out@ + join_comma(cs.skip(j + 1)));
                    }
                }
                j = j + 1;
            }
            proof {
                assert(join_comma(cs.skip(m as int)).len() == 0);
                assert(join_comma(cs) =~= out@);
            }
            return out;
        }
        fallback_chars(s)
    } else {
        fallback_chars(s)
    }
}

/// The single-token fallbacks.
fn fallback_chars(s: &Vec<char>) -> (r: Vec<char>)
    ensures
        r@ == fallback_spec(s@),
{
    if is_numeric_chars(s) {
        let mut out: Vec<char> = Vec::new();
        out.push('^');
        push_all(&mut out, s);
        push_str_chars(&mut out, &['.', '0', '.', '0']);
        proof {
            assert(out@ =~= caret_expand(s@));
        }
        return out;
    }
    if count_dots_is_one_all_digit_or_dot(s) {
        let parts = split_dots_chars(s);
        proof {
            lemma_split_count(s@, 0, Seq::<char>::empty());
            assert(s@.skip(0) =~= s@);
            assert(parts@.map_values(|p: Vec<char>| p@).len() == 2);
            assert(parts@.map_values(|p: Vec<char>| p@)[1] == split_dots(s@)[1]);
            assert(parts@.map_values(|p: Vec<char>| p@)[0] == split_dots(s@)[0]);
        }
        match parse_u64_chars(&parts[1]) {
            Some(minv) if minv < u64::MAX => {
                let mut out: Vec<char> = Vec::new();
                push_str_chars(&mut out, &['>', '=']);
                push_all(&mut out, &parts[0]);
                out.push('.');
                push_all(&mut out, &parts[1]);
                push_str_chars(&mut out, &['.', '0', ',', ' ', '<']);
                push_all(&mut out, &parts[0]);
                out.push('.');
                let m2 = u64_to_chars(minv + 1);
                push_all(&mut out, &m2);
                push_str_chars(&mut out, &['.', '0']);
                proof {
                    assert(out@ =~= major_minor_expand(
                        split_dots(s@)[0],
                        split_dots(s@)[1],
                        minv,
                    ));
                }
                return out;
            },
            _ => {},
        }
    }
    let n = s.len();
    if n >= 2 {
        let c1 = s[n - 2];
        let c2 = s[n - 1];
        proof {
            assert(s@.subrange(n - 2, n as int) =~= seq![s@[n - 2], s@[n - 1]]);
        }
        if c1 == '.' && (c2 == 'x' || c2 == '*') {
            proof {
                assert(s@.subrange(n - 2, n as int) == seq!['.', 'x'] || s@.subrange(
                    n - 2,
                    n as int,
                ) == seq!['.', '*']);
            }
            return expand_wildcard(s);
        }
        proof {
            assert(s@.subrange(n - 2, n as int) != seq!['.', 'x'] && s@.subrange(n - 2, n as int)
                != seq!['.', '*']);
        }
    }
    s.clone()
}

/// Normalize a user-written range to the solver's comparator grammar. The
/// result is exactly `canon_spec` of the input's characters.
pub fn canonicalize_npm_range(input: &str) -> (r: String)
    ensures
        r@ == canon_spec(input@),
{
    let chars = string_to_chars(input);
    let s = trim_chars(&chars);
    let is_empty = s.len() == 0;
    let is_star = s.len() == 1 && s[0] == '*';
    proof {
        if s@.len() == 1 && s@[0] == '*' {
            assert(s@ =~= seq!['*']);
        }
    }
    let ghost latest_chars: Seq<char> = seq!['l', 'a', 't', 'e', 's', 't'];
    let is_latest = chars_eq_lit(&s, Ghost(latest_chars), &['l', 'a', 't', 'e', 's', 't']);
    if is_empty || is_star || is_latest {
        let mut out: Vec<char> = Vec::new();
        out.push('*');
        proof {
            assert(out@ =~= seq!['*']);
        }
        return chars_to_string(&out);
    }
    if chars_has_or(&s) {
        return chars_to_string(&s);
    }
    let s_str = chars_to_string(&s);
    if version_parse_ok(s_str.as_str()) {
        let mut out: Vec<char> = Vec::new();
        out.push('=');
        push_all(&mut out, &s);
        proof {
            assert(out@ =~= seq!['='] + s@);
        }
        return chars_to_string(&out);
    }
    match find_hyphen(&s) {
        Some(i) => {
            let mut leftraw: Vec<char> = Vec::new();
            let mut k: usize = 0;
            while k < i
                invariant
                    i <= s@.len(),
                    k <= i,
                    leftraw@ =~= s@.take(k as int),
                decreases i - k,
            {
                leftraw.push(s[k]);
                k = k + 1;
                proof {
                    assert(leftraw@ =~= s@.take(k as int));
                }
            }
            let mut rightraw: Vec<char> = Vec::new();
            let mut k2: usize = i + 3;
            while k2 < s.len()
                invariant
                    i + 3 <= s@.len() || rightraw@.len() == 0,
                    i + 3 <= k2 <= s@.len() || (k2 == i + 3 && rightraw@.len() == 0),
                    rightraw@ =~= s@.subrange(i + 3, k2 as int),
                decreases s@.len() - k2,
            {
                rightraw.push(s[k2]);
                k2 = k2 + 1;
                proof {
                    assert(rightraw@ =~= s@.subrange(i + 3, k2 as int));
                }
            }
            proof {
                assert(rightraw@ =~= s@.skip(i + 3));
            }
            let left = trim_chars(&leftraw);
            let right = trim_chars(&rightraw);
            if is_version_like_chars(&left) && is_version_like_chars(&right) {
                let mut out: Vec<char> = Vec::new();
                push_str_chars(&mut out, &['>', '=']);
                push_all(&mut out, &left);
                push_str_chars(&mut out, &[',', ' ', '<', '=']);
                push_all(&mut out, &right);
                proof {
                    assert(out@ =~= seq!['>', '='] + trim_sp(s@.take(first_hyphen(s@))) + seq![
                        ',',
                        ' ',
                        '<',
                        '=',
                    ] + trim_sp(s@.skip(first_hyphen(s@) + 3)));
                }
                return chars_to_string(&out);
            }
            let out = canon_tail(&s);
            chars_to_string(&out)
        },
        None => {
            let out = canon_tail(&s);
            chars_to_string(&out)
        },
    }
}

} // verus!
