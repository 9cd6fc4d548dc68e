//! Character-level utilities shared across the crate: conversions between
//! `String` and `Vec<char>`, UTF-8 aware byte conversion, and a lexicographic
//! order on character sequences used to keep map keys sorted.

use vstd::prelude::*;

verus! {

use vstd::string::StrSliceExecFns;
use vstd::utf8::{valid_utf8, decode_utf8};

/// Collect the characters of a string slice into a vector.
pub fn string_to_chars(s: &str) -> (r: Vec<char>)
    ensures
        r@ == s@,
{
    let len = s.unicode_len();
    let mut r: Vec<char> = Vec::new();
    let mut i: usize = 0;
    while i < len
        invariant
            len == s@.len(),
            i <= len,
            r@ == s@.subrange(0, i as int),
        decreases len - i,
    {
        r.push(s.get_char(i));
        i = i + 1;
        assert(r@ =~= s@.subrange(0, i as int));
    }
    assert(r@ =~= s@);
    r
}

/// Relies on `core::iter::Iterator::collect` for `String`: collecting chars
/// yields the string with exactly those characters.
#[verifier::external_body]
pub fn chars_to_string(v: &Vec<char>) -> (r: String)
    ensures
        r@ == v@,
{
    v.iter().collect()
}

/// Relies on `String::from_utf8`: it succeeds exactly on well-formed UTF-8
/// input and returns the string whose characters are the decoding of the bytes.
#[verifier::external_body]
pub fn bytes_to_string(v: Vec<u8>) -> (r: Option<String>)
    ensures
        r is Some <==> valid_utf8(v@),
        r is Some ==> r->0@ == decode_utf8(v@),
{
    match String::from_utf8(v) {
        Ok(s) => Some(s),
        Err(_) => None,
    }
}

/// Strict lexicographic order on character sequences, by Unicode scalar value.
pub open spec fn seq_char_lt(a: Seq<char>, b: Seq<char>) -> bool
    decreases a.len(),
{
    if b.len() == 0 {
        false
    } else if a.len() == 0 {
        true
    } else if (a[0] as u32) < (b[0] as u32) {
        true
    } else if (a[0] as u32) > (b[0] as u32) {
        false
    } else {
        seq_char_lt(a.drop_first(), b.drop_first())
    }
}

/// Exactly one of `a < b`, `a == b`, `b < a` holds.
pub proof fn lemma_seq_char_lt_trichotomy(a: Seq<char>, b: Seq<char>)
    ensures
        seq_char_lt(a, b) || seq_char_lt(b, a) || a =~= b,
        seq_char_lt(a, b) ==> !seq_char_lt(b, a),
        seq_char_lt(a, b) ==> !(a =~= b),
    decreases a.len(),
{
    if a.len() == 0 || b.len() == 0 {
    } else {
        if (a[0] as u32) == (b[0] as u32) {
            vstd::utf8::char_u32_cast(a[0], a[0] as u32);
            vstd::utf8::char_u32_cast(b[0], b[0] as u32);
            assert(a[0] == b[0]);
            lemma_seq_char_lt_trichotomy(a.drop_first(), b.drop_first());
            if a.drop_first() =~= b.drop_first() {
                assert(a =~= b) by {
                    assert(a == seq![a[0]] + a.drop_first());
                    assert(b == seq![b[0]] + b.drop_first());
                }
            }
            if a =~= b {
                assert(a.drop_first() =~= b.drop_first());
            }
        } else {
            if a =~= b {
                assert(a[0] == b[0]);
            }
        }
    }
}

/// The order is transitive.
pub proof fn lemma_seq_char_lt_transitive(a: Seq<char>, b: Seq<char>, c: Seq<char>)
    requires
        seq_char_lt(a, b),
        seq_char_lt(b, c),
    ensures
        seq_char_lt(a, c),
    decreases a.len(),
{
    broadcast use vstd::utf8::char_u32_cast;

    if a.len() == 0 {
        assert(b.len() > 0);
        assert(c.len() > 0);
    } else {
        assert(b.len() > 0);
        assert(c.len() > 0);
        if (a[0] as u32) == (b[0] as u32) && (b[0] as u32) == (c[0] as u32) {
            lemma_seq_char_lt_transitive(a.drop_first(), b.drop_first(), c.drop_first());
        }
    }
}

/// Compare two character vectors under the lexicographic order.
pub fn chars_lt(a: &Vec<char>, b: &Vec<char>) -> (r: bool)
    ensures
        r == seq_char_lt(a@, b@),
{
    let mut i: usize = 0;
    let alen = a.len();
    let blen = b.len();
    proof {
        assert(a@.skip(0) =~= a@);
        assert(b@.skip(0) =~= b@);
    }
    loop
        invariant
            i <= alen,
            i <= blen,
            alen == a@.len(),
            blen == b@.len(),
            seq_char_lt(a@, b@) == seq_char_lt(a@.skip(i as int), b@.skip(i as int)),
            forall|j: int| 0 <= j < i ==> a@[j] == b@[j],
        decreases alen - i,
    {
        if i >= blen {
            return false;
        }
        if i >= alen {
            return true;
        }
        let ca = a[i] as u32;
        let cb = b[i] as u32;
        if ca < cb {
            return true;
        }
        if ca > cb {
            return false;
        }
        proof {
            vstd::utf8::char_u32_cast(a@[i as int], ca);
            vstd::utf8::char_u32_cast(b@[i as int], cb);
            assert(a@[i as int] == b@[i as int]);
            assert(a@.skip(i as int).drop_first() =~= a@.skip(i + 1));
            assert(b@.skip(i as int).drop_first() =~= b@.skip(i + 1));
        }
        i = i + 1;
    }
}

/// Equality of two character vectors.
pub fn chars_eq(a: &Vec<char>, b: &Vec<char>) -> (r: bool)
    ensures
        r == (a@ == b@),
{
    if a.len() != b.len() {
        assert(a@.len() != b@.len());
        return false;
    }
    let n = a.len();
    let mut i: usize = 0;
    while i < n
        invariant
            n == a@.len() == b@.len(),
            i <= n,
            forall|j: int| 0 <= j < i ==> a@[j] == b@[j],
        decreases n - i,
    {
        if a[i] != b[i] {
            return false;
        }
        i = i + 1;
    }
    proof {
        assert(a@ =~= b@);
    }
    true
}

/// Equality of two strings, usable where only `&str` is at hand.
pub fn str_eq(a: &str, b: &str) -> (r: bool)
    ensures
        r == (a@ == b@),
{
    let va = string_to_chars(a);
    let vb = string_to_chars(b);
    if va.len() != vb.len() {
        assert(a@.len() != b@.len());
        return false;
    }
    let mut i: usize = 0;
    while i < va.len()
        invariant
            va@ == a@,
            vb@ == b@,
            va@.len() == vb@.len(),
            i <= va@.len(),
            forall|j: int| 0 <= j < i ==> va@[j] == vb@[j],
        decreases va@.len() - i,
    {
        if va[i] != vb[i] {
            assert(a@[i as int] != b@[i as int]);
            return false;
        }
        i = i + 1;
    }
    assert(a@ =~= b@);
    true
}

pub open spec fn is_digit(c: char) -> bool {
    48 <= c as u32 <= 57
}

pub open spec fn digit_val(c: char) -> int {
    c as u32 - 48
}

pub open spec fn digit_char(n: int) -> char {
    (((48 + n) as u32) as char)
}

/// The decimal digits of `n`, most significant first.
pub open spec fn u64_chars(n: u64) -> Seq<char>
    decreases n,
{
    if n < 10 {
        seq![digit_char(n as int)]
    } else {
        u64_chars(n / 10).push(digit_char((n % 10) as int))
    }
}

/// Render a number in decimal.
pub fn u64_to_chars(n: u64) -> (r: Vec<char>)
    ensures
        r@ == u64_chars(n),
{
    let mut digits: Vec<char> = Vec::new();
    let mut m = n;
    proof {
        assert(u64_chars(m) + digits@ =~= u64_chars(n));
    }
    loop
        invariant
            u64_chars(n) == u64_chars(m) + digits@,
        decreases m,
    {
        let d8 = (m % 10) as u8;
        let c = (48u8 + d8) as char;
        proof {
            assert(c as u32 == 48 + (m % 10)) by {
                assert((48u8 + d8) < 128) by (bit_vector)
                    requires d8 < 10u8;
            }
            assert(digit_char((m % 10) as int) == (((48 + (m % 10)) as u32) as char));
            vstd::utf8::char_u32_cast(c, c as u32);
            assert(c == digit_char((m % 10) as int));
        }
        let ghost olddigits = digits@;
        digits.insert(0, c);
        proof {
            assert(digits@ =~= seq![c] + olddigits);
        }
        if m < 10 {
            proof {
                assert(u64_chars(m) == seq![digit_char(m as int)]);
                assert(u64_chars(n) =~= digits@);
            }
            return digits;
        }
        proof {
            assert(u64_chars(m) == u64_chars(m / 10).push(digit_char((m % 10) as int)));
            assert(u64_chars(m / 10) + digits@ =~= u64_chars(m) + olddigits);
        }
        m = m / 10;
    }
}

/// The number a digit string denotes, when it is one: an optional leading
/// `+`, then at least one digit, and a value that fits `u64`.
pub open spec fn parse_u64_of(s: Seq<char>) -> Option<u64> {
    if s.len() > 0 && s[0] == '+' {
        parse_digits(s.drop_first())
    } else {
        parse_digits(s)
    }
}

pub open spec fn parse_digits(s: Seq<char>) -> Option<u64>
    decreases s.len(),
{
    if s.len() == 0 {
        Option::None
    } else if !is_digit(s.last()) {
        Option::None
    } else if s.len() == 1 {
        Option::Some(digit_val(s.last()) as u64)
    } else {
        match parse_digits(s.drop_last()) {
            Option::None => Option::None,
            Option::Some(hi) => if hi * 10 + digit_val(s.last()) <= u64::MAX {
                Option::Some((hi * 10 + digit_val(s.last())) as u64)
            } else {
                Option::None
            },
        }
    }
}

/// Parse a decimal number.
pub fn parse_u64_chars(v: &Vec<char>) -> (r: Option<u64>)
    ensures
        r == parse_u64_of(v@),
{
    let mut start: usize = 0;
    let n = v.len();
    if n > 0 && v[0] == '+' {
        start = 1;
    }
    let ghost digits = if v@.len() > 0 && v@[0] == '+' {
        v@.drop_first()
    } else {
        v@
    };
    if start >= n {
        proof {
            assert(digits.len() == 0);
        }
        return None;
    }
    let mut acc: u64 = 0;
    let mut i: usize = start;
    // empty-prefix case: parse_digits of an empty prefix is undefined, so the
    // first digit seeds the accumulator
    let c0 = v[start] as u32;
    if c0 < 48 || c0 > 57 {
        proof {
            assert(digits[0] == v@[start as int]);
            assert(!is_digit(digits[0]));
            lemma_parse_digits_bad(digits, 0);
            assert(digits.take(digits.len() as int) =~= digits);
        }
        return None;
    }
    acc = (c0 - 48) as u64;
    i = start + 1;
    proof {
        assert(digits.take(1).last() == digits[0]);
        assert(parse_digits(digits.take(1)) == Option::Some(acc));
    }
    while i < n
        invariant
            start <= 1,
            start < n <= v@.len(),
            n == v@.len(),
            start < i <= n,
            digits == (if v@.len() > 0 && v@[0] == '+' {
                v@.drop_first()
            } else {
                v@
            }),
            digits.len() == n - start,
            forall|j: int| 0 <= j < digits.len() ==> digits[j] == v@[j + start],
            parse_digits(digits.take(i - start)) == Option::Some(acc),
        decreases n - i,
    {
        let c = v[i] as u32;
        proof {
            vstd::utf8::char_u32_cast(v@[i as int], c);
            assert(digits.take(i + 1 - start).last() == digits[i - start]);
            assert(digits.take(i + 1 - start).drop_last() =~= digits.take(i - start));
        }
        if c < 48 || c > 57 {
            proof {
                assert(!is_digit(digits[i - start]));
                lemma_parse_digits_bad(digits, i - start);
                assert(digits.take(digits.len() as int) =~= digits);
            }
            return None;
        }
        let d = (c - 48) as u64;
        if acc > (u64::MAX - d) / 10 {
            proof {
                assert(acc * 10 + d > u64::MAX) by (nonlinear_arith)
                    requires d <= 9u64, acc > (u64::MAX - d) / 10;
                assert(parse_digits(digits.take(i + 1 - start)) is None);
                if i + 1 - start < digits.len() {
                    lemma_parse_digits_overflow(digits, i + 1 - start);
                    assert(digits.take(digits.len() as int) =~= digits);
                } else {
                    assert(digits.take(i + 1 - start) =~= digits);
                }
            }
            return None;
        }
        acc = acc * 10 + d;
        i = i + 1;
    }
    proof {
        assert(digits.take(digits.len() as int) =~= digits);
    }
    Some(acc)
}

/// A non-digit anywhere makes the whole string unparseable.
proof fn lemma_parse_digits_bad(s: Seq<char>, i: int)
    requires
        0 <= i < s.len(),
        !is_digit(s[i]),
    ensures
        forall|m: int| i < m <= s.len() ==> parse_digits(#[trigger] s.take(m)) is None,
    decreases s.len(),
{
    assert forall|m: int| i < m <= s.len() implies parse_digits(#[trigger] s.take(m)) is None by {
        lemma_parse_digits_bad_take(s, i, m);
    }
}

proof fn lemma_parse_digits_bad_take(s: Seq<char>, i: int, m: int)
    requires
        0 <= i < m <= s.len(),
        !is_digit(s[i]),
    ensures
        parse_digits(s.take(m)) is None,
    decreases m,
{
    if m - 1 == i {
        if s.take(m).len() > 1 {
            assert(s.take(m).last() == s[i]);
        } else {
            assert(s.take(m).last() == s[i]);
        }
    } else {
        lemma_parse_digits_bad_take(s, i, m - 1);
        assert(s.take(m).drop_last() =~= s.take(m - 1));
        if s.take(m).len() == 1 {
        } else {
        }
    }
}

/// Once the prefix overflows, every longer prefix overflows.
proof fn lemma_parse_digits_overflow(s: Seq<char>, i: int)
    requires
        0 < i < s.len(),
        parse_digits(s.take(i)) is None,
    ensures
        forall|m: int| i < m <= s.len() ==> parse_digits(#[trigger] s.take(m)) is None,
{
    assert forall|m: int| i < m <= s.len() implies parse_digits(#[trigger] s.take(m)) is None by {
        lemma_parse_digits_none_take(s, i, m);
    }
}

proof fn lemma_parse_digits_none_take(s: Seq<char>, i: int, m: int)
    requires
        0 < i < m <= s.len(),
        parse_digits(s.take(i)) is None,
    ensures
        parse_digits(s.take(m)) is None,
    decreases m,
{
    if m - 1 == i {
        assert(s.take(m).drop_last() =~= s.take(i));
    } else {
        lemma_parse_digits_none_take(s, i, m - 1);
        assert(s.take(m).drop_last() =~= s.take(m - 1));
    }
}

} // verus!
