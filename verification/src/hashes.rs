//! Digests and byte-to-text encodings, and the integrity checks built on
//! them. The digests and the base64/base32 alphabets come from outside
//! crates; each result is named, and everything downstream is proved against
//! those names. Hex encoding is simple enough to specify exactly.

use vstd::prelude::*;

use sha2::Digest;
use base64::Engine;

verus! {

use crate::strutil::{digit_char, string_to_chars, chars_to_string};

/// The SHA-512 digest of a byte sequence.
pub uninterp spec fn sha512_of(b: Seq<u8>) -> Seq<u8>;

/// The SHA-256 digest of a byte sequence.
pub uninterp spec fn sha256_of(b: Seq<u8>) -> Seq<u8>;

/// The standard base64 rendering of a byte sequence.
pub uninterp spec fn base64_of(b: Seq<u8>) -> Seq<char>;

/// What standard base64 decoding yields, when the text is well-formed.
pub uninterp spec fn base64_decode_of(s: Seq<char>) -> Option<Seq<u8>>;

/// The unpadded base32 rendering of a byte sequence.
pub uninterp spec fn base32_of(b: Seq<u8>) -> Seq<char>;

/// Relies on `sha2::Sha512`: the digest is 64 bytes and depends on the input
/// alone.
#[verifier::external_body]
pub fn sha512_digest(b: &Vec<u8>) -> (r: Vec<u8>)
    ensures
        r@ == sha512_of(b@),
        r@.len() == 64,
{
    sha2::Sha512::digest(b.as_slice()).to_vec()
}

/// Relies on `sha2::Sha256`: the digest is 32 bytes and depends on the input
/// alone.
#[verifier::external_body]
pub fn sha256_digest(b: &Vec<u8>) -> (r: Vec<u8>)
    ensures
        r@ == sha256_of(b@),
        r@.len() == 32,
{
    sha2::Sha256::digest(b.as_slice()).to_vec()
}

/// Relies on `base64`'s standard engine: encoding depends on the bytes
/// alone, and decoding the result gives the bytes back.
#[verifier::external_body]
pub fn base64_encode(b: &Vec<u8>) -> (r: String)
    ensures
        r@ == base64_of(b@),
        base64_decode_of(r@) == Option::Some(b@),
{
    base64::engine::general_purpose::STANDARD.encode(b.as_slice())
}

/// Relies on `base64`'s standard engine: decoding succeeds exactly on
/// well-formed text and its result depends on the text alone.
#[verifier::external_body]
pub fn base64_decode(s: &str) -> (r: Option<Vec<u8>>)
    ensures
        r is Some <==> base64_decode_of(s@) is Some,
        r is Some ==> Option::Some(r->0@) == base64_decode_of(s@),
{
    base64::engine::general_purpose::STANDARD.decode(s).ok()
}

/// Relies on `data_encoding::BASE32_NOPAD`: the rendering depends on the
/// bytes alone.
#[verifier::external_body]
pub fn base32_encode(b: &Vec<u8>) -> (r: String)
    ensures
        r@ == base32_of(b@),
{
    data_encoding::BASE32_NOPAD.encode(b.as_slice())
}

/// The lower-case hex digit for a value below sixteen.
pub open spec fn hex_digit(n: int) -> char {
    if n < 10 {
        digit_char(n)
    } else {
        (((87 + n) as u32) as char)
    }
}

/// The lower-case hex rendering: two digits per byte, high nibble first.
pub open spec fn hex_of(b: Seq<u8>) -> Seq<char>
    decreases b.len(),
{
    if b.len() == 0 {
        Seq::empty()
    } else {
        hex_of(b.drop_last()) + seq![
            hex_digit((b.last() / 16) as int),
            hex_digit((b.last() % 16) as int),
        ]
    }
}

/// Relies on `hex::encode`: lower-case, two digits per byte, high nibble
/// first, which is exactly `hex_of`.
#[verifier::external_body]
pub fn hex_encode(b: &Vec<u8>) -> (r: String)
    ensures
        r@ == hex_of(b@),
{
    hex::encode(b.as_slice())
}

/// The `sha512-` prefix of an integrity string.
pub open spec fn sha512_prefix() -> Seq<char> {
    seq!['s', 'h', 'a', '5', '1', '2', '-']
}

/// An integrity string: the prefix, then base64 of the digest.
pub open spec fn integrity_str(digest: Seq<u8>) -> Seq<char> {
    sha512_prefix() + base64_of(digest)
}

/// Render the integrity string of a digest.
pub fn format_integrity(digest: &Vec<u8>) -> (r: String)
    ensures
        r@ == integrity_str(digest@),
        base64_decode_of(r@.skip(7)) == Option::Some(digest@),
{
    let b64 = base64_encode(digest);
    let mut out: Vec<char> = Vec::new();
    out.push('s');
    out.push('h');
    out.push('a');
    out.push('5');
    out.push('1');
    out.push('2');
    out.push('-');
    let tail = string_to_chars(b64.as_str());
    let mut i: usize = 0;
    let n = tail.len();
    proof {
        assert(out@ =~= sha512_prefix());
    }
    while i < n
        invariant
            n == tail@.len(),
            i <= n,
            out@ =~= sha512_prefix() + tail@.take(i as int),
        decreases n - i,
    {
        out.push(tail[i]);
        i = i + 1;
        proof {
            assert(out@ =~= sha512_prefix() + tail@.take(i as int));
        }
    }
    proof {
        assert(tail@.take(n as int) =~= tail@);
        assert(out@.skip(7) =~= tail@);
    }
    chars_to_string(&out)
}

/// Whether a hint carries a SHA-512 digest.
pub open spec fn is_sha512_hint(s: Seq<char>) -> bool {
    s.len() >= 7 && s.take(7) == sha512_prefix()
}

/// Errors of the content stores.
#[derive(Clone, Copy, PartialEq, Eq, Structural, Debug)]
pub enum StoreError {
    /// A `sha512-` hint whose base64 payload cannot be decoded.
    IntegrityUndecodable,
    /// The declared digest differs from the computed one.
    IntegrityMismatch,
}

/// Check a digest against a declared integrity hint: a `sha512-` hint must
/// decode to exactly the computed digest, byte for byte; any other hint is
/// not a digest declaration and passes.
pub fn check_integrity(digest: &Vec<u8>, hint: &str) -> (r: Result<(), StoreError>)
    ensures
        r is Ok <==> (!is_sha512_hint(hint@) || (base64_decode_of(hint@.skip(7)) is Some
            && base64_decode_of(hint@.skip(7)) == Option::Some(digest@))),
        r is Err ==> is_sha512_hint(hint@),
        r == Result::<(), StoreError>::Err(StoreError::IntegrityUndecodable) <==> (is_sha512_hint(
            hint@,
        ) && base64_decode_of(hint@.skip(7)) is None),
        r == Result::<(), StoreError>::Err(StoreError::IntegrityMismatch) <==> (is_sha512_hint(
            hint@,
        ) && base64_decode_of(hint@.skip(7)) is Some && base64_decode_of(hint@.skip(7))
            != Option::Some(digest@)),
{
    let hv = string_to_chars(hint);
    let n = hv.len();
    if n < 7 {
        proof {
            assert(!is_sha512_hint(hint@));
        }
        return Ok(());
    }
    let is_hint = hv[0] == 's' && hv[1] == 'h' && hv[2] == 'a' && hv[3] == '5' && hv[4] == '1'
        && hv[5] == '2' && hv[6] == '-';
    proof {
        if is_hint {
            assert(hint@.take(7) =~= sha512_prefix());
        } else {
            if hint@.take(7) == sha512_prefix() {
                assert(hint@[0] == 's' && hint@[1] == 'h' && hint@[2] == 'a' && hint@[3] == '5'
                    && hint@[4] == '1' && hint@[5] == '2' && hint@[6] == '-') by {
                    assert(hint@.take(7)[0] == hint@[0]);
                    assert(hint@.take(7)[1] == hint@[1]);
                    assert(hint@.take(7)[2] == hint@[2]);
                    assert(hint@.take(7)[3] == hint@[3]);
                    assert(hint@.take(7)[4] == hint@[4]);
                    assert(hint@.take(7)[5] == hint@[5]);
                    assert(hint@.take(7)[6] == hint@[6]);
                }
            }
        }
    }
    if !is_hint {
        return Ok(());
    }
    let mut b64: Vec<char> = Vec::new();
    let mut i: usize = 7;
    while i < n
        invariant
            7 <= i <= n,
            n == hv@.len(),
            hv@ == hint@,
            b64@ =~= hint@.subrange(7, i as int),
        decreases n - i,
    {
        b64.push(hv[i]);
        i = i + 1;
        proof {
            assert(b64@ =~= hint@.subrange(7, i as int));
        }
    }
    proof {
        assert(b64@ =~= hint@.skip(7));
    }
    let b64s = chars_to_string(&b64);
    match base64_decode(b64s.as_str()) {
        None => Err(StoreError::IntegrityUndecodable),
        Some(raw) => {
            let mut same = raw.len() == digest.len();
            if same {
                let m = raw.len();
                let mut k: usize = 0;
                let mut eq = true;
                while k < m
                    invariant
                        m == raw@.len() == digest@.len(),
                        k <= m,
                        eq == (forall|j: int| 0 <= j < k ==> raw@[j] == digest@[j]),
                    decreases m - k,
                {
                    if raw[k] != digest[k] {
                        eq = false;
                    }
                    k = k + 1;
                }
                same = eq;
                proof {
                    if same {
                        assert(raw@ =~= digest@);
                    }
                }
            }
            if same {
                Ok(())
            } else {
                Err(StoreError::IntegrityMismatch)
            }
        },
    }
}

/// Whether a version string already carries build metadata.
pub open spec fn has_plus(s: Seq<char>) -> bool {
    exists|i: int| 0 <= i < s.len() && s[i] == '+'
}

/// Attach a build tag: after `+` when none is present yet, after `.`
/// otherwise.
pub open spec fn append_build_spec(base: Seq<char>, tag: Seq<char>) -> Seq<char> {
    if has_plus(base) {
        base + seq!['.'] + tag
    } else {
        base + seq!['+'] + tag
    }
}

/// Attach a build tag to a version string.
pub fn append_build(base: &str, tag: &str) -> (r: String)
    ensures
        r@ == append_build_spec(base@, tag@),
{
    let bv = string_to_chars(base);
    let n = bv.len();
    let mut plus = false;
    let mut i: usize = 0;
    while i < n
        invariant
            n == bv@.len(),
            bv@ == base@,
            i <= n,
            plus == (exists|j: int| 0 <= j < i && base@[j] == '+'),
        decreases n - i,
    {
        if bv[i] == '+' {
            plus = true;
        }
        i = i + 1;
    }
    let mut out = bv;
    if plus {
        out.push('.');
    } else {
        out.push('+');
    }
    let tv = string_to_chars(tag);
    let mut k: usize = 0;
    let m = tv.len();
    let ghost mid = out@;
    while k < m
        invariant
            m == tv@.len(),
            tv@ == tag@,
            k <= m,
            out@ =~= mid + tag@.take(k as int),
        decreases m - k,
    {
        out.push(tv[k]);
        k = k + 1;
        proof {
            assert(out@ =~= mid + tag@.take(k as int));
        }
    }
    proof {
        assert(tag@.take(m as int) =~= tag@);
        assert(out@ =~= append_build_spec(base@, tag@));
    }
    chars_to_string(&out)
}

/// The eight-character prefix of the hex SHA-256 of a string's UTF-8 bytes,
/// as used to tag remote tarball versions.
pub open spec fn short_hash_of(s: Seq<char>) -> Seq<char> {
    hex_of(sha256_of(vstd::utf8::encode_utf8(s))).take(8)
}

/// Shorten a string to a stable eight-hex-digit tag.
pub fn short_hash(input: &str) -> (r: String)
    ensures
        r@ == short_hash_of(input@),
{
    let bytes = vstd::string::StrSliceExecFns::as_bytes_vec(input);
    let digest = sha256_digest(&bytes);
    let hexs = hex_encode(&digest);
    let hv = string_to_chars(hexs.as_str());
    proof {
        lemma_hex_len(digest@);
    }
    let mut out: Vec<char> = Vec::new();
    let mut i: usize = 0;
    while i < 8
        invariant
            hv@.len() >= 8,
            hv@ == hex_of(sha256_of(vstd::utf8::encode_utf8(input@))),
            i <= 8,
            out@ =~= hv@.take(i as int),
        decreases 8 - i,
    {
        out.push(hv[i]);
        i = i + 1;
        proof {
            assert(out@ =~= hv@.take(i as int));
        }
    }
    chars_to_string(&out)
}

/// Hex doubles the length.
pub proof fn lemma_hex_len(b: Seq<u8>)
    ensures
        hex_of(b).len() == 2 * b.len(),
    decreases b.len(),
{
    if b.len() > 0 {
        lemma_hex_len(b.drop_last());
    }
}

} // verus!
