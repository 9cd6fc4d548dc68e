//! The binary lockfile format: a framed, little-endian, length-prefixed
//! encoding. The format is specified twice — once as an encoder over views
//! (`enc_*`) and once as a decoder over byte sequences (`dec_*`) — and the
//! executable code is proved against both, which yields the round trip.

use vstd::prelude::*;

verus! {

use vstd::bytes::{
    spec_u16_to_le_bytes, spec_u16_from_le_bytes, spec_u32_to_le_bytes, spec_u32_from_le_bytes,
    lemma_auto_spec_u16_to_from_le_bytes, lemma_auto_spec_u32_to_from_le_bytes, u16_from_le_bytes,
    u32_from_le_bytes, u16_to_le_bytes, u32_to_le_bytes,
};
use vstd::utf8::{valid_utf8, decode_utf8, encode_utf8};
use vstd::slice::{slice_subrange, slice_to_vec};
use vstd::string::StringSliceAdditionalSpecFns;
use crate::strutil::bytes_to_string;
use crate::smap::StrMap;

/// Errors of the lockfile codec.
#[derive(Clone, Copy, PartialEq, Eq, Structural, Debug)]
pub enum LockError {
    /// The bytes do not form a lockfile this crate can read.
    Unreadable,
    /// A value does not fit the on-disk field widths or the size cap.
    TooLarge,
}

/// The size cap on the encoded lockfile.
pub const MAX_LOCKFILE_SIZE: usize = 16777216;

pub const CURRENT_WIRE_VERSION: u16 = 3;

/// The eight magic bytes `PACMLOCK` that open the file.
pub open spec fn spec_magic() -> Seq<u8> {
    seq![0x50u8, 0x41u8, 0x43u8, 0x4du8, 0x4cu8, 0x4fu8, 0x43u8, 0x4bu8]
}

/// The magic bytes as a vector.
pub fn magic_bytes() -> (r: Vec<u8>)
    ensures
        r@ == spec_magic(),
{
    let mut r: Vec<u8> = Vec::new();
    r.push(0x50);
    r.push(0x41);
    r.push(0x43);
    r.push(0x4d);
    r.push(0x4c);
    r.push(0x4f);
    r.push(0x43);
    r.push(0x4b);
    proof {
        assert(r@ =~= spec_magic());
    }
    r
}

// ---------------------------------------------------------------------------
// encoding, as functions from views to byte sequences
// ---------------------------------------------------------------------------

pub open spec fn enc_u16(v: u16) -> Seq<u8> {
    spec_u16_to_le_bytes(v)
}

pub open spec fn enc_u32(v: u32) -> Seq<u8> {
    spec_u32_to_le_bytes(v)
}

/// A string fits the format when its UTF-8 length has a `u32` prefix.
pub open spec fn str_fits(s: Seq<char>) -> bool {
    encode_utf8(s).len() <= u32::MAX
}

pub open spec fn enc_str(s: Seq<char>) -> Seq<u8> {
    enc_u32(encode_utf8(s).len() as u32) + encode_utf8(s)
}

pub open spec fn opt_fits(o: Option<Seq<char>>) -> bool {
    match o {
        Option::None => true,
        Option::Some(s) => str_fits(s),
    }
}

pub open spec fn enc_opt_str(o: Option<Seq<char>>) -> Seq<u8> {
    match o {
        Option::None => seq![0u8],
        Option::Some(s) => seq![1u8] + enc_str(s),
    }
}

// ---------------------------------------------------------------------------
// decoding, as partial functions from byte sequences to views
// ---------------------------------------------------------------------------

pub open spec fn dec_u16(d: Seq<u8>, pos: int) -> Option<(u16, int)> {
    if 0 <= pos && pos + 2 <= d.len() {
        Option::Some((spec_u16_from_le_bytes(d.subrange(pos, pos + 2)), pos + 2))
    } else {
        Option::None
    }
}

pub open spec fn dec_u32(d: Seq<u8>, pos: int) -> Option<(u32, int)> {
    if 0 <= pos && pos + 4 <= d.len() {
        Option::Some((spec_u32_from_le_bytes(d.subrange(pos, pos + 4)), pos + 4))
    } else {
        Option::None
    }
}

pub open spec fn dec_str(d: Seq<u8>, pos: int) -> Option<(Seq<char>, int)> {
    match dec_u32(d, pos) {
        Option::None => Option::None,
        Option::Some((n, p)) => if p + n <= d.len() && valid_utf8(d.subrange(p, p + n)) {
            Option::Some((decode_utf8(d.subrange(p, p + n)), p + n))
        } else {
            Option::None
        },
    }
}

pub open spec fn dec_opt_str(d: Seq<u8>, pos: int) -> Option<(Option<Seq<char>>, int)> {
    if 0 <= pos && pos + 1 <= d.len() {
        if d[pos] == 0u8 {
            Option::Some((Option::None, pos + 1))
        } else if d[pos] == 1u8 {
            match dec_str(d, pos + 1) {
                Option::None => Option::None,
                Option::Some((s, p)) => Option::Some((Option::Some(s), p)),
            }
        } else {
            Option::None
        }
    } else {
        Option::None
    }
}

// ---------------------------------------------------------------------------
// decoding agrees with encoding
// ---------------------------------------------------------------------------

pub proof fn lemma_dec_u16(d: Seq<u8>, pos: int, v: u16)
    requires
        0 <= pos,
        pos + 2 <= d.len(),
        d.subrange(pos, pos + 2) == enc_u16(v),
    ensures
        dec_u16(d, pos) == Option::Some((v, pos + 2)),
{
    lemma_auto_spec_u16_to_from_le_bytes();
    assert(spec_u16_to_le_bytes(v).len() == 2);
    assert(spec_u16_from_le_bytes(spec_u16_to_le_bytes(v)) == v);
}

pub proof fn lemma_dec_u32(d: Seq<u8>, pos: int, v: u32)
    requires
        0 <= pos,
        pos + 4 <= d.len(),
        d.subrange(pos, pos + 4) == enc_u32(v),
    ensures
        dec_u32(d, pos) == Option::Some((v, pos + 4)),
{
    lemma_auto_spec_u32_to_from_le_bytes();
    assert(spec_u32_to_le_bytes(v).len() == 4);
    assert(spec_u32_from_le_bytes(spec_u32_to_le_bytes(v)) == v);
}

pub proof fn lemma_enc_u16_len(v: u16)
    ensures
        enc_u16(v).len() == 2,
{
    lemma_auto_spec_u16_to_from_le_bytes();
}

pub proof fn lemma_enc_u32_len(v: u32)
    ensures
        enc_u32(v).len() == 4,
{
    lemma_auto_spec_u32_to_from_le_bytes();
}

pub proof fn lemma_dec_str(d: Seq<u8>, pos: int, s: Seq<char>)
    requires
        0 <= pos,
        str_fits(s),
        pos + enc_str(s).len() <= d.len(),
        d.subrange(pos, pos + enc_str(s).len()) == enc_str(s),
    ensures
        dec_str(d, pos) == Option::Some((s, pos + enc_str(s).len())),
{
    lemma_auto_spec_u32_to_from_le_bytes();
    let bytes = encode_utf8(s);
    let n = bytes.len() as int;
    assert(enc_str(s).len() == 4 + n);
    assert(d.subrange(pos, pos + 4) =~= enc_str(s).subrange(0, 4));
    assert(enc_str(s).subrange(0, 4) =~= enc_u32(n as u32));
    lemma_dec_u32(d, pos, n as u32);
    assert(d.subrange(pos + 4, pos + 4 + n) =~= enc_str(s).subrange(4, 4 + n));
    assert(enc_str(s).subrange(4, 4 + n) =~= bytes);
    vstd::utf8::encode_utf8_valid_utf8(s);
    vstd::utf8::encode_utf8_decode_utf8(s);
}

pub proof fn lemma_dec_opt_str(d: Seq<u8>, pos: int, o: Option<Seq<char>>)
    requires
        0 <= pos,
        opt_fits(o),
        pos + enc_opt_str(o).len() <= d.len(),
        d.subrange(pos, pos + enc_opt_str(o).len()) == enc_opt_str(o),
    ensures
        dec_opt_str(d, pos) == Option::Some((o, pos + enc_opt_str(o).len())),
{
    match o {
        Option::None => {
            assert(d[pos] == enc_opt_str(o)[0]);
        },
        Option::Some(s) => {
            assert(d[pos] == enc_opt_str(o)[0]);
            assert(d[pos] == 1u8);
            let el = enc_str(s).len() as int;
            assert(d.subrange(pos + 1, pos + 1 + el) =~= enc_opt_str(o).subrange(1, 1 + el));
            assert(enc_opt_str(o).subrange(1, 1 + el) =~= enc_str(s));
            lemma_dec_str(d, pos + 1, s);
        },
    }
}

// ---------------------------------------------------------------------------
// maps and lists
// ---------------------------------------------------------------------------

pub open spec fn map_fits(ps: Seq<(Seq<char>, Seq<char>)>) -> bool {
    &&& ps.len() <= u32::MAX
    &&& forall|i: int|
        0 <= i < ps.len() ==> str_fits((#[trigger] ps[i]).0) && str_fits(ps[i].1)
}

pub open spec fn enc_map_items(ps: Seq<(Seq<char>, Seq<char>)>) -> Seq<u8>
    decreases ps.len(),
{
    if ps.len() == 0 {
        Seq::empty()
    } else {
        enc_str(ps[0].0) + enc_str(ps[0].1) + enc_map_items(ps.drop_first())
    }
}

pub open spec fn enc_str_map(ps: Seq<(Seq<char>, Seq<char>)>) -> Seq<u8> {
    enc_u32(ps.len() as u32) + enc_map_items(ps)
}

pub open spec fn dec_map_items(d: Seq<u8>, pos: int, n: nat) -> Option<
    (Seq<(Seq<char>, Seq<char>)>, int),
>
    decreases n,
{
    if n == 0 {
        Option::Some((Seq::empty(), pos))
    } else {
        match dec_str(d, pos) {
            Option::None => Option::None,
            Option::Some((k, p1)) => match dec_str(d, p1) {
                Option::None => Option::None,
                Option::Some((v, p2)) => match dec_map_items(d, p2, (n - 1) as nat) {
                    Option::None => Option::None,
                    Option::Some((rest, p3)) => Option::Some((seq![(k, v)] + rest, p3)),
                },
            },
        }
    }
}

pub open spec fn dec_str_map(d: Seq<u8>, pos: int) -> Option<(Seq<(Seq<char>, Seq<char>)>, int)> {
    match dec_u32(d, pos) {
        Option::None => Option::None,
        Option::Some((n, p)) => dec_map_items(d, p, n as nat),
    }
}

pub open spec fn peer_fits(ps: Seq<(Seq<char>, bool)>) -> bool {
    &&& ps.len() <= u32::MAX
    &&& forall|i: int| 0 <= i < ps.len() ==> str_fits((#[trigger] ps[i]).0)
}

pub open spec fn enc_peer_items(ps: Seq<(Seq<char>, bool)>) -> Seq<u8>
    decreases ps.len(),
{
    if ps.len() == 0 {
        Seq::empty()
    } else {
        enc_str(ps[0].0) + seq![if ps[0].1 { 1u8 } else { 0u8 }] + enc_peer_items(ps.drop_first())
    }
}

pub open spec fn enc_peer_map(ps: Seq<(Seq<char>, bool)>) -> Seq<u8> {
    enc_u32(ps.len() as u32) + enc_peer_items(ps)
}

pub open spec fn dec_peer_items(d: Seq<u8>, pos: int, n: nat) -> Option<(Seq<(Seq<char>, bool)>, int)>
    decreases n,
{
    if n == 0 {
        Option::Some((Seq::empty(), pos))
    } else {
        match dec_str(d, pos) {
            Option::None => Option::None,
            Option::Some((k, p1)) => if p1 + 1 <= d.len() && (d[p1] == 0u8 || d[p1] == 1u8) {
                match dec_peer_items(d, p1 + 1, (n - 1) as nat) {
                    Option::None => Option::None,
                    Option::Some((rest, p2)) => Option::Some(
                        (seq![(k, d[p1] == 1u8)] + rest, p2),
                    ),
                }
            } else {
                Option::None
            },
        }
    }
}

pub open spec fn dec_peer_map(d: Seq<u8>, pos: int) -> Option<(Seq<(Seq<char>, bool)>, int)> {
    match dec_u32(d, pos) {
        Option::None => Option::None,
        Option::Some((n, p)) => dec_peer_items(d, p, n as nat),
    }
}

pub open spec fn list_fits(items: Seq<Seq<char>>) -> bool {
    &&& items.len() <= u32::MAX
    &&& forall|i: int| 0 <= i < items.len() ==> str_fits(#[trigger] items[i])
}

pub open spec fn enc_list_items(items: Seq<Seq<char>>) -> Seq<u8>
    decreases items.len(),
{
    if items.len() == 0 {
        Seq::empty()
    } else {
        enc_str(items[0]) + enc_list_items(items.drop_first())
    }
}

pub open spec fn enc_str_list(items: Seq<Seq<char>>) -> Seq<u8> {
    enc_u32(items.len() as u32) + enc_list_items(items)
}

pub open spec fn dec_list_items(d: Seq<u8>, pos: int, n: nat) -> Option<(Seq<Seq<char>>, int)>
    decreases n,
{
    if n == 0 {
        Option::Some((Seq::empty(), pos))
    } else {
        match dec_str(d, pos) {
            Option::None => Option::None,
            Option::Some((s, p1)) => match dec_list_items(d, p1, (n - 1) as nat) {
                Option::None => Option::None,
                Option::Some((rest, p2)) => Option::Some((seq![s] + rest, p2)),
            },
        }
    }
}

pub open spec fn dec_str_list(d: Seq<u8>, pos: int) -> Option<(Seq<Seq<char>>, int)> {
    match dec_u32(d, pos) {
        Option::None => Option::None,
        Option::Some((n, p)) => dec_list_items(d, p, n as nat),
    }
}

pub proof fn lemma_dec_map_items(d: Seq<u8>, pos: int, ps: Seq<(Seq<char>, Seq<char>)>)
    requires
        0 <= pos,
        forall|i: int| 0 <= i < ps.len() ==> str_fits((#[trigger] ps[i]).0) && str_fits(ps[i].1),
        pos + enc_map_items(ps).len() <= d.len(),
        d.subrange(pos, pos + enc_map_items(ps).len()) == enc_map_items(ps),
    ensures
        dec_map_items(d, pos, ps.len()) == Option::Some((ps, pos + enc_map_items(ps).len())),
    decreases ps.len(),
{
    if ps.len() == 0 {
    } else {
        let ek = enc_str(ps[0].0);
        let ev = enc_str(ps[0].1);
        let rest = enc_map_items(ps.drop_first());
        assert(enc_map_items(ps) == ek + ev + rest);
        let kl = ek.len() as int;
        let vl = ev.len() as int;
        let rl = rest.len() as int;
        let whole = enc_map_items(ps);
        assert(whole.len() == kl + vl + rl);
        assert forall|j: int| 0 <= j < whole.len() implies d[pos + j] == whole[j] by {
            assert(d.subrange(pos, pos + whole.len() as int)[j] == d[pos + j]);
        }
        assert forall|j: int| 0 <= j < kl implies whole[j] == ek[j] by {}
        assert(d.subrange(pos, pos + kl) =~= ek);
        lemma_dec_str(d, pos, ps[0].0);
        assert forall|j: int| 0 <= j < vl implies whole[kl + j] == ev[j] by {}
        assert(d.subrange(pos + kl, pos + kl + vl) =~= ev);
        lemma_dec_str(d, pos + kl, ps[0].1);
        assert forall|j: int| 0 <= j < rl implies whole[kl + vl + j] == rest[j] by {}
        assert(d.subrange(pos + kl + vl, pos + kl + vl + rl) =~= rest);
        lemma_dec_map_items(d, pos + kl + vl, ps.drop_first());
        assert(seq![ps[0]] + ps.drop_first() =~= ps);
    }
}

pub proof fn lemma_dec_peer_items(d: Seq<u8>, pos: int, ps: Seq<(Seq<char>, bool)>)
    requires
        0 <= pos,
        forall|i: int| 0 <= i < ps.len() ==> str_fits((#[trigger] ps[i]).0),
        pos + enc_peer_items(ps).len() <= d.len(),
        d.subrange(pos, pos + enc_peer_items(ps).len()) == enc_peer_items(ps),
    ensures
        dec_peer_items(d, pos, ps.len()) == Option::Some((ps, pos + enc_peer_items(ps).len())),
    decreases ps.len(),
{
    if ps.len() == 0 {
    } else {
        let ek = enc_str(ps[0].0);
        let flag = seq![if ps[0].1 { 1u8 } else { 0u8 }];
        let rest = enc_peer_items(ps.drop_first());
        assert(enc_peer_items(ps) == ek + flag + rest);
        let kl = ek.len() as int;
        let rl = rest.len() as int;
        let whole = enc_peer_items(ps);
        assert(whole.len() == kl + 1 + rl);
        assert forall|j: int| 0 <= j < whole.len() implies d[pos + j] == whole[j] by {
            assert(d.subrange(pos, pos + whole.len() as int)[j] == d[pos + j]);
        }
        assert forall|j: int| 0 <= j < kl implies whole[j] == ek[j] by {}
        assert(d.subrange(pos, pos + kl) =~= ek);
        lemma_dec_str(d, pos, ps[0].0);
        assert(whole[kl] == flag[0]);
        assert(d[pos + kl] == flag[0]);
        assert forall|j: int| 0 <= j < rl implies whole[kl + 1 + j] == rest[j] by {}
        assert(d.subrange(pos + kl + 1, pos + kl + 1 + rl) =~= rest);
        lemma_dec_peer_items(d, pos + kl + 1, ps.drop_first());
        assert(seq![ps[0]] + ps.drop_first() =~= ps);
    }
}

pub proof fn lemma_dec_list_items(d: Seq<u8>, pos: int, items: Seq<Seq<char>>)
    requires
        0 <= pos,
        forall|i: int| 0 <= i < items.len() ==> str_fits(#[trigger] items[i]),
        pos + enc_list_items(items).len() <= d.len(),
        d.subrange(pos, pos + enc_list_items(items).len()) == enc_list_items(items),
    ensures
        dec_list_items(d, pos, items.len()) == Option::Some(
            (items, pos + enc_list_items(items).len()),
        ),
    decreases items.len(),
{
    if items.len() == 0 {
    } else {
        let e0 = enc_str(items[0]);
        let rest = enc_list_items(items.drop_first());
        assert(enc_list_items(items) == e0 + rest);
        let l0 = e0.len() as int;
        let rl = rest.len() as int;
        let whole = enc_list_items(items);
        assert(whole.len() == l0 + rl);
        assert forall|j: int| 0 <= j < whole.len() implies d[pos + j] == whole[j] by {
            assert(d.subrange(pos, pos + whole.len() as int)[j] == d[pos + j]);
        }
        assert forall|j: int| 0 <= j < l0 implies whole[j] == e0[j] by {}
        assert(d.subrange(pos, pos + l0) =~= e0);
        lemma_dec_str(d, pos, items[0]);
        assert forall|j: int| 0 <= j < rl implies whole[l0 + j] == rest[j] by {}
        assert(d.subrange(pos + l0, pos + l0 + rl) =~= rest);
        lemma_dec_list_items(d, pos + l0, items.drop_first());
        assert(seq![items[0]] + items.drop_first() =~= items);
    }
}

// ---------------------------------------------------------------------------
// executable writers
// ---------------------------------------------------------------------------

pub fn write_u16(buf: &mut Vec<u8>, value: u16)
    ensures
        final(buf)@ == old(buf)@ + enc_u16(value),
{
    let bytes = u16_to_le_bytes(value);
    buf.append(&mut { bytes });
}

pub fn write_u32(buf: &mut Vec<u8>, value: u32)
    ensures
        final(buf)@ == old(buf)@ + enc_u32(value),
{
    let bytes = u32_to_le_bytes(value);
    buf.append(&mut { bytes });
}

/// Write a length as its `u32` prefix; lengths beyond `u32` are refused.
pub fn write_len(buf: &mut Vec<u8>, len: usize) -> (r: Result<(), LockError>)
    ensures
        match r {
            Ok(()) => len <= u32::MAX && final(buf)@ == old(buf)@ + enc_u32(len as u32),
            Err(e) => len > u32::MAX && e == LockError::TooLarge && final(buf)@ == old(buf)@,
        },
{
    if len > u32::MAX as usize {
        return Err(LockError::TooLarge);
    }
    write_u32(buf, len as u32);
    Ok(())
}

pub fn write_string(buf: &mut Vec<u8>, value: &str) -> (r: Result<(), LockError>)
    ensures
        match r {
            Ok(()) => str_fits(value@) && final(buf)@ == old(buf)@ + enc_str(value@),
            Err(e) => !str_fits(value@) && e == LockError::TooLarge && final(buf)@ == old(buf)@,
        },
{
    let bytes = value.as_bytes();
    let r = write_len(buf, bytes.len());
    match r {
        Ok(()) => {
            buf.extend_from_slice(bytes);
            proof {
                assert(final(buf)@ =~= old(buf)@ + enc_str(value@));
            }
            Ok(())
        },
        Err(e) => Err(e),
    }
}

pub fn write_option_string(buf: &mut Vec<u8>, value: &Option<String>) -> (r: Result<
    (),
    LockError,
>)
    ensures
        match r {
            Ok(()) => opt_fits(crate::lockfile::ostr(*value)) && final(buf)@ == old(buf)@
                + enc_opt_str(crate::lockfile::ostr(*value)),
            Err(e) => !opt_fits(crate::lockfile::ostr(*value)) && e == LockError::TooLarge
                && final(buf)@ == old(buf)@,
        },
{
    match value {
        Some(s) => {
            let ghost prev = buf@;
            buf.push(1);
            let r = write_string(buf, s.as_str());
            match r {
                Ok(()) => {
                    proof {
                        assert(buf@ =~= prev + enc_opt_str(crate::lockfile::ostr(*value)));
                    }
                    Ok(())
                },
                Err(e) => {
                    // undo the tag byte so nothing half-written stays behind
                    buf.pop();
                    proof {
                        assert(buf@ =~= prev);
                    }
                    Err(e)
                },
            }
        },
        None => {
            buf.push(0);
            proof {
                assert(buf@ =~= old(buf)@ + enc_opt_str(crate::lockfile::ostr(*value)));
            }
            Ok(())
        },
    }
}

// ---------------------------------------------------------------------------
// executable readers
// ---------------------------------------------------------------------------

pub fn read_u16(data: &[u8], pos: &mut usize) -> (r: Result<u16, LockError>)
    ensures
        match r {
            Ok(v) => dec_u16(data@, *old(pos) as int) == Option::Some((v, *final(pos) as int))
                && *final(pos) == *old(pos) + 2 && *final(pos) <= data@.len(),
            Err(e) => dec_u16(data@, *old(pos) as int) is None && e == LockError::Unreadable
                && *final(pos) == *old(pos),
        },
{
    if data.len() < 2 || *pos > data.len() - 2 {
        return Err(LockError::Unreadable);
    }
    let s = slice_subrange(data, *pos, *pos + 2);
    let v = u16_from_le_bytes(s);
    *pos = *pos + 2;
    Ok(v)
}

pub fn read_u32(data: &[u8], pos: &mut usize) -> (r: Result<u32, LockError>)
    ensures
        match r {
            Ok(v) => dec_u32(data@, *old(pos) as int) == Option::Some((v, *final(pos) as int))
                && *final(pos) == *old(pos) + 4 && *final(pos) <= data@.len(),
            Err(e) => dec_u32(data@, *old(pos) as int) is None && e == LockError::Unreadable
                && *final(pos) == *old(pos),
        },
{
    if data.len() < 4 || *pos > data.len() - 4 {
        return Err(LockError::Unreadable);
    }
    let s = slice_subrange(data, *pos, *pos + 4);
    let v = u32_from_le_bytes(s);
    *pos = *pos + 4;
    Ok(v)
}

pub fn read_string(data: &[u8], pos: &mut usize) -> (r: Result<String, LockError>)
    ensures
        match r {
            Ok(v) => dec_str(data@, *old(pos) as int) == Option::Some((v@, *final(pos) as int))
                && *old(pos) <= *final(pos) <= data@.len(),
            Err(e) => dec_str(data@, *old(pos) as int) is None && e == LockError::Unreadable
                && *final(pos) == *old(pos),
        },
{
    let ghost p0 = *pos;
    let n = match read_u32(data, pos) {
        Ok(v) => v,
        Err(e) => {
            return Err(e);
        },
    };
    let n = n as usize;
    if n > data.len() || *pos > data.len() - n {
        *pos = *pos - 4;
        return Err(LockError::Unreadable);
    }
    let s = slice_subrange(data, *pos, *pos + n);
    let bytes = slice_to_vec(s);
    match bytes_to_string(bytes) {
        Some(st) => {
            *pos = *pos + n;
            Ok(st)
        },
        None => {
            *pos = *pos - 4;
            Err(LockError::Unreadable)
        },
    }
}

pub fn read_option_string(data: &[u8], pos: &mut usize) -> (r: Result<Option<String>, LockError>)
    ensures
        match r {
            Ok(v) => dec_opt_str(data@, *old(pos) as int) == Option::Some(
                (crate::lockfile::ostr(v), *final(pos) as int),
            ) && *old(pos) <= *final(pos) <= data@.len(),
            Err(e) => dec_opt_str(data@, *old(pos) as int) is None && e == LockError::Unreadable
                && *final(pos) == *old(pos),
        },
{
    if *pos >= data.len() {
        return Err(LockError::Unreadable);
    }
    let tag = data[*pos];
    if tag == 0 {
        *pos = *pos + 1;
        return Ok(None);
    }
    if tag != 1 {
        return Err(LockError::Unreadable);
    }
    *pos = *pos + 1;
    match read_string(data, pos) {
        Ok(s) => Ok(Some(s)),
        Err(e) => {
            *pos = *pos - 1;
            Err(e)
        },
    }
}

// ---------------------------------------------------------------------------
// executable map, peer-map and list writers and readers
// ---------------------------------------------------------------------------

pub proof fn lemma_enc_map_items_snoc(ps: Seq<(Seq<char>, Seq<char>)>, p: (Seq<char>, Seq<char>))
    ensures
        enc_map_items(ps.push(p)) =~= enc_map_items(ps) + enc_str(p.0) + enc_str(p.1),
    decreases ps.len(),
{
    if ps.len() == 0 {
        assert(ps.push(p)[0] == p);
        assert(ps.push(p).drop_first() =~= Seq::<(Seq<char>, Seq<char>)>::empty());
        assert(enc_map_items(ps.push(p)) == enc_str(p.0) + enc_str(p.1) + enc_map_items(
            ps.push(p).drop_first(),
        ));
        assert(enc_map_items(ps.push(p).drop_first()) == Seq::<u8>::empty());
        assert(enc_map_items(ps) == Seq::<u8>::empty());
        assert(enc_map_items(ps.push(p)) =~= enc_map_items(ps) + enc_str(p.0) + enc_str(p.1));
    } else {
        assert(ps.push(p)[0] == ps[0]);
        assert(ps.push(p).drop_first() =~= ps.drop_first().push(p));
        lemma_enc_map_items_snoc(ps.drop_first(), p);
        assert(enc_map_items(ps.push(p)) == enc_str(ps[0].0) + enc_str(ps[0].1) + enc_map_items(
            ps.drop_first().push(p),
        ));
        assert(enc_map_items(ps) == enc_str(ps[0].0) + enc_str(ps[0].1) + enc_map_items(
            ps.drop_first(),
        ));
        assert(enc_map_items(ps.drop_first().push(p)) == enc_map_items(ps.drop_first())
            + enc_str(p.0) + enc_str(p.1));
        assert(enc_map_items(ps.push(p)) =~= enc_map_items(ps) + enc_str(p.0) + enc_str(p.1));
    }
}

pub proof fn lemma_enc_peer_items_snoc(ps: Seq<(Seq<char>, bool)>, p: (Seq<char>, bool))
    ensures
        enc_peer_items(ps.push(p)) =~= enc_peer_items(ps) + enc_str(p.0) + seq![
            if p.1 {
                1u8
            } else {
                0u8
            },
        ],
    decreases ps.len(),
{
    if ps.len() == 0 {
        assert(ps.push(p)[0] == p);
        assert(ps.push(p).drop_first() =~= Seq::<(Seq<char>, bool)>::empty());
        assert(enc_peer_items(ps.push(p)) == enc_str(p.0) + seq![
            if p.1 {
                1u8
            } else {
                0u8
            },
        ] + enc_peer_items(ps.push(p).drop_first()));
        assert(enc_peer_items(ps.push(p).drop_first()) == Seq::<u8>::empty());
        assert(enc_peer_items(ps) == Seq::<u8>::empty());
    } else {
        assert(ps.push(p)[0] == ps[0]);
        assert(ps.push(p).drop_first() =~= ps.drop_first().push(p));
        lemma_enc_peer_items_snoc(ps.drop_first(), p);
        assert(enc_peer_items(ps.push(p)) == enc_str(ps[0].0) + seq![
            if ps[0].1 {
                1u8
            } else {
                0u8
            },
        ] + enc_peer_items(ps.drop_first().push(p)));
        assert(enc_peer_items(ps) == enc_str(ps[0].0) + seq![
            if ps[0].1 {
                1u8
            } else {
                0u8
            },
        ] + enc_peer_items(ps.drop_first()));
    }
}

pub proof fn lemma_enc_list_items_snoc(items: Seq<Seq<char>>, s: Seq<char>)
    ensures
        enc_list_items(items.push(s)) =~= enc_list_items(items) + enc_str(s),
    decreases items.len(),
{
    if items.len() == 0 {
        assert(items.push(s)[0] == s);
        assert(items.push(s).drop_first() =~= Seq::<Seq<char>>::empty());
        assert(enc_list_items(items.push(s)) == enc_str(s) + enc_list_items(
            items.push(s).drop_first(),
        ));
        assert(enc_list_items(items.push(s).drop_first()) == Seq::<u8>::empty());
        assert(enc_list_items(items) == Seq::<u8>::empty());
    } else {
        assert(items.push(s)[0] == items[0]);
        assert(items.push(s).drop_first() =~= items.drop_first().push(s));
        lemma_enc_list_items_snoc(items.drop_first(), s);
        assert(enc_list_items(items.push(s)) == enc_str(items[0]) + enc_list_items(
            items.drop_first().push(s),
        ));
        assert(enc_list_items(items) == enc_str(items[0]) + enc_list_items(items.drop_first()));
    }
}

pub fn write_string_map(buf: &mut Vec<u8>, map: &StrMap<String>) -> (r: Result<(), LockError>)
    ensures
        match r {
            Ok(()) => map_fits(map.str_pairs()) && final(buf)@ == old(buf)@ + enc_str_map(
                map.str_pairs(),
            ),
            Err(e) => e == LockError::TooLarge && !map_fits(map.str_pairs()),
        },
{
    let ghost ps = map.str_pairs();
    let n = map.len();
    match write_len(buf, n) {
        Ok(()) => {},
        Err(e) => {
            return Err(e);
        },
    }
    let ghost base = buf@;
    let mut i: usize = 0;
    proof {
        assert(ps.take(0) =~= Seq::<(Seq<char>, Seq<char>)>::empty());
        assert(base + enc_map_items(ps.take(0)) =~= base);
    }
    while i < n
        invariant
            n == map.spec_len(),
            ps == map.str_pairs(),
            i <= n,
            forall|j: int| 0 <= j < i ==> str_fits((#[trigger] ps[j]).0) && str_fits(ps[j].1),
            buf@ == base + enc_map_items(ps.take(i as int)),
        decreases n - i,
    {
        let k = map.key_at(i);
        proof {
            assert(ps[i as int].0 == map.pairs_view()[i as int].0);
            assert(ps[i as int].1 == map.pairs_view()[i as int].1@);
        }
        let ghost before = buf@;
        match write_string(buf, k.as_str()) {
            Ok(()) => {},
            Err(e) => {
                proof {
                    assert(!str_fits(ps[i as int].0));
                    assert(!map_fits(ps));
                }
                return Err(e);
            },
        }
        let v = map.val_at(i);
        match write_string(buf, v.as_str()) {
            Ok(()) => {},
            Err(e) => {
                proof {
                    assert(!str_fits(ps[i as int].1));
                    assert(!map_fits(ps));
                }
                return Err(e);
            },
        }
        proof {
            assert(ps.take(i + 1) =~= ps.take(i as int).push(ps[i as int]));
            lemma_enc_map_items_snoc(ps.take(i as int), ps[i as int]);
            assert(buf@ =~= base + enc_map_items(ps.take(i + 1)));
        }
        i = i + 1;
    }
    proof {
        assert(ps.take(n as int) =~= ps);
        assert(old(buf)@ + enc_str_map(ps) =~= base + enc_map_items(ps));
    }
    Ok(())
}

pub fn write_peer_meta_map(buf: &mut Vec<u8>, map: &StrMap<crate::lockfile::PeerMeta>) -> (r:
    Result<(), LockError>)
    ensures
        match r {
            Ok(()) => peer_fits(crate::lockfile::peer_pairs(*map)) && final(buf)@ == old(buf)@
                + enc_peer_map(crate::lockfile::peer_pairs(*map)),
            Err(e) => e == LockError::TooLarge && !peer_fits(crate::lockfile::peer_pairs(*map)),
        },
{
    let ghost ps = crate::lockfile::peer_pairs(*map);
    let n = map.len();
    match write_len(buf, n) {
        Ok(()) => {},
        Err(e) => {
            return Err(e);
        },
    }
    let ghost base = buf@;
    let mut i: usize = 0;
    proof {
        assert(ps.take(0) =~= Seq::<(Seq<char>, bool)>::empty());
        assert(base + enc_peer_items(ps.take(0)) =~= base);
    }
    while i < n
        invariant
            n == map.spec_len(),
            ps == crate::lockfile::peer_pairs(*map),
            i <= n,
            forall|j: int| 0 <= j < i ==> str_fits((#[trigger] ps[j]).0),
            buf@ == base + enc_peer_items(ps.take(i as int)),
        decreases n - i,
    {
        let k = map.key_at(i);
        proof {
            assert(ps[i as int].0 == map.pairs_view()[i as int].0);
        }
        match write_string(buf, k.as_str()) {
            Ok(()) => {},
            Err(e) => {
                proof {
                    assert(!str_fits(ps[i as int].0));
                    assert(!peer_fits(ps));
                }
                return Err(e);
            },
        }
        let meta = map.val_at(i);
        buf.push(if meta.optional {
            1
        } else {
            0
        });
        proof {
            assert(ps[i as int].1 == meta.optional);
            assert(ps.take(i + 1) =~= ps.take(i as int).push(ps[i as int]));
            lemma_enc_peer_items_snoc(ps.take(i as int), ps[i as int]);
            assert(buf@ =~= base + enc_peer_items(ps.take(i + 1)));
        }
        i = i + 1;
    }
    proof {
        assert(ps.take(n as int) =~= ps);
        assert(old(buf)@ + enc_peer_map(ps) =~= base + enc_peer_items(ps));
    }
    Ok(())
}

pub fn write_string_list(buf: &mut Vec<u8>, list: &Vec<String>) -> (r: Result<(), LockError>)
    ensures
        match r {
            Ok(()) => list_fits(crate::lockfile::vstrs(list@)) && final(buf)@ == old(buf)@
                + enc_str_list(crate::lockfile::vstrs(list@)),
            Err(e) => e == LockError::TooLarge && !list_fits(crate::lockfile::vstrs(list@)),
        },
{
    let ghost items = crate::lockfile::vstrs(list@);
    let n = list.len();
    match write_len(buf, n) {
        Ok(()) => {},
        Err(e) => {
            return Err(e);
        },
    }
    let ghost base = buf@;
    let mut i: usize = 0;
    proof {
        assert(items.take(0) =~= Seq::<Seq<char>>::empty());
        assert(base + enc_list_items(items.take(0)) =~= base);
    }
    while i < n
        invariant
            n == list@.len(),
            items == crate::lockfile::vstrs(list@),
            i <= n,
            forall|j: int| 0 <= j < i ==> str_fits(#[trigger] items[j]),
            buf@ == base + enc_list_items(items.take(i as int)),
        decreases n - i,
    {
        proof {
            assert(items[i as int] == list@[i as int]@);
        }
        match write_string(buf, list[i].as_str()) {
            Ok(()) => {},
            Err(e) => {
                return Err(e);
            },
        }
        proof {
            assert(items.take(i + 1) =~= items.take(i as int).push(items[i as int]));
            lemma_enc_list_items_snoc(items.take(i as int), items[i as int]);
            assert(buf@ =~= base + enc_list_items(items.take(i + 1)));
        }
        i = i + 1;
    }
    proof {
        assert(items.take(n as int) =~= items);
        assert(old(buf)@ + enc_str_list(items) =~= base + enc_list_items(items));
    }
    Ok(())
}

/// The key/value views of a raw string pair vector.
pub open spec fn viewed_str_pairs(v: Seq<(String, String)>) -> Seq<(Seq<char>, Seq<char>)> {
    v.map_values(|p: (String, String)| (p.0@, p.1@))
}

pub fn read_string_map(data: &[u8], pos: &mut usize) -> (r: Result<StrMap<String>, LockError>)
    ensures
        match r {
            Ok(m) => ({
                let (ps, p) = dec_str_map(data@, *old(pos) as int)->0;
                &&& dec_str_map(data@, *old(pos) as int) is Some
                &&& m.wf()
                &&& m.str_map() =~= crate::smap::folded_map(ps)
                &&& (crate::smap::pairs_sorted(ps) ==> m.str_pairs() =~= ps)
                &&& *final(pos) as int == p
                &&& *old(pos) <= *final(pos) <= data@.len()
            }),
            Err(e) => dec_str_map(data@, *old(pos) as int) is None && e == LockError::Unreadable,
        },
{
    let n = match read_u32(data, pos) {
        Ok(v) => v,
        Err(e) => {
            return Err(e);
        },
    };
    let ghost pc = *pos as int;
    let mut v: Vec<(String, String)> = Vec::new();
    let mut i: u32 = 0;
    proof {
        assert(viewed_str_pairs(v@) =~= Seq::<(Seq<char>, Seq<char>)>::empty());
    }
    while i < n
        invariant
            i <= n,
            *old(pos) <= *pos,
            *pos <= data@.len(),
            viewed_str_pairs(v@).len() == i,
            dec_str_map(data@, *old(pos) as int) == (match dec_map_items(
                data@,
                *pos as int,
                (n - i) as nat,
            ) {
                Option::None => Option::None::<(Seq<(Seq<char>, Seq<char>)>, int)>,
                Option::Some((rest, p)) => Option::Some((viewed_str_pairs(v@) + rest, p)),
            }),
        decreases n - i,
    {
        let ghost pos_i = *pos as int;
        let k = match read_string(data, pos) {
            Ok(s) => s,
            Err(_) => {
                return Err(LockError::Unreadable);
            },
        };
        let val = match read_string(data, pos) {
            Ok(s) => s,
            Err(_) => {
                proof {
                    assert(dec_map_items(data@, pos_i, (n - i) as nat) is None);
                }
                return Err(LockError::Unreadable);
            },
        };
        let ghost oldv = v@;
        v.push((k, val));
        i = i + 1;
        proof {
            assert(viewed_str_pairs(v@) =~= viewed_str_pairs(oldv).push((k@, val@)));
            assert forall|rest: Seq<(Seq<char>, Seq<char>)>|
                true implies (viewed_str_pairs(oldv) + (seq![(k@, val@)] + rest)) =~= (
            viewed_str_pairs(v@) + rest) by {}
        }
    }
    proof {
        assert(dec_map_items(data@, *pos as int, 0) == Option::Some(
            (Seq::<(Seq<char>, Seq<char>)>::empty(), *pos as int),
        ));
        assert(viewed_str_pairs(v@) + Seq::<(Seq<char>, Seq<char>)>::empty() =~= viewed_str_pairs(
            v@,
        ));
    }
    let ghost ps = (dec_str_map(data@, *old(pos) as int)->0).0;
    let ghost raw = crate::smap::raw_pairs(v@);
    proof {
        assert(ps == viewed_str_pairs(v@));
    }
    let m = StrMap::from_pairs(v);
    proof {
        let f0 = |s: String| s@;
        assert forall|j: int| 0 <= j < raw.len() implies #[trigger] ps[j] == (
            (#[trigger] raw[j]).0,
            f0(raw[j].1),
        ) by {
            assert(raw[j] == (v@[j].0@, v@[j].1));
            assert(ps[j] == (v@[j].0@, v@[j].1@));
        }
        crate::smap::lemma_folded_map_values(raw, ps, f0);
        assert(m.str_map() =~= crate::smap::folded_map(raw).map_values(f0));
        assert(m.str_map() =~= crate::smap::folded_map(ps));
        if crate::smap::pairs_sorted(ps) {
            assert forall|a: int, b: int| 0 <= a < b < raw.len() implies crate::strutil::seq_char_lt(
                (#[trigger] raw[a]).0,
                (#[trigger] raw[b]).0,
            ) by {
                assert(raw[a].0 == ps[a].0);
                assert(raw[b].0 == ps[b].0);
            }
            assert(crate::smap::pairs_sorted(raw));
            assert(m.pairs_view() =~= raw);
            assert(m.str_pairs() =~= ps);
        }
    }
    Ok(m)
}

/// The key/flag views of a raw peer pair vector.
pub open spec fn viewed_peer_pairs(v: Seq<(String, crate::lockfile::PeerMeta)>) -> Seq<
    (Seq<char>, bool),
> {
    v.map_values(|p: (String, crate::lockfile::PeerMeta)| (p.0@, p.1.optional))
}

pub fn read_peer_meta_map(data: &[u8], pos: &mut usize) -> (r: Result<
    StrMap<crate::lockfile::PeerMeta>,
    LockError,
>)
    ensures
        match r {
            Ok(m) => ({
                let (ps, p) = dec_peer_map(data@, *old(pos) as int)->0;
                &&& dec_peer_map(data@, *old(pos) as int) is Some
                &&& m.wf()
                &&& m.as_map().map_values(
                    |pm: crate::lockfile::PeerMeta| pm.optional,
                ) =~= crate::smap::folded_map(ps)
                &&& (crate::smap::pairs_sorted(ps) ==> crate::lockfile::peer_pairs(m) =~= ps)
                &&& *final(pos) as int == p
                &&& *old(pos) <= *final(pos) <= data@.len()
            }),
            Err(e) => dec_peer_map(data@, *old(pos) as int) is None && e == LockError::Unreadable,
        },
{
    let n = match read_u32(data, pos) {
        Ok(v) => v,
        Err(e) => {
            return Err(e);
        },
    };
    let mut v: Vec<(String, crate::lockfile::PeerMeta)> = Vec::new();
    let mut i: u32 = 0;
    proof {
        assert(viewed_peer_pairs(v@) =~= Seq::<(Seq<char>, bool)>::empty());
    }
    while i < n
        invariant
            i <= n,
            *old(pos) <= *pos,
            *pos <= data@.len(),
            viewed_peer_pairs(v@).len() == i,
            dec_peer_map(data@, *old(pos) as int) == (match dec_peer_items(
                data@,
                *pos as int,
                (n - i) as nat,
            ) {
                Option::None => Option::None::<(Seq<(Seq<char>, bool)>, int)>,
                Option::Some((rest, p)) => Option::Some((viewed_peer_pairs(v@) + rest, p)),
            }),
        decreases n - i,
    {
        let ghost pos_i = *pos as int;
        let k = match read_string(data, pos) {
            Ok(s) => s,
            Err(_) => {
                return Err(LockError::Unreadable);
            },
        };
        if *pos >= data.len() {
            proof {
                assert(dec_peer_items(data@, pos_i, (n - i) as nat) is None);
            }
            return Err(LockError::Unreadable);
        }
        let flag = data[*pos];
        if flag != 0 && flag != 1 {
            proof {
                assert(dec_peer_items(data@, pos_i, (n - i) as nat) is None);
            }
            return Err(LockError::Unreadable);
        }
        *pos = *pos + 1;
        let ghost oldv = v@;
        v.push((k, crate::lockfile::PeerMeta { optional: flag == 1 }));
        i = i + 1;
        proof {
            assert(viewed_peer_pairs(v@) =~= viewed_peer_pairs(oldv).push((k@, flag == 1u8)));
            assert forall|rest: Seq<(Seq<char>, bool)>|
                true implies (viewed_peer_pairs(oldv) + (seq![(k@, flag == 1u8)] + rest)) =~= (
            viewed_peer_pairs(v@) + rest) by {}
        }
    }
    proof {
        assert(dec_peer_items(data@, *pos as int, 0) == Option::Some(
            (Seq::<(Seq<char>, bool)>::empty(), *pos as int),
        ));
        assert(viewed_peer_pairs(v@) + Seq::<(Seq<char>, bool)>::empty() =~= viewed_peer_pairs(v@));
    }
    let ghost ps = (dec_peer_map(data@, *old(pos) as int)->0).0;
    let ghost raw = crate::smap::raw_pairs(v@);
    proof {
        assert(ps == viewed_peer_pairs(v@));
    }
    let m = StrMap::from_pairs(v);
    proof {
        let f0 = |pm: crate::lockfile::PeerMeta| pm.optional;
        assert forall|j: int| 0 <= j < raw.len() implies #[trigger] ps[j] == (
            (#[trigger] raw[j]).0,
            f0(raw[j].1),
        ) by {
            assert(raw[j] == (v@[j].0@, v@[j].1));
            assert(ps[j] == (v@[j].0@, v@[j].1.optional));
        }
        crate::smap::lemma_folded_map_values(raw, ps, f0);
        assert(m.as_map().map_values(f0) =~= crate::smap::folded_map(raw).map_values(f0));
        assert(m.as_map().map_values(f0) =~= crate::smap::folded_map(ps));
        if crate::smap::pairs_sorted(ps) {
            assert forall|a: int, b: int| 0 <= a < b < raw.len() implies crate::strutil::seq_char_lt(
                (#[trigger] raw[a]).0,
                (#[trigger] raw[b]).0,
            ) by {
                assert(raw[a].0 == ps[a].0);
                assert(raw[b].0 == ps[b].0);
            }
            assert(crate::smap::pairs_sorted(raw));
            assert(m.pairs_view() =~= raw);
            assert(crate::lockfile::peer_pairs(m) =~= ps);
        }
    }
    Ok(m)
}

pub fn read_string_list(data: &[u8], pos: &mut usize) -> (r: Result<Vec<String>, LockError>)
    ensures
        match r {
            Ok(v) => ({
                let (items, p) = dec_str_list(data@, *old(pos) as int)->0;
                &&& dec_str_list(data@, *old(pos) as int) is Some
                &&& crate::lockfile::vstrs(v@) =~= items
                &&& *final(pos) as int == p
                &&& *old(pos) <= *final(pos) <= data@.len()
            }),
            Err(e) => dec_str_list(data@, *old(pos) as int) is None && e == LockError::Unreadable,
        },
{
    let n = match read_u32(data, pos) {
        Ok(v) => v,
        Err(e) => {
            return Err(e);
        },
    };
    let mut v: Vec<String> = Vec::new();
    let mut i: u32 = 0;
    proof {
        assert(crate::lockfile::vstrs(v@) =~= Seq::<Seq<char>>::empty());
    }
    while i < n
        invariant
            i <= n,
            *old(pos) <= *pos,
            *pos <= data@.len(),
            crate::lockfile::vstrs(v@).len() == i,
            dec_str_list(data@, *old(pos) as int) == (match dec_list_items(
                data@,
                *pos as int,
                (n - i) as nat,
            ) {
                Option::None => Option::None::<(Seq<Seq<char>>, int)>,
                Option::Some((rest, p)) => Option::Some((crate::lockfile::vstrs(v@) + rest, p)),
            }),
        decreases n - i,
    {
        let ghost pos_i = *pos as int;
        let s = match read_string(data, pos) {
            Ok(s) => s,
            Err(_) => {
                return Err(LockError::Unreadable);
            },
        };
        let ghost oldv = v@;
        v.push(s);
        i = i + 1;
        proof {
            assert(crate::lockfile::vstrs(v@) =~= crate::lockfile::vstrs(oldv).push(s@));
            assert forall|rest: Seq<Seq<char>>|
                true implies (crate::lockfile::vstrs(oldv) + (seq![s@] + rest)) =~= (
            crate::lockfile::vstrs(v@) + rest) by {}
        }
    }
    proof {
        assert(dec_list_items(data@, *pos as int, 0) == Option::Some(
            (Seq::<Seq<char>>::empty(), *pos as int),
        ));
        assert(crate::lockfile::vstrs(v@) + Seq::<Seq<char>>::empty() =~= crate::lockfile::vstrs(
            v@,
        ));
    }
    Ok(v)
}

} // verus!
