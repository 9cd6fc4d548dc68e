//! The hand-rolled legacy lockfile encoding: varint-prefixed strings and
//! maps, nine fields per entry, no platform lists and no store quad. Only a
//! decoder exists; the current framing replaced this shape on write.

use vstd::prelude::*;

verus! {

use crate::codec::LockError;
use crate::codec_file::{entry_abstracts, entry_pairs, all_entries_canonical};
use crate::lockfile::{EntryView, Lockfile, PackageEntry};
use crate::smap::{folded_map, pairs_contain, pairs_sorted, raw_pairs, StrMap};
use crate::strutil::bytes_to_string;
use vstd::utf8::{decode_utf8, valid_utf8};
use vstd::slice::{slice_subrange, slice_to_vec};

/// Decode a little-endian base-128 varint whose bits from `shift` up are
/// still to come; a continuation that would pass 64 bits fails.
pub open spec fn dec_varint_at(d: Seq<u8>, pos: int, shift: nat) -> Option<(u64, int)>
    decreases 64 - shift,
{
    if !(0 <= pos && pos < d.len()) {
        Option::None
    } else {
        let b = d[pos];
        if b & 0x80 == 0 {
            Option::Some(((((b & 0x7f) as u64) << shift) as u64, pos + 1))
        } else if shift + 7 >= 64 {
            Option::None
        } else {
            match dec_varint_at(d, pos + 1, shift + 7) {
                Option::None => Option::None,
                Option::Some((v, p)) => Option::Some(
                    ((v | ((((b & 0x7f) as u64) << shift) as u64)) as u64, p),
                ),
            }
        }
    }
}

pub open spec fn dec_varint(d: Seq<u8>, pos: int) -> Option<(u64, int)> {
    dec_varint_at(d, pos, 0)
}

pub open spec fn dec_lv_str(d: Seq<u8>, pos: int) -> Option<(Seq<char>, int)> {
    match dec_varint(d, pos) {
        Option::None => Option::None,
        Option::Some((n, p)) => if p + n <= d.len() && valid_utf8(d.subrange(p, p + n)) {
            Option::Some((decode_utf8(d.subrange(p, p + n)), p + n))
        } else {
            Option::None
        },
    }
}

pub open spec fn dec_lv_opt(d: Seq<u8>, pos: int) -> Option<(Option<Seq<char>>, int)> {
    if 0 <= pos && pos + 1 <= d.len() {
        if d[pos] == 0u8 {
            Option::Some((Option::None, pos + 1))
        } else if d[pos] == 1u8 {
            match dec_lv_str(d, pos + 1) {
                Option::None => Option::None,
                Option::Some((s, p)) => Option::Some((Option::Some(s), p)),
            }
        } else {
            Option::None
        }
    } else {
        Option::None
    }
}

pub open spec fn dec_lv_map_items(d: Seq<u8>, pos: int, n: nat) -> Option<
    (Seq<(Seq<char>, Seq<char>)>, int),
>
    decreases n,
{
    if n == 0 {
        Option::Some((Seq::empty(), pos))
    } else {
        match dec_lv_str(d, pos) {
            Option::None => Option::None,
            Option::Some((k, p1)) => match dec_lv_str(d, p1) {
                Option::None => Option::None,
                Option::Some((v, p2)) => match dec_lv_map_items(d, p2, (n - 1) as nat) {
                    Option::None => Option::None,
                    Option::Some((rest, p3)) => Option::Some((seq![(k, v)] + rest, p3)),
                },
            },
        }
    }
}

pub open spec fn dec_lv_map(d: Seq<u8>, pos: int) -> Option<(Seq<(Seq<char>, Seq<char>)>, int)> {
    match dec_varint(d, pos) {
        Option::None => Option::None,
        Option::Some((n, p)) => dec_lv_map_items(d, p, n as nat),
    }
}

pub open spec fn dec_lv_peer_items(d: Seq<u8>, pos: int, n: nat) -> Option<
    (Seq<(Seq<char>, bool)>, int),
>
    decreases n,
{
    if n == 0 {
        Option::Some((Seq::empty(), pos))
    } else {
        match dec_lv_str(d, pos) {
            Option::None => Option::None,
            Option::Some((k, p1)) => if p1 + 1 <= d.len() && (d[p1] == 0u8 || d[p1] == 1u8) {
                match dec_lv_peer_items(d, p1 + 1, (n - 1) as nat) {
                    Option::None => Option::None,
                    Option::Some((rest, p2)) => Option::Some((seq![(k, d[p1] == 1u8)] + rest, p2)),
                }
            } else {
                Option::None
            },
        }
    }
}

pub open spec fn dec_lv_peer(d: Seq<u8>, pos: int) -> Option<(Seq<(Seq<char>, bool)>, int)> {
    match dec_varint(d, pos) {
        Option::None => Option::None,
        Option::Some((n, p)) => dec_lv_peer_items(d, p, n as nat),
    }
}

/// One legacy entry: key, three option strings, four maps, the peer map; the
/// platform lists and the store quad did not exist yet.
pub open spec fn dec_lv_entry(d: Seq<u8>, pos: int) -> Option<((Seq<char>, EntryView), int)> {
    match dec_lv_str(d, pos) {
        Option::None => Option::None,
        Option::Some((key, p1)) => match dec_lv_opt(d, p1) {
            Option::None => Option::None,
            Option::Some((version, p2)) => match dec_lv_opt(d, p2) {
                Option::None => Option::None,
                Option::Some((integrity, p3)) => match dec_lv_opt(d, p3) {
                    Option::None => Option::None,
                    Option::Some((resolved, p4)) => match dec_lv_map(d, p4) {
                        Option::None => Option::None,
                        Option::Some((deps, p5)) => match dec_lv_map(d, p5) {
                            Option::None => Option::None,
                            Option::Some((dev, p6)) => match dec_lv_map(d, p6) {
                                Option::None => Option::None,
                                Option::Some((optd, p7)) => match dec_lv_map(d, p7) {
                                    Option::None => Option::None,
                                    Option::Some((peer, p8)) => match dec_lv_peer(d, p8) {
                                        Option::None => Option::None,
                                        Option::Some((meta, p9)) => Option::Some(
                                            ((
                                                key,
                                                EntryView {
                                                    version,
                                                    integrity,
                                                    resolved,
                                                    dependencies: deps,
                                                    dev_dependencies: dev,
                                                    optional_dependencies: optd,
                                                    peer_dependencies: peer,
                                                    peer_dependencies_meta: meta,
                                                    os: Seq::empty(),
                                                    cpu_arch: Seq::empty(),
                                                    store_key: Option::None,
                                                    content_hash: Option::None,
                                                    link_mode: Option::None,
                                                    store_path: Option::None,
                                                },
                                            ), p9),
                                        ),
                                    },
                                },
                            },
                        },
                    },
                },
            },
        },
    }
}

pub open spec fn dec_lv_entries(d: Seq<u8>, pos: int, n: nat) -> Option<
    (Seq<(Seq<char>, EntryView)>, int),
>
    decreases n,
{
    if n == 0 {
        Option::Some((Seq::empty(), pos))
    } else {
        match dec_lv_entry(d, pos) {
            Option::None => Option::None,
            Option::Some((kv, p1)) => match dec_lv_entries(d, p1, (n - 1) as nat) {
                Option::None => Option::None,
                Option::Some((rest, p2)) => Option::Some((seq![kv] + rest, p2)),
            },
        }
    }
}

/// The whole legacy file: a varint format (read modulo 2^32 as the field is
/// 32 bits wide), a varint entry count, then the entries; trailing bytes are
/// ignored, as the legacy reader ignored them.
pub open spec fn dec_manual(d: Seq<u8>) -> Option<(u32, Seq<(Seq<char>, EntryView)>)> {
    match dec_varint(d, 0) {
        Option::None => Option::None,
        Option::Some((format, p1)) => match dec_varint(d, p1) {
            Option::None => Option::None,
            Option::Some((count, p2)) => match dec_lv_entries(d, p2, count as nat) {
                Option::None => Option::None,
                Option::Some((pp, _)) => Option::Some((format as u32, pp)),
            },
        },
    }
}

/// Read one varint.
fn read_varint(data: &[u8], pos: &mut usize) -> (r: Result<u64, LockError>)
    ensures
        match r {
            Ok(v) => dec_varint(data@, *old(pos) as int) == Option::Some((v, *final(pos) as int))
                && *old(pos) <= *final(pos) <= data@.len(),
            Err(e) => dec_varint(data@, *old(pos) as int) is None && e == LockError::Unreadable,
        },
{
    let ghost p0 = *pos as int;
    let mut acc: u64 = 0;
    let mut shift: u32 = 0;
    proof {
        assert(forall|v: u64| #![trigger (0u64 | v)] (0u64 | v) == v) by (bit_vector);
    }
    loop
        invariant
            shift <= 63,
            *old(pos) <= *pos,
            p0 == *old(pos) as int,
            dec_varint(data@, p0) == (match dec_varint_at(data@, *pos as int, shift as nat) {
                Option::None => Option::None::<(u64, int)>,
                Option::Some((v, p)) => Option::Some(((acc | v) as u64, p)),
            }),
        decreases 64 - shift,
    {
        if *pos >= data.len() {
            proof {
                assert(dec_varint_at(data@, *pos as int, shift as nat) is None);
            }
            return Err(LockError::Unreadable);
        }
        let b = data[*pos];
        let low = (b & 0x7f) as u64;
        let piece = low << shift;
        proof {
            let b0 = data@[*pos as int];
            assert(piece == ((((b0 & 0x7f) as u64) << (shift as nat)) as u64));
        }
        if b & 0x80 == 0 {
            proof {
                assert(dec_varint_at(data@, *pos as int, shift as nat) == Option::Some(
                    ((((data@[*pos as int] & 0x7f) as u64) << (shift as nat)) as u64,
                    *pos + 1),
                ));
            }
            let out = acc | piece;
            *pos = *pos + 1;
            return Ok(out);
        }
        if shift + 7 >= 64 {
            proof {
                assert(dec_varint_at(data@, *pos as int, shift as nat) is None);
            }
            return Err(LockError::Unreadable);
        }
        proof {
            let b0 = data@[*pos as int];
            let sh = shift as nat;
            match dec_varint_at(data@, *pos + 1, (shift + 7) as nat) {
                Option::None => {
                    assert(dec_varint_at(data@, *pos as int, sh) is None);
                },
                Option::Some((v, p)) => {
                    assert(dec_varint_at(data@, *pos as int, sh) == Option::Some(
                        ((v | ((((b0 & 0x7f) as u64) << sh) as u64)) as u64, p),
                    ));
                    let pc = (((b0 & 0x7f) as u64) << sh) as u64;
                    assert((acc | ((v | pc) as u64)) == (((acc | pc) as u64) | v)) by (bit_vector);
                },
            }
        }
        acc = acc | piece;
        *pos = *pos + 1;
        shift = shift + 7;
    }
}

/// Read one varint-prefixed string.
fn read_lv_string(data: &[u8], pos: &mut usize) -> (r: Result<String, LockError>)
    ensures
        match r {
            Ok(v) => dec_lv_str(data@, *old(pos) as int) == Option::Some((v@, *final(pos) as int))
                && *old(pos) <= *final(pos) <= data@.len(),
            Err(e) => dec_lv_str(data@, *old(pos) as int) is None && e == LockError::Unreadable,
        },
{
    let dl = data.len();
    let n64 = match read_varint(data, pos) {
        Ok(v) => v,
        Err(e) => {
            return Err(e);
        },
    };
    if n64 > usize::MAX as u64 {
        proof {
            assert(dl as int <= usize::MAX);
        }
        return Err(LockError::Unreadable);
    }
    let n = n64 as usize;
    if n > dl || *pos > dl - n {
        return Err(LockError::Unreadable);
    }
    let s = slice_subrange(data, *pos, *pos + n);
    let bytes = slice_to_vec(s);
    match bytes_to_string(bytes) {
        Some(st) => {
            *pos = *pos + n;
            Ok(st)
        },
        None => Err(LockError::Unreadable),
    }
}

/// Read one option string.
fn read_lv_opt(data: &[u8], pos: &mut usize) -> (r: Result<Option<String>, LockError>)
    ensures
        match r {
            Ok(v) => dec_lv_opt(data@, *old(pos) as int) == Option::Some(
                (crate::lockfile::ostr(v), *final(pos) as int),
            ) && *old(pos) <= *final(pos) <= data@.len(),
            Err(e) => dec_lv_opt(data@, *old(pos) as int) is None && e == LockError::Unreadable,
        },
{
    if *pos >= data.len() {
        return Err(LockError::Unreadable);
    }
    let tag = data[*pos];
    if tag == 0 {
        *pos = *pos + 1;
        return Ok(None);
    }
    if tag != 1 {
        return Err(LockError::Unreadable);
    }
    *pos = *pos + 1;
    match read_lv_string(data, pos) {
        Ok(s) => Ok(Some(s)),
        Err(_) => {
            return Err(LockError::Unreadable);
        },
    }
}

/// Read one varint-prefixed string map.
fn read_lv_map(data: &[u8], pos: &mut usize) -> (r: Result<StrMap<String>, LockError>)
    ensures
        match r {
            Ok(m) => ({
                let (ps, p) = dec_lv_map(data@, *old(pos) as int)->0;
                &&& dec_lv_map(data@, *old(pos) as int) is Some
                &&& m.wf()
                &&& m.str_map() =~= folded_map(ps)
                &&& (pairs_sorted(ps) ==> m.str_pairs() =~= ps)
                &&& *final(pos) as int == p
                &&& *old(pos) <= *final(pos) <= data@.len()
            }),
            Err(e) => dec_lv_map(data@, *old(pos) as int) is None && e == LockError::Unreadable,
        },
{
    let n64 = match read_varint(data, pos) {
        Ok(v) => v,
        Err(e) => {
            return Err(e);
        },
    };
    let mut v: Vec<(String, String)> = Vec::new();
    let mut i: u64 = 0;
    proof {
        assert(crate::codec::viewed_str_pairs(v@) =~= Seq::<(Seq<char>, Seq<char>)>::empty());
    }
    while i < n64
        invariant
            i <= n64,
            *old(pos) <= *pos,
            *pos <= data@.len(),
            crate::codec::viewed_str_pairs(v@).len() == i,
            dec_lv_map(data@, *old(pos) as int) == (match dec_lv_map_items(
                data@,
                *pos as int,
                (n64 - i) as nat,
            ) {
                Option::None => Option::None::<(Seq<(Seq<char>, Seq<char>)>, int)>,
                Option::Some((rest, p)) => Option::Some(
                    (crate::codec::viewed_str_pairs(v@) + rest, p),
                ),
            }),
        decreases n64 - i,
    {
        let ghost pos_i = *pos as int;
        let k = match read_lv_string(data, pos) {
            Ok(s) => s,
            Err(_) => {
                return Err(LockError::Unreadable);
            },
        };
        let val = match read_lv_string(data, pos) {
            Ok(s) => s,
            Err(_) => {
                proof {
                    assert(dec_lv_map_items(data@, pos_i, (n64 - i) as nat) is None);
                }
                return Err(LockError::Unreadable);
            },
        };
        let ghost oldv = v@;
        v.push((k, val));
        i = i + 1;
        proof {
            assert(crate::codec::viewed_str_pairs(v@) =~= crate::codec::viewed_str_pairs(
                oldv,
            ).push((k@, val@)));
            assert forall|rest: Seq<(Seq<char>, Seq<char>)>|
                true implies (crate::codec::viewed_str_pairs(oldv) + (seq![(k@, val@)] + rest))
                =~= (crate::codec::viewed_str_pairs(v@) + rest) by {}
        }
    }
    proof {
        assert(dec_lv_map_items(data@, *pos as int, 0) == Option::Some(
            (Seq::<(Seq<char>, Seq<char>)>::empty(), *pos as int),
        ));
        assert(crate::codec::viewed_str_pairs(v@) + Seq::<(Seq<char>, Seq<char>)>::empty()
            =~= crate::codec::viewed_str_pairs(v@));
    }
    let ghost ps = (dec_lv_map(data@, *old(pos) as int)->0).0;
    let ghost raw = raw_pairs(v@);
    proof {
        assert(ps == crate::codec::viewed_str_pairs(v@));
    }
    let m = StrMap::from_pairs(v);
    proof {
        let f0 = |s: String| s@;
        assert forall|j: int| 0 <= j < raw.len() implies #[trigger] ps[j] == (
            (#[trigger] raw[j]).0,
            f0(raw[j].1),
        ) by {
            assert(raw[j] == (v@[j].0@, v@[j].1));
            assert(ps[j] == (v@[j].0@, v@[j].1@));
        }
        crate::smap::lemma_folded_map_values(raw, ps, f0);
        assert(m.str_map() =~= folded_map(raw).map_values(f0));
        assert(m.str_map() =~= folded_map(ps));
        if pairs_sorted(ps) {
            assert forall|a: int, b: int| 0 <= a < b < raw.len() implies crate::strutil::seq_char_lt(
                (#[trigger] raw[a]).0,
                (#[trigger] raw[b]).0,
            ) by {
                assert(raw[a].0 == ps[a].0);
                assert(raw[b].0 == ps[b].0);
            }
            assert(pairs_sorted(raw));
            assert(m.pairs_view() =~= raw);
            assert(m.str_pairs() =~= ps);
        }
    }
    Ok(m)
}

/// Read one peer-meta map.
fn read_lv_peer(data: &[u8], pos: &mut usize) -> (r: Result<
    StrMap<crate::lockfile::PeerMeta>,
    LockError,
>)
    ensures
        match r {
            Ok(m) => ({
                let (ps, p) = dec_lv_peer(data@, *old(pos) as int)->0;
                &&& dec_lv_peer(data@, *old(pos) as int) is Some
                &&& m.wf()
                &&& m.as_map().map_values(
                    |pm: crate::lockfile::PeerMeta| pm.optional,
                ) =~= folded_map(ps)
                &&& (pairs_sorted(ps) ==> crate::lockfile::peer_pairs(m) =~= ps)
                &&& *final(pos) as int == p
                &&& *old(pos) <= *final(pos) <= data@.len()
            }),
            Err(e) => dec_lv_peer(data@, *old(pos) as int) is None && e == LockError::Unreadable,
        },
{
    let n64 = match read_varint(data, pos) {
        Ok(v) => v,
        Err(e) => {
            return Err(e);
        },
    };
    let mut v: Vec<(String, crate::lockfile::PeerMeta)> = Vec::new();
    let mut i: u64 = 0;
    proof {
        assert(crate::codec::viewed_peer_pairs(v@) =~= Seq::<(Seq<char>, bool)>::empty());
    }
    while i < n64
        invariant
            i <= n64,
            *old(pos) <= *pos,
            *pos <= data@.len(),
            crate::codec::viewed_peer_pairs(v@).len() == i,
            dec_lv_peer(data@, *old(pos) as int) == (match dec_lv_peer_items(
                data@,
                *pos as int,
                (n64 - i) as nat,
            ) {
                Option::None => Option::None::<(Seq<(Seq<char>, bool)>, int)>,
                Option::Some((rest, p)) => Option::Some(
                    (crate::codec::viewed_peer_pairs(v@) + rest, p),
                ),
            }),
        decreases n64 - i,
    {
        let ghost pos_i = *pos as int;
        let k = match read_lv_string(data, pos) {
            Ok(s) => s,
            Err(_) => {
                return Err(LockError::Unreadable);
            },
        };
        if *pos >= data.len() {
            proof {
                assert(dec_lv_peer_items(data@, pos_i, (n64 - i) as nat) is None);
            }
            return Err(LockError::Unreadable);
        }
        let flag = data[*pos];
        if flag != 0 && flag != 1 {
            proof {
                assert(dec_lv_peer_items(data@, pos_i, (n64 - i) as nat) is None);
            }
            return Err(LockError::Unreadable);
        }
        *pos = *pos + 1;
        let ghost oldv = v@;
        v.push((k, crate::lockfile::PeerMeta { optional: flag == 1 }));
        i = i + 1;
        proof {
            assert(crate::codec::viewed_peer_pairs(v@) =~= crate::codec::viewed_peer_pairs(
                oldv,
            ).push((k@, flag == 1u8)));
            assert forall|rest: Seq<(Seq<char>, bool)>|
                true implies (crate::codec::viewed_peer_pairs(oldv) + (seq![(k@, flag == 1u8)]
                + rest)) =~= (crate::codec::viewed_peer_pairs(v@) + rest) by {}
        }
    }
    proof {
        assert(dec_lv_peer_items(data@, *pos as int, 0) == Option::Some(
            (Seq::<(Seq<char>, bool)>::empty(), *pos as int),
        ));
        assert(crate::codec::viewed_peer_pairs(v@) + Seq::<(Seq<char>, bool)>::empty()
            =~= crate::codec::viewed_peer_pairs(v@));
    }
    let ghost ps = (dec_lv_peer(data@, *old(pos) as int)->0).0;
    let ghost raw = raw_pairs(v@);
    proof {
        assert(ps == crate::codec::viewed_peer_pairs(v@));
    }
    let m = StrMap::from_pairs(v);
    proof {
        let f0 = |pm: crate::lockfile::PeerMeta| pm.optional;
        assert forall|j: int| 0 <= j < raw.len() implies #[trigger] ps[j] == (
            (#[trigger] raw[j]).0,
            f0(raw[j].1),
        ) by {
            assert(raw[j] == (v@[j].0@, v@[j].1));
            assert(ps[j] == (v@[j].0@, v@[j].1.optional));
        }
        crate::smap::lemma_folded_map_values(raw, ps, f0);
        assert(m.as_map().map_values(f0) =~= folded_map(raw).map_values(f0));
        assert(m.as_map().map_values(f0) =~= folded_map(ps));
        if pairs_sorted(ps) {
            assert forall|a: int, b: int| 0 <= a < b < raw.len() implies crate::strutil::seq_char_lt(
                (#[trigger] raw[a]).0,
                (#[trigger] raw[b]).0,
            ) by {
                assert(raw[a].0 == ps[a].0);
                assert(raw[b].0 == ps[b].0);
            }
            assert(pairs_sorted(raw));
            assert(m.pairs_view() =~= raw);
            assert(crate::lockfile::peer_pairs(m) =~= ps);
        }
    }
    Ok(m)
}

/// Read one legacy entry.
#[verifier::rlimit(100)]
#[verifier::spinoff_prover]
fn read_lv_entry(data: &[u8], pos: &mut usize) -> (r: Result<(String, PackageEntry), LockError>)
    ensures
        match r {
            Ok(kv) => ({
                let ((dk, dv), p) = dec_lv_entry(data@, *old(pos) as int)->0;
                &&& dec_lv_entry(data@, *old(pos) as int) is Some
                &&& kv.0@ == dk
                &&& kv.1.wf()
                &&& entry_abstracts(kv.1, dv)
                &&& *final(pos) as int == p
                &&& *old(pos) <= *final(pos) <= data@.len()
            }),
            Err(e) => dec_lv_entry(data@, *old(pos) as int) is None && e == LockError::Unreadable,
        },
{
    let key = match read_lv_string(data, pos) {
        Ok(s) => s,
        Err(_) => {
            return Err(LockError::Unreadable);
        },
    };
    let version = match read_lv_opt(data, pos) {
        Ok(v) => v,
        Err(_) => {
            return Err(LockError::Unreadable);
        },
    };
    let integrity = match read_lv_opt(data, pos) {
        Ok(v) => v,
        Err(_) => {
            return Err(LockError::Unreadable);
        },
    };
    let resolved = match read_lv_opt(data, pos) {
        Ok(v) => v,
        Err(_) => {
            return Err(LockError::Unreadable);
        },
    };
    let dependencies = match read_lv_map(data, pos) {
        Ok(v) => v,
        Err(_) => {
            return Err(LockError::Unreadable);
        },
    };
    let dev_dependencies = match read_lv_map(data, pos) {
        Ok(v) => v,
        Err(_) => {
            return Err(LockError::Unreadable);
        },
    };
    let optional_dependencies = match read_lv_map(data, pos) {
        Ok(v) => v,
        Err(_) => {
            return Err(LockError::Unreadable);
        },
    };
    let peer_dependencies = match read_lv_map(data, pos) {
        Ok(v) => v,
        Err(_) => {
            return Err(LockError::Unreadable);
        },
    };
    let peer_dependencies_meta = match read_lv_peer(data, pos) {
        Ok(v) => v,
        Err(_) => {
            return Err(LockError::Unreadable);
        },
    };
    let entry = PackageEntry {
        version,
        integrity,
        resolved,
        dependencies,
        dev_dependencies,
        optional_dependencies,
        peer_dependencies,
        peer_dependencies_meta,
        os: Vec::new(),
        cpu_arch: Vec::new(),
        store_key: None,
        content_hash: None,
        link_mode: None,
        store_path: None,
    };
    proof {
        let dv = (dec_lv_entry(data@, *old(pos) as int)->0).0.1;
        let f1 = |pm: crate::lockfile::PeerMeta| pm.optional;
        assert(entry.peer_dependencies_meta.as_map().map_values(f1) =~= folded_map(
            dv.peer_dependencies_meta,
        ));
        assert(crate::lockfile::vstrs(entry.os@) =~= Seq::<Seq<char>>::empty());
        assert(crate::lockfile::vstrs(entry.cpu_arch@) =~= Seq::<Seq<char>>::empty());
        assert(entry_abstracts(entry, dv));
    }
    Ok((key, entry))
}

/// Decode the legacy varint lockfile shape.
#[verifier::rlimit(100)]
#[verifier::spinoff_prover]
pub fn decode_manual_legacy(data: &[u8]) -> (r: Result<Lockfile, LockError>)
    ensures
        match r {
            Ok(lf) => ({
                let (fmt, pp) = dec_manual(data@)->0;
                &&& dec_manual(data@) is Some
                &&& lf.wf()
                &&& lf.format == fmt
                &&& forall|k: Seq<char>|
                    #[trigger] lf.packages.as_map().contains_key(k) <==> pairs_contain(pp, k)
                &&& forall|k: Seq<char>| #[trigger]
                    lf.packages.as_map().contains_key(k) ==> entry_abstracts(
                        lf.packages.as_map()[k],
                        folded_map(pp)[k],
                    )
                &&& (pairs_sorted(pp) && all_entries_canonical(pp) ==> lf.packages_pairs() =~= pp)
            }),
            Err(e) => dec_manual(data@) is None && e == LockError::Unreadable,
        },
{
    let mut pos: usize = 0;
    let format64 = match read_varint(data, &mut pos) {
        Ok(v) => v,
        Err(e) => {
            return Err(e);
        },
    };
    let format = format64 as u32;
    let count = match read_varint(data, &mut pos) {
        Ok(v) => v,
        Err(e) => {
            return Err(e);
        },
    };
    let mut v: Vec<(String, PackageEntry)> = Vec::new();
    let ghost mut dpp: Seq<(Seq<char>, EntryView)> = Seq::empty();
    let mut i: u64 = 0;
    proof {
        assert(dpp + Seq::<(Seq<char>, EntryView)>::empty() =~= dpp);
    }
    while i < count
        invariant
            i <= count,
            pos <= data@.len(),
            v@.len() == i,
            dpp.len() == i,
            forall|j: int|
                0 <= j < i ==> (#[trigger] v@[j]).0@ == dpp[j].0 && v@[j].1.wf()
                    && entry_abstracts(v@[j].1, dpp[j].1),
            (match dec_manual(data@) {
                Option::None => false,
                Option::Some((fmt, pp)) => fmt == format && (match dec_lv_entries(
                    data@,
                    pos as int,
                    (count - i) as nat,
                ) {
                    Option::None => false,
                    Option::Some((rest, _)) => pp == dpp + rest,
                }),
            }) || (dec_manual(data@) is None && dec_lv_entries(
                data@,
                pos as int,
                (count - i) as nat,
            ) is None),
        decreases count - i,
    {
        let ghost pos_i = pos as int;
        let (key, entry) = match read_lv_entry(data, &mut pos) {
            Ok(kv) => kv,
            Err(_) => {
                proof {
                    assert(dec_lv_entries(data@, pos_i, (count - i) as nat) is None);
                }
                return Err(LockError::Unreadable);
            },
        };
        let ghost dv = (dec_lv_entry(data@, pos_i)->0).0;
        proof {
            dpp = dpp.push(dv);
        }
        v.push((key, entry));
        i = i + 1;
        proof {
            assert forall|rest: Seq<(Seq<char>, EntryView)>|
                true implies ((dpp.drop_last()) + (seq![dv] + rest)) =~= (dpp + rest) by {
                assert(dpp.drop_last() =~= dpp.drop_last());
            }
            assert(dpp.drop_last().push(dv) =~= dpp);
        }
    }
    proof {
        assert(dec_lv_entries(data@, pos as int, 0) == Option::Some(
            (Seq::<(Seq<char>, EntryView)>::empty(), pos as int),
        ));
        assert(dpp + Seq::<(Seq<char>, EntryView)>::empty() =~= dpp);
        assert(dec_manual(data@) is Some);
    }
    let ghost pp = (dec_manual(data@)->0).1;
    let ghost raw = raw_pairs(v@);
    proof {
        assert(pp == dpp);
    }
    let packages = StrMap::from_pairs(v);
    proof {
        let rel = |e: PackageEntry, dv: EntryView| e.wf() && entry_abstracts(e, dv);
        assert forall|j: int| 0 <= j < raw.len() implies (#[trigger] pp[j]).0 == (
        #[trigger] raw[j]).0 && rel(raw[j].1, pp[j].1) by {
            assert(raw[j] == (v@[j].0@, v@[j].1));
        }
        crate::smap::lemma_folded_map_rel(raw, pp, rel);
        crate::smap::lemma_folded_dom(raw);
        crate::smap::lemma_folded_dom(pp);
        assert(packages.as_map() =~= folded_map(raw));
        assert(packages.as_map() == folded_map(raw));
        assert forall|k: Seq<char>| #[trigger] packages.as_map().contains_key(k) implies packages
            .as_map()[k].wf() && entry_abstracts(packages.as_map()[k], folded_map(pp)[k]) by {
            assert(folded_map(raw).contains_key(k));
            assert(rel(folded_map(raw)[k], folded_map(pp)[k]));
        }
        assert forall|k: Seq<char>|
            #[trigger] packages.as_map().contains_key(k) <==> pairs_contain(pp, k) by {
            assert(packages.as_map().contains_key(k) <==> folded_map(raw).contains_key(k));
            assert(folded_map(raw).contains_key(k) <==> folded_map(pp).contains_key(k));
            assert(folded_map(pp).contains_key(k) <==> pairs_contain(pp, k));
        }
        if pairs_sorted(pp) && all_entries_canonical(pp) {
            assert forall|a: int, b: int| 0 <= a < b < raw.len() implies crate::strutil::seq_char_lt(
                (#[trigger] raw[a]).0,
                (#[trigger] raw[b]).0,
            ) by {
                assert(raw[a].0 == pp[a].0);
                assert(raw[b].0 == pp[b].0);
            }
            assert(pairs_sorted(raw));
            assert(packages.pairs_view() =~= raw);
            assert forall|j: int| 0 <= j < pp.len() implies #[trigger] entry_pairs(packages)[j]
                == pp[j] by {
                assert(packages.pairs_view()[j] == raw[j]);
                assert(v@[j].1.view() =~~= pp[j].1) by {
                    crate::codec_file::lemma_abstracts_canonical(v@[j].1, pp[j].1);
                }
            }
            assert(entry_pairs(packages) =~= pp);
        }
    }
    let lf = Lockfile { format, packages };
    proof {
        assert forall|k: Seq<char>| #[trigger] lf.packages.as_map().contains_key(k) implies lf
            .packages.as_map()[k].wf() by {}
        if pairs_sorted(pp) && all_entries_canonical(pp) {
            assert(lf.packages_pairs() =~= entry_pairs(lf.packages));
        }
    }
    Ok(lf)
}

} // verus!
