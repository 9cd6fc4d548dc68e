//! The file level of the lockfile codec: whole entries, the packages
//! section, and the framed file, built on the field-level codec.

use vstd::prelude::*;

verus! {

use crate::codec::{
    LockError, MAX_LOCKFILE_SIZE, CURRENT_WIRE_VERSION, spec_magic, magic_bytes, enc_u16, enc_u32,
    str_fits, enc_str, opt_fits, enc_opt_str, dec_u16, dec_u32, dec_str, dec_opt_str, map_fits,
    enc_map_items, enc_str_map, dec_map_items, dec_str_map, peer_fits, enc_peer_items,
    enc_peer_map, dec_peer_items, dec_peer_map, list_fits, enc_list_items, enc_str_list,
    dec_list_items, dec_str_list, lemma_dec_u16, lemma_dec_u32, lemma_enc_u16_len,
    lemma_enc_u32_len, lemma_dec_str, lemma_dec_opt_str, lemma_dec_map_items,
    lemma_dec_peer_items, lemma_dec_list_items, write_u16, write_u32, write_len, write_string,
    write_option_string, read_u16, read_u32, read_string, read_option_string, write_string_map,
    write_peer_meta_map, write_string_list, read_string_map, read_peer_meta_map, read_string_list,
    viewed_str_pairs, viewed_peer_pairs,
};
use crate::smap::StrMap;
use vstd::slice::slice_subrange;

// ---------------------------------------------------------------------------
// entries, the packages section, and the whole file
// ---------------------------------------------------------------------------

use crate::lockfile::EntryView;

pub open spec fn entry_fits(key: Seq<char>, e: EntryView) -> bool {
    &&& str_fits(key)
    &&& opt_fits(e.version)
    &&& opt_fits(e.integrity)
    &&& opt_fits(e.resolved)
    &&& map_fits(e.dependencies)
    &&& map_fits(e.dev_dependencies)
    &&& map_fits(e.optional_dependencies)
    &&& map_fits(e.peer_dependencies)
    &&& peer_fits(e.peer_dependencies_meta)
    &&& list_fits(e.os)
    &&& list_fits(e.cpu_arch)
    &&& opt_fits(e.store_key)
    &&& opt_fits(e.content_hash)
    &&& opt_fits(e.link_mode)
    &&& opt_fits(e.store_path)
}

/// One entry, fields in file order; the concatenation associates to the right
/// so proofs can peel the head.
pub open spec fn enc_entry(key: Seq<char>, e: EntryView) -> Seq<u8> {
    enc_str(key) + (enc_opt_str(e.version) + (enc_opt_str(e.integrity) + (enc_opt_str(e.resolved)
        + (enc_str_map(e.dependencies) + (enc_str_map(e.dev_dependencies) + (enc_str_map(
        e.optional_dependencies,
    ) + (enc_str_map(e.peer_dependencies) + (enc_peer_map(e.peer_dependencies_meta) + (enc_str_list(
        e.os,
    ) + (enc_str_list(e.cpu_arch) + (enc_opt_str(e.store_key) + (enc_opt_str(e.content_hash) + (
    enc_opt_str(e.link_mode) + enc_opt_str(e.store_path))))))))))))))
}

pub open spec fn dec_entry(d: Seq<u8>, pos: int, wire: u16) -> Option<((Seq<char>, EntryView), int)> {
    match dec_str(d, pos) {
        Option::None => Option::None,
        Option::Some((key, p1)) => match dec_opt_str(d, p1) {
            Option::None => Option::None,
            Option::Some((version, p2)) => match dec_opt_str(d, p2) {
                Option::None => Option::None,
                Option::Some((integrity, p3)) => match dec_opt_str(d, p3) {
                    Option::None => Option::None,
                    Option::Some((resolved, p4)) => match dec_str_map(d, p4) {
                        Option::None => Option::None,
                        Option::Some((deps, p5)) => match dec_str_map(d, p5) {
                            Option::None => Option::None,
                            Option::Some((dev, p6)) => match dec_str_map(d, p6) {
                                Option::None => Option::None,
                                Option::Some((optd, p7)) => match dec_str_map(d, p7) {
                                    Option::None => Option::None,
                                    Option::Some((peer, p8)) => match dec_peer_map(d, p8) {
                                        Option::None => Option::None,
                                        Option::Some((meta, p9)) => dec_entry_tail(
                                            d,
                                            p9,
                                            wire,
                                            key,
                                            version,
                                            integrity,
                                            resolved,
                                            deps,
                                            dev,
                                            optd,
                                            peer,
                                            meta,
                                        ),
                                    },
                                },
                            },
                        },
                    },
                },
            },
        },
    }
}

/// The wire-version dependent tail of an entry: the platform lists from
/// version 2 on, the store quad from version 3 on.
pub open spec fn dec_entry_tail(
    d: Seq<u8>,
    pos: int,
    wire: u16,
    key: Seq<char>,
    version: Option<Seq<char>>,
    integrity: Option<Seq<char>>,
    resolved: Option<Seq<char>>,
    deps: Seq<(Seq<char>, Seq<char>)>,
    dev: Seq<(Seq<char>, Seq<char>)>,
    optd: Seq<(Seq<char>, Seq<char>)>,
    peer: Seq<(Seq<char>, Seq<char>)>,
    meta: Seq<(Seq<char>, bool)>,
) -> Option<((Seq<char>, EntryView), int)> {
    let lists = if wire >= 2 {
        match dec_str_list(d, pos) {
            Option::None => Option::None,
            Option::Some((os, q1)) => match dec_str_list(d, q1) {
                Option::None => Option::None,
                Option::Some((cpu, q2)) => Option::Some(((os, cpu), q2)),
            },
        }
    } else {
        Option::Some(((Seq::<Seq<char>>::empty(), Seq::<Seq<char>>::empty()), pos))
    };
    match lists {
        Option::None => Option::None,
        Option::Some(((os, cpu), p10)) => {
            let quad = if wire >= 3 {
                match dec_opt_str(d, p10) {
                    Option::None => Option::None,
                    Option::Some((sk, q1)) => match dec_opt_str(d, q1) {
                        Option::None => Option::None,
                        Option::Some((ch, q2)) => match dec_opt_str(d, q2) {
                            Option::None => Option::None,
                            Option::Some((lm, q3)) => match dec_opt_str(d, q3) {
                                Option::None => Option::None,
                                Option::Some((sp, q4)) => Option::Some(((sk, ch, lm, sp), q4)),
                            },
                        },
                    },
                }
            } else {
                Option::Some(
                    ((
                        Option::None::<Seq<char>>,
                        Option::None::<Seq<char>>,
                        Option::None::<Seq<char>>,
                        Option::None::<Seq<char>>,
                    ), p10),
                )
            };
            match quad {
                Option::None => Option::None,
                Option::Some(((sk, ch, lm, sp), p11)) => Option::Some(
                    ((
                        key,
                        EntryView {
                            version,
                            integrity,
                            resolved,
                            dependencies: deps,
                            dev_dependencies: dev,
                            optional_dependencies: optd,
                            peer_dependencies: peer,
                            peer_dependencies_meta: meta,
                            os,
                            cpu_arch: cpu,
                            store_key: sk,
                            content_hash: ch,
                            link_mode: lm,
                            store_path: sp,
                        },
                    ), p11),
                ),
            }
        },
    }
}

pub open spec fn packages_fit(pp: Seq<(Seq<char>, EntryView)>) -> bool {
    &&& pp.len() <= u32::MAX
    &&& forall|i: int| 0 <= i < pp.len() ==> entry_fits((#[trigger] pp[i]).0, pp[i].1)
}

pub open spec fn enc_entry_items(pp: Seq<(Seq<char>, EntryView)>) -> Seq<u8>
    decreases pp.len(),
{
    if pp.len() == 0 {
        Seq::empty()
    } else {
        enc_entry(pp[0].0, pp[0].1) + enc_entry_items(pp.drop_first())
    }
}

/// The packages section: entry count, then the entries.
pub open spec fn enc_packages(pp: Seq<(Seq<char>, EntryView)>) -> Seq<u8> {
    enc_u32(pp.len() as u32) + enc_entry_items(pp)
}

pub open spec fn dec_entry_items(d: Seq<u8>, pos: int, n: nat, wire: u16) -> Option<
    (Seq<(Seq<char>, EntryView)>, int),
>
    decreases n,
{
    if n == 0 {
        Option::Some((Seq::empty(), pos))
    } else {
        match dec_entry(d, pos, wire) {
            Option::None => Option::None,
            Option::Some((kv, p1)) => match dec_entry_items(d, p1, (n - 1) as nat, wire) {
                Option::None => Option::None,
                Option::Some((rest, p2)) => Option::Some((seq![kv] + rest, p2)),
            },
        }
    }
}

/// The packages section must be consumed exactly.
pub open spec fn dec_packages(section: Seq<u8>, wire: u16) -> Option<Seq<(Seq<char>, EntryView)>> {
    match dec_u32(section, 0) {
        Option::None => Option::None,
        Option::Some((n, p)) => match dec_entry_items(section, p, n as nat, wire) {
            Option::None => Option::None,
            Option::Some((pp, end)) => if end == section.len() {
                Option::Some(pp)
            } else {
                Option::None
            },
        },
    }
}

/// The whole file fits when every entry fits and the section obeys the cap.
pub open spec fn lockfile_fits(pp: Seq<(Seq<char>, EntryView)>) -> bool {
    &&& packages_fit(pp)
    &&& enc_packages(pp).len() <= MAX_LOCKFILE_SIZE
    &&& 24 + enc_packages(pp).len() <= MAX_LOCKFILE_SIZE
}

/// The whole file: magic, wire version, reserved, format, length-prefixed
/// packages section, empty extras section.
pub open spec fn enc_lockfile(format: u32, pp: Seq<(Seq<char>, EntryView)>) -> Seq<u8> {
    spec_magic() + (enc_u16(CURRENT_WIRE_VERSION) + (enc_u16(0) + (enc_u32(format) + (enc_u32(
        enc_packages(pp).len() as u32,
    ) + (enc_packages(pp) + enc_u32(0))))))
}

pub open spec fn dec_lockfile(d: Seq<u8>) -> Option<(u32, Seq<(Seq<char>, EntryView)>)> {
    if d.len() > MAX_LOCKFILE_SIZE || d.len() < 8 || d.subrange(0, 8) != spec_magic() {
        Option::None
    } else {
        match dec_u16(d, 8) {
            Option::None => Option::None,
            Option::Some((wire, p1)) => if wire != 1 && wire != 2 && wire != 3 {
                Option::None
            } else {
                match dec_u16(d, p1) {
                    Option::None => Option::None,
                    Option::Some((_reserved, p2)) => match dec_u32(d, p2) {
                        Option::None => Option::None,
                        Option::Some((format, p3)) => match dec_u32(d, p3) {
                            Option::None => Option::None,
                            Option::Some((seclen, p4)) => if p4 + seclen <= d.len() {
                                match dec_packages(d.subrange(p4, p4 + seclen), wire) {
                                    Option::None => Option::None,
                                    Option::Some(pp) => match dec_u32(d, p4 + seclen) {
                                        Option::None => Option::None,
                                        Option::Some((extras, p5)) => if p5 + extras == d.len() {
                                            Option::Some((format, pp))
                                        } else {
                                            Option::None
                                        },
                                    },
                                }
                            } else {
                                Option::None
                            },
                        },
                    },
                }
            },
        }
    }
}

/// Splitting a concatenation written at `pos` back into its two halves.
#[verifier::rlimit(30)]
#[verifier::spinoff_prover]
pub proof fn lemma_split_prefix(d: Seq<u8>, pos: int, a: Seq<u8>, b: Seq<u8>)
    requires
        0 <= pos,
        pos + a.len() + b.len() <= d.len(),
        d.subrange(pos, pos + a.len() + b.len()) == a + b,
    ensures
        d.subrange(pos, pos + a.len()) == a,
        d.subrange(pos + a.len(), pos + a.len() + b.len()) == b,
{
    let whole = a + b;
    assert forall|j: int| 0 <= j < whole.len() implies d[pos + j] == whole[j] by {
        assert(d.subrange(pos, pos + whole.len() as int)[j] == d[pos + j]);
    }
    assert forall|j: int| 0 <= j < a.len() implies d.subrange(pos, pos + a.len())[j] == a[j] by {
        assert(d[pos + j] == whole[j]);
        assert(whole[j] == a[j]);
    }
    assert(d.subrange(pos, pos + a.len()) =~= a);
    assert forall|j: int|
        0 <= j < b.len() implies d.subrange(pos + a.len(), pos + a.len() + b.len())[j] == b[j] by {
        assert(d[pos + a.len() + j] == whole[a.len() + j]);
        assert(whole[a.len() + j] == b[j]);
    }
    assert(d.subrange(pos + a.len(), pos + a.len() + b.len()) =~= b);
}

pub proof fn lemma_dec_str_map(d: Seq<u8>, pos: int, ps: Seq<(Seq<char>, Seq<char>)>)
    requires
        0 <= pos,
        map_fits(ps),
        pos + enc_str_map(ps).len() <= d.len(),
        d.subrange(pos, pos + enc_str_map(ps).len()) == enc_str_map(ps),
    ensures
        dec_str_map(d, pos) == Option::Some((ps, pos + enc_str_map(ps).len())),
{
    lemma_enc_u32_len(ps.len() as u32);
    lemma_split_prefix(d, pos, enc_u32(ps.len() as u32), enc_map_items(ps));
    lemma_dec_u32(d, pos, ps.len() as u32);
    lemma_dec_map_items(d, pos + 4, ps);
}

pub proof fn lemma_dec_peer_map(d: Seq<u8>, pos: int, ps: Seq<(Seq<char>, bool)>)
    requires
        0 <= pos,
        peer_fits(ps),
        pos + enc_peer_map(ps).len() <= d.len(),
        d.subrange(pos, pos + enc_peer_map(ps).len()) == enc_peer_map(ps),
    ensures
        dec_peer_map(d, pos) == Option::Some((ps, pos + enc_peer_map(ps).len())),
{
    lemma_enc_u32_len(ps.len() as u32);
    lemma_split_prefix(d, pos, enc_u32(ps.len() as u32), enc_peer_items(ps));
    lemma_dec_u32(d, pos, ps.len() as u32);
    lemma_dec_peer_items(d, pos + 4, ps);
}

pub proof fn lemma_dec_str_list(d: Seq<u8>, pos: int, items: Seq<Seq<char>>)
    requires
        0 <= pos,
        list_fits(items),
        pos + enc_str_list(items).len() <= d.len(),
        d.subrange(pos, pos + enc_str_list(items).len()) == enc_str_list(items),
    ensures
        dec_str_list(d, pos) == Option::Some((items, pos + enc_str_list(items).len())),
{
    lemma_enc_u32_len(items.len() as u32);
    lemma_split_prefix(d, pos, enc_u32(items.len() as u32), enc_list_items(items));
    lemma_dec_u32(d, pos, items.len() as u32);
    lemma_dec_list_items(d, pos + 4, items);
}

#[verifier::rlimit(100)]
#[verifier::spinoff_prover]
pub proof fn lemma_dec_entry(d: Seq<u8>, pos: int, key: Seq<char>, e: EntryView)
    requires
        0 <= pos,
        entry_fits(key, e),
        pos + enc_entry(key, e).len() <= d.len(),
        d.subrange(pos, pos + enc_entry(key, e).len()) == enc_entry(key, e),
    ensures
        dec_entry(d, pos, CURRENT_WIRE_VERSION) == Option::Some(
            ((key, e), pos + enc_entry(key, e).len()),
        ),
{
    let s0 = enc_str(key);
    let s1 = enc_opt_str(e.version);
    let s2 = enc_opt_str(e.integrity);
    let s3 = enc_opt_str(e.resolved);
    let s4 = enc_str_map(e.dependencies);
    let s5 = enc_str_map(e.dev_dependencies);
    let s6 = enc_str_map(e.optional_dependencies);
    let s7 = enc_str_map(e.peer_dependencies);
    let s8 = enc_peer_map(e.peer_dependencies_meta);
    let s9 = enc_str_list(e.os);
    let s10 = enc_str_list(e.cpu_arch);
    let s11 = enc_opt_str(e.store_key);
    let s12 = enc_opt_str(e.content_hash);
    let s13 = enc_opt_str(e.link_mode);
    let s14 = enc_opt_str(e.store_path);
    let r14 = s14;
    let r13 = s13 + r14;
    let r12 = s12 + r13;
    let r11 = s11 + r12;
    let r10 = s10 + r11;
    let r9 = s9 + r10;
    let r8 = s8 + r9;
    let r7 = s7 + r8;
    let r6 = s6 + r7;
    let r5 = s5 + r6;
    let r4 = s4 + r5;
    let r3 = s3 + r4;
    let r2 = s2 + r3;
    let r1 = s1 + r2;
    let p0 = pos;
    let p1 = p0 + s0.len();
    let p2 = p1 + s1.len();
    let p3 = p2 + s2.len();
    let p4 = p3 + s3.len();
    let p5 = p4 + s4.len();
    let p6 = p5 + s5.len();
    let p7 = p6 + s6.len();
    let p8 = p7 + s7.len();
    let p9 = p8 + s8.len();
    let p10 = p9 + s9.len();
    let p11 = p10 + s10.len();
    let p12 = p11 + s11.len();
    let p13 = p12 + s12.len();
    let p14 = p13 + s13.len();
    let pe = p14 + s14.len();
    assert(enc_entry(key, e) == s0 + r1);
    assert(dec_str(d, p0) == Option::Some((key, p1)) && d.subrange(p1, pe) == r1) by {
        lemma_split_prefix(d, p0, s0, r1);
        lemma_dec_str(d, p0, key);
    }
    assert(dec_opt_str(d, p1) == Option::Some((e.version, p2)) && d.subrange(p2, pe) == r2) by {
        lemma_split_prefix(d, p1, s1, r2);
        lemma_dec_opt_str(d, p1, e.version);
    }
    assert(dec_opt_str(d, p2) == Option::Some((e.integrity, p3)) && d.subrange(p3, pe) == r3) by {
        lemma_split_prefix(d, p2, s2, r3);
        lemma_dec_opt_str(d, p2, e.integrity);
    }
    assert(dec_opt_str(d, p3) == Option::Some((e.resolved, p4)) && d.subrange(p4, pe) == r4) by {
        lemma_split_prefix(d, p3, s3, r4);
        lemma_dec_opt_str(d, p3, e.resolved);
    }
    assert(dec_str_map(d, p4) == Option::Some((e.dependencies, p5)) && d.subrange(p5, pe) == r5)
        by {
        lemma_split_prefix(d, p4, s4, r5);
        lemma_dec_str_map(d, p4, e.dependencies);
    }
    assert(dec_str_map(d, p5) == Option::Some((e.dev_dependencies, p6)) && d.subrange(p6, pe)
        == r6) by {
        lemma_split_prefix(d, p5, s5, r6);
        lemma_dec_str_map(d, p5, e.dev_dependencies);
    }
    assert(dec_str_map(d, p6) == Option::Some((e.optional_dependencies, p7)) && d.subrange(p7, pe)
        == r7) by {
        lemma_split_prefix(d, p6, s6, r7);
        lemma_dec_str_map(d, p6, e.optional_dependencies);
    }
    assert(dec_str_map(d, p7) == Option::Some((e.peer_dependencies, p8)) && d.subrange(p8, pe)
        == r8) by {
        lemma_split_prefix(d, p7, s7, r8);
        lemma_dec_str_map(d, p7, e.peer_dependencies);
    }
    assert(dec_peer_map(d, p8) == Option::Some((e.peer_dependencies_meta, p9)) && d.subrange(
        p9,
        pe,
    ) == r9) by {
        lemma_split_prefix(d, p8, s8, r9);
        lemma_dec_peer_map(d, p8, e.peer_dependencies_meta);
    }
    assert(dec_str_list(d, p9) == Option::Some((e.os, p10)) && d.subrange(p10, pe) == r10) by {
        lemma_split_prefix(d, p9, s9, r10);
        lemma_dec_str_list(d, p9, e.os);
    }
    assert(dec_str_list(d, p10) == Option::Some((e.cpu_arch, p11)) && d.subrange(p11, pe) == r11)
        by {
        lemma_split_prefix(d, p10, s10, r11);
        lemma_dec_str_list(d, p10, e.cpu_arch);
    }
    assert(dec_opt_str(d, p11) == Option::Some((e.store_key, p12)) && d.subrange(p12, pe) == r12)
        by {
        lemma_split_prefix(d, p11, s11, r12);
        lemma_dec_opt_str(d, p11, e.store_key);
    }
    assert(dec_opt_str(d, p12) == Option::Some((e.content_hash, p13)) && d.subrange(p13, pe)
        == r13) by {
        lemma_split_prefix(d, p12, s12, r13);
        lemma_dec_opt_str(d, p12, e.content_hash);
    }
    assert(dec_opt_str(d, p13) == Option::Some((e.link_mode, p14)) && d.subrange(p14, pe) == r14)
        by {
        lemma_split_prefix(d, p13, s13, r14);
        lemma_dec_opt_str(d, p13, e.link_mode);
    }
    assert(dec_opt_str(d, p14) == Option::Some((e.store_path, pe))) by {
        lemma_dec_opt_str(d, p14, e.store_path);
    }
    assert(dec_entry_tail(
        d,
        p9,
        CURRENT_WIRE_VERSION,
        key,
        e.version,
        e.integrity,
        e.resolved,
        e.dependencies,
        e.dev_dependencies,
        e.optional_dependencies,
        e.peer_dependencies,
        e.peer_dependencies_meta,
    ) == Option::Some(((key, e), pe)));
    assert(dec_entry(d, pos, CURRENT_WIRE_VERSION) == Option::Some(((key, e), pe)));
}

#[verifier::rlimit(60)]
#[verifier::spinoff_prover]
pub proof fn lemma_dec_entry_items(d: Seq<u8>, pos: int, pp: Seq<(Seq<char>, EntryView)>)
    requires
        0 <= pos,
        forall|i: int| 0 <= i < pp.len() ==> entry_fits((#[trigger] pp[i]).0, pp[i].1),
        pos + enc_entry_items(pp).len() <= d.len(),
        d.subrange(pos, pos + enc_entry_items(pp).len()) == enc_entry_items(pp),
    ensures
        dec_entry_items(d, pos, pp.len(), CURRENT_WIRE_VERSION) == Option::Some(
            (pp, pos + enc_entry_items(pp).len()),
        ),
    decreases pp.len(),
{
    if pp.len() == 0 {
    } else {
        let e0 = enc_entry(pp[0].0, pp[0].1);
        let rest = enc_entry_items(pp.drop_first());
        assert(enc_entry_items(pp) == e0 + rest);
        lemma_split_prefix(d, pos, e0, rest);
        lemma_dec_entry(d, pos, pp[0].0, pp[0].1);
        lemma_dec_entry_items(d, pos + e0.len(), pp.drop_first());
        assert(seq![pp[0]] + pp.drop_first() =~= pp);
    }
}

#[verifier::rlimit(100)]
#[verifier::spinoff_prover]
pub proof fn lemma_dec_packages(section: Seq<u8>, pp: Seq<(Seq<char>, EntryView)>)
    requires
        packages_fit(pp),
        section == enc_packages(pp),
    ensures
        dec_packages(section, CURRENT_WIRE_VERSION) == Option::Some(pp),
{
    lemma_enc_u32_len(pp.len() as u32);
    assert(section.subrange(0, section.len() as int) =~= section);
    assert(dec_u32(section, 0) == Option::Some((pp.len() as u32, 4int)) && section.subrange(
        4,
        section.len() as int,
    ) == enc_entry_items(pp)) by {
        lemma_split_prefix(section, 0, enc_u32(pp.len() as u32), enc_entry_items(pp));
        lemma_dec_u32(section, 0, pp.len() as u32);
    }
    assert(dec_entry_items(section, 4, pp.len(), CURRENT_WIRE_VERSION) == Option::Some(
        (pp, section.len() as int),
    )) by {
        lemma_dec_entry_items(section, 4, pp);
    }
}

/// Decoding a well-formed frame around an already-decodable packages section.
#[verifier::rlimit(100)]
#[verifier::spinoff_prover]
proof fn lemma_dec_frame(d: Seq<u8>, format: u32, sec: Seq<u8>, pp: Seq<(Seq<char>, EntryView)>)
    requires
        d == spec_magic() + (enc_u16(CURRENT_WIRE_VERSION) + (enc_u16(0) + (enc_u32(format) + (
        enc_u32(sec.len() as u32) + (sec + enc_u32(0)))))),
        sec.len() <= u32::MAX,
        d.len() <= MAX_LOCKFILE_SIZE,
        dec_packages(sec, CURRENT_WIRE_VERSION) == Option::Some(pp),
    ensures
        dec_lockfile(d) == Option::Some((format, pp)),
{
    let sl = sec.len() as int;
    lemma_enc_u16_len(CURRENT_WIRE_VERSION);
    lemma_enc_u16_len(0);
    lemma_enc_u32_len(format);
    lemma_enc_u32_len(sec.len() as u32);
    lemma_enc_u32_len(0);
    assert(d.len() == 24 + sl);
    assert(d.subrange(0, d.len() as int) =~= d);
    let t1 = enc_u16(CURRENT_WIRE_VERSION) + (enc_u16(0) + (enc_u32(format) + (enc_u32(
        sec.len() as u32,
    ) + (sec + enc_u32(0)))));
    assert(d.subrange(0, 8) == spec_magic() && d.subrange(8, d.len() as int) == t1) by {
        lemma_split_prefix(d, 0, spec_magic(), t1);
    }
    let t2 = enc_u16(0) + (enc_u32(format) + (enc_u32(sec.len() as u32) + (sec + enc_u32(0))));
    assert(dec_u16(d, 8) == Option::Some((CURRENT_WIRE_VERSION, 10int)) && d.subrange(
        10,
        d.len() as int,
    ) == t2) by {
        lemma_split_prefix(d, 8, enc_u16(CURRENT_WIRE_VERSION), t2);
        lemma_dec_u16(d, 8, CURRENT_WIRE_VERSION);
    }
    let t3 = enc_u32(format) + (enc_u32(sec.len() as u32) + (sec + enc_u32(0)));
    assert(dec_u16(d, 10) == Option::Some((0u16, 12int)) && d.subrange(12, d.len() as int) == t3)
        by {
        lemma_split_prefix(d, 10, enc_u16(0), t3);
        lemma_dec_u16(d, 10, 0);
    }
    let t4 = enc_u32(sec.len() as u32) + (sec + enc_u32(0));
    assert(dec_u32(d, 12) == Option::Some((format, 16int)) && d.subrange(16, d.len() as int) == t4)
        by {
        lemma_split_prefix(d, 12, enc_u32(format), t4);
        lemma_dec_u32(d, 12, format);
    }
    let t5 = sec + enc_u32(0);
    assert(dec_u32(d, 16) == Option::Some((sec.len() as u32, 20int)) && d.subrange(
        20,
        d.len() as int,
    ) == t5) by {
        lemma_split_prefix(d, 16, enc_u32(sec.len() as u32), t5);
        lemma_dec_u32(d, 16, sec.len() as u32);
    }
    assert(d.subrange(20, 20 + sl) == sec && d.subrange(20 + sl, 24 + sl) == enc_u32(0)) by {
        lemma_split_prefix(d, 20, sec, enc_u32(0));
    }
    assert(dec_u32(d, 20 + sl) == Option::Some((0u32, 24 + sl))) by {
        lemma_dec_u32(d, 20 + sl, 0);
    }
    assert(dec_lockfile(d) == Option::Some((format, pp)));
}

/// Decoding the encoding of a lockfile gives back its contents exactly.
#[verifier::rlimit(100)]
#[verifier::spinoff_prover]
pub proof fn lemma_dec_enc_lockfile(format: u32, pp: Seq<(Seq<char>, EntryView)>)
    requires
        lockfile_fits(pp),
    ensures
        dec_lockfile(enc_lockfile(format, pp)) == Option::Some((format, pp)),
{
    let d = enc_lockfile(format, pp);
    let sec = enc_packages(pp);
    lemma_enc_u16_len(CURRENT_WIRE_VERSION);
    lemma_enc_u16_len(0);
    lemma_enc_u32_len(format);
    lemma_enc_u32_len(sec.len() as u32);
    lemma_enc_u32_len(0);
    lemma_dec_packages(sec, pp);
    lemma_dec_frame(d, format, sec, pp);
}

// ---------------------------------------------------------------------------
// executable entry writer and reader
// ---------------------------------------------------------------------------

use crate::lockfile::{PackageEntry, Lockfile, ostr, vstrs, peer_pairs};
use crate::smap::{folded_map, pairs_sorted, pairs_contain, raw_pairs};

/// The pairs of a package map with the entries abstracted to views.
pub open spec fn entry_pairs(m: StrMap<PackageEntry>) -> Seq<(Seq<char>, EntryView)> {
    m.pairs_view().map_values(|p: (Seq<char>, PackageEntry)| (p.0, p.1.view()))
}

/// How a decoded entry relates to the in-memory entry built from it: equal
/// plain fields, and each map is the fold of the decoded pairs (taken over
/// unchanged when those pairs were already sorted).
pub open spec fn entry_abstracts(e: PackageEntry, dv: EntryView) -> bool {
    &&& ostr(e.version) == dv.version
    &&& ostr(e.integrity) == dv.integrity
    &&& ostr(e.resolved) == dv.resolved
    &&& e.dependencies.str_map() == folded_map(dv.dependencies)
    &&& (pairs_sorted(dv.dependencies) ==> e.dependencies.str_pairs() == dv.dependencies)
    &&& e.dev_dependencies.str_map() == folded_map(dv.dev_dependencies)
    &&& (pairs_sorted(dv.dev_dependencies) ==> e.dev_dependencies.str_pairs()
        == dv.dev_dependencies)
    &&& e.optional_dependencies.str_map() == folded_map(dv.optional_dependencies)
    &&& (pairs_sorted(dv.optional_dependencies) ==> e.optional_dependencies.str_pairs()
        == dv.optional_dependencies)
    &&& e.peer_dependencies.str_map() == folded_map(dv.peer_dependencies)
    &&& (pairs_sorted(dv.peer_dependencies) ==> e.peer_dependencies.str_pairs()
        == dv.peer_dependencies)
    &&& e.peer_dependencies_meta.as_map().map_values(
        |pm: crate::lockfile::PeerMeta| pm.optional,
    ) == folded_map(dv.peer_dependencies_meta)
    &&& (pairs_sorted(dv.peer_dependencies_meta) ==> peer_pairs(e.peer_dependencies_meta)
        == dv.peer_dependencies_meta)
    &&& vstrs(e.os@) == dv.os
    &&& vstrs(e.cpu_arch@) == dv.cpu_arch
    &&& ostr(e.store_key) == dv.store_key
    &&& ostr(e.content_hash) == dv.content_hash
    &&& ostr(e.link_mode) == dv.link_mode
    &&& ostr(e.store_path) == dv.store_path
}

/// An entry view whose map pair lists are strictly sorted, as the views of
/// well-formed entries are.
pub open spec fn entry_view_canonical(dv: EntryView) -> bool {
    &&& pairs_sorted(dv.dependencies)
    &&& pairs_sorted(dv.dev_dependencies)
    &&& pairs_sorted(dv.optional_dependencies)
    &&& pairs_sorted(dv.peer_dependencies)
    &&& pairs_sorted(dv.peer_dependencies_meta)
}

/// An entry abstracting a canonical view is that view exactly.
pub proof fn lemma_abstracts_canonical(e: PackageEntry, dv: EntryView)
    requires
        entry_abstracts(e, dv),
        entry_view_canonical(dv),
    ensures
        e.view() =~~= dv,
{
}

/// The view of a well-formed entry is canonical.
pub proof fn lemma_wf_entry_canonical(e: PackageEntry)
    requires
        e.wf(),
    ensures
        entry_view_canonical(e.view()),
{
    assert forall|i: int, j: int|
        0 <= i < j < e.dependencies.str_pairs().len() implies crate::strutil::seq_char_lt(
        (#[trigger] e.dependencies.str_pairs()[i]).0,
        (#[trigger] e.dependencies.str_pairs()[j]).0,
    ) by {
        assert(e.dependencies.str_pairs()[i].0 == e.dependencies.pairs_view()[i].0);
        assert(e.dependencies.str_pairs()[j].0 == e.dependencies.pairs_view()[j].0);
    }
    assert forall|i: int, j: int|
        0 <= i < j < e.dev_dependencies.str_pairs().len() implies crate::strutil::seq_char_lt(
        (#[trigger] e.dev_dependencies.str_pairs()[i]).0,
        (#[trigger] e.dev_dependencies.str_pairs()[j]).0,
    ) by {
        assert(e.dev_dependencies.str_pairs()[i].0 == e.dev_dependencies.pairs_view()[i].0);
        assert(e.dev_dependencies.str_pairs()[j].0 == e.dev_dependencies.pairs_view()[j].0);
    }
    assert forall|i: int, j: int|
        0 <= i < j < e.optional_dependencies.str_pairs().len() implies crate::strutil::seq_char_lt(
        (#[trigger] e.optional_dependencies.str_pairs()[i]).0,
        (#[trigger] e.optional_dependencies.str_pairs()[j]).0,
    ) by {
        assert(e.optional_dependencies.str_pairs()[i].0
            == e.optional_dependencies.pairs_view()[i].0);
        assert(e.optional_dependencies.str_pairs()[j].0
            == e.optional_dependencies.pairs_view()[j].0);
    }
    assert forall|i: int, j: int|
        0 <= i < j < e.peer_dependencies.str_pairs().len() implies crate::strutil::seq_char_lt(
        (#[trigger] e.peer_dependencies.str_pairs()[i]).0,
        (#[trigger] e.peer_dependencies.str_pairs()[j]).0,
    ) by {
        assert(e.peer_dependencies.str_pairs()[i].0 == e.peer_dependencies.pairs_view()[i].0);
        assert(e.peer_dependencies.str_pairs()[j].0 == e.peer_dependencies.pairs_view()[j].0);
    }
    assert forall|i: int, j: int|
        0 <= i < j < peer_pairs(e.peer_dependencies_meta).len() implies crate::strutil::seq_char_lt(
        (#[trigger] peer_pairs(e.peer_dependencies_meta)[i]).0,
        (#[trigger] peer_pairs(e.peer_dependencies_meta)[j]).0,
    ) by {
        assert(peer_pairs(e.peer_dependencies_meta)[i].0
            == e.peer_dependencies_meta.pairs_view()[i].0);
        assert(peer_pairs(e.peer_dependencies_meta)[j].0
            == e.peer_dependencies_meta.pairs_view()[j].0);
    }
}

/// Write one entry in file order.
#[verifier::rlimit(100)]
#[verifier::spinoff_prover]
pub fn write_entry(buf: &mut Vec<u8>, key: &str, e: &PackageEntry) -> (r: Result<(), LockError>)
    ensures
        match r {
            Ok(()) => entry_fits(key@, e.view()) && final(buf)@ == old(buf)@ + enc_entry(
                key@,
                e.view(),
            ),
            Err(err) => err == LockError::TooLarge && !entry_fits(key@, e.view()),
        },
{
    let ghost base = buf@;
    match write_string(buf, key) {
        Ok(()) => {},
        Err(err) => {
            return Err(err);
        },
    }
    match write_option_string(buf, &e.version) {
        Ok(()) => {},
        Err(err) => {
            return Err(err);
        },
    }
    match write_option_string(buf, &e.integrity) {
        Ok(()) => {},
        Err(err) => {
            return Err(err);
        },
    }
    match write_option_string(buf, &e.resolved) {
        Ok(()) => {},
        Err(err) => {
            return Err(err);
        },
    }
    match write_string_map(buf, &e.dependencies) {
        Ok(()) => {},
        Err(err) => {
            return Err(err);
        },
    }
    match write_string_map(buf, &e.dev_dependencies) {
        Ok(()) => {},
        Err(err) => {
            return Err(err);
        },
    }
    match write_string_map(buf, &e.optional_dependencies) {
        Ok(()) => {},
        Err(err) => {
            return Err(err);
        },
    }
    match write_string_map(buf, &e.peer_dependencies) {
        Ok(()) => {},
        Err(err) => {
            return Err(err);
        },
    }
    match write_peer_meta_map(buf, &e.peer_dependencies_meta) {
        Ok(()) => {},
        Err(err) => {
            return Err(err);
        },
    }
    match write_string_list(buf, &e.os) {
        Ok(()) => {},
        Err(err) => {
            return Err(err);
        },
    }
    match write_string_list(buf, &e.cpu_arch) {
        Ok(()) => {},
        Err(err) => {
            return Err(err);
        },
    }
    match write_option_string(buf, &e.store_key) {
        Ok(()) => {},
        Err(err) => {
            return Err(err);
        },
    }
    match write_option_string(buf, &e.content_hash) {
        Ok(()) => {},
        Err(err) => {
            return Err(err);
        },
    }
    match write_option_string(buf, &e.link_mode) {
        Ok(()) => {},
        Err(err) => {
            return Err(err);
        },
    }
    match write_option_string(buf, &e.store_path) {
        Ok(()) => {},
        Err(err) => {
            return Err(err);
        },
    }
    proof {
        let ev = e.view();
        let s0 = enc_str(key@);
        let s1 = enc_opt_str(ev.version);
        let s2 = enc_opt_str(ev.integrity);
        let s3 = enc_opt_str(ev.resolved);
        let s4 = enc_str_map(ev.dependencies);
        let s5 = enc_str_map(ev.dev_dependencies);
        let s6 = enc_str_map(ev.optional_dependencies);
        let s7 = enc_str_map(ev.peer_dependencies);
        let s8 = enc_peer_map(ev.peer_dependencies_meta);
        let s9 = enc_str_list(ev.os);
        let s10 = enc_str_list(ev.cpu_arch);
        let s11 = enc_opt_str(ev.store_key);
        let s12 = enc_opt_str(ev.content_hash);
        let s13 = enc_opt_str(ev.link_mode);
        let s14 = enc_opt_str(ev.store_path);
        // reassociate the fifteen appended segments to match `enc_entry`
        assert(s13 + s14 == s13 + (s14 + Seq::<u8>::empty())) by {
            assert(s14 + Seq::<u8>::empty() =~= s14);
        }
        let r14 = s14;
        let r13 = s13 + r14;
        let r12 = s12 + r13;
        let r11 = s11 + r12;
        let r10 = s10 + r11;
        let r9 = s9 + r10;
        let r8 = s8 + r9;
        let r7 = s7 + r8;
        let r6 = s6 + r7;
        let r5 = s5 + r6;
        let r4 = s4 + r5;
        let r3 = s3 + r4;
        let r2 = s2 + r3;
        let r1 = s1 + r2;
        let l0 = base + s0;
        let l1 = l0 + s1;
        let l2 = l1 + s2;
        let l3 = l2 + s3;
        let l4 = l3 + s4;
        let l5 = l4 + s5;
        let l6 = l5 + s6;
        let l7 = l6 + s7;
        let l8 = l7 + s8;
        let l9 = l8 + s9;
        let l10 = l9 + s10;
        let l11 = l10 + s11;
        let l12 = l11 + s12;
        let l13 = l12 + s13;
        let l14 = l13 + s14;
        assert(buf@ == l14);
        assert(l14 =~= base + (s0 + r1)) by {
            assert(l13 + s14 =~= l12 + (s13 + s14));
            assert(l12 + r13 =~= l11 + (s12 + r13));
            assert(l11 + r12 =~= l10 + (s11 + r12));
            assert(l10 + r11 =~= l9 + (s10 + r11));
            assert(l9 + r10 =~= l8 + (s9 + r10));
            assert(l8 + r9 =~= l7 + (s8 + r9));
            assert(l7 + r8 =~= l6 + (s7 + r8));
            assert(l6 + r7 =~= l5 + (s6 + r7));
            assert(l5 + r6 =~= l4 + (s5 + r6));
            assert(l4 + r5 =~= l3 + (s4 + r5));
            assert(l3 + r4 =~= l2 + (s3 + r4));
            assert(l2 + r3 =~= l1 + (s2 + r3));
            assert(l1 + r2 =~= l0 + (s1 + r2));
            assert(l0 + r1 =~= base + (s0 + r1));
        }
        assert(enc_entry(key@, ev) == s0 + r1);
        assert(buf@ == base + enc_entry(key@, ev));
    }
    Ok(())
}

/// Read one entry, at the given wire version.
#[verifier::rlimit(100)]
#[verifier::spinoff_prover]
pub fn read_entry(data: &[u8], pos: &mut usize, wire: u16) -> (r: Result<
    (String, PackageEntry),
    LockError,
>)
    ensures
        match r {
            Ok(kv) => ({
                let ((dk, dv), p) = dec_entry(data@, *old(pos) as int, wire)->0;
                &&& dec_entry(data@, *old(pos) as int, wire) is Some
                &&& kv.0@ == dk
                &&& kv.1.wf()
                &&& entry_abstracts(kv.1, dv)
                &&& *final(pos) as int == p
                &&& *old(pos) <= *final(pos) <= data@.len()
            }),
            Err(e) => dec_entry(data@, *old(pos) as int, wire) is None && e
                == LockError::Unreadable,
        },
{
    let key = match read_string(data, pos) {
        Ok(s) => s,
        Err(_) => {
            return Err(LockError::Unreadable);
        },
    };
    let version = match read_option_string(data, pos) {
        Ok(v) => v,
        Err(_) => {
            return Err(LockError::Unreadable);
        },
    };
    let integrity = match read_option_string(data, pos) {
        Ok(v) => v,
        Err(_) => {
            return Err(LockError::Unreadable);
        },
    };
    let resolved = match read_option_string(data, pos) {
        Ok(v) => v,
        Err(_) => {
            return Err(LockError::Unreadable);
        },
    };
    let dependencies = match read_string_map(data, pos) {
        Ok(v) => v,
        Err(_) => {
            return Err(LockError::Unreadable);
        },
    };
    let dev_dependencies = match read_string_map(data, pos) {
        Ok(v) => v,
        Err(_) => {
            return Err(LockError::Unreadable);
        },
    };
    let optional_dependencies = match read_string_map(data, pos) {
        Ok(v) => v,
        Err(_) => {
            return Err(LockError::Unreadable);
        },
    };
    let peer_dependencies = match read_string_map(data, pos) {
        Ok(v) => v,
        Err(_) => {
            return Err(LockError::Unreadable);
        },
    };
    let peer_dependencies_meta = match read_peer_meta_map(data, pos) {
        Ok(v) => v,
        Err(_) => {
            return Err(LockError::Unreadable);
        },
    };
    let (os, cpu_arch) = if wire >= 2 {
        let os = match read_string_list(data, pos) {
            Ok(v) => v,
            Err(_) => {
                return Err(LockError::Unreadable);
            },
        };
        let cpu = match read_string_list(data, pos) {
            Ok(v) => v,
            Err(_) => {
                return Err(LockError::Unreadable);
            },
        };
        (os, cpu)
    } else {
        (Vec::new(), Vec::new())
    };
    let (store_key, content_hash, link_mode, store_path) = if wire >= 3 {
        let sk = match read_option_string(data, pos) {
            Ok(v) => v,
            Err(_) => {
                return Err(LockError::Unreadable);
            },
        };
        let ch = match read_option_string(data, pos) {
            Ok(v) => v,
            Err(_) => {
                return Err(LockError::Unreadable);
            },
        };
        let lm = match read_option_string(data, pos) {
            Ok(v) => v,
            Err(_) => {
                return Err(LockError::Unreadable);
            },
        };
        let sp = match read_option_string(data, pos) {
            Ok(v) => v,
            Err(_) => {
                return Err(LockError::Unreadable);
            },
        };
        (sk, ch, lm, sp)
    } else {
        (None, None, None, None)
    };
    let entry = PackageEntry {
        version,
        integrity,
        resolved,
        dependencies,
        dev_dependencies,
        optional_dependencies,
        peer_dependencies,
        peer_dependencies_meta,
        os,
        cpu_arch,
        store_key,
        content_hash,
        link_mode,
        store_path,
    };
    proof {
        let dv = (dec_entry(data@, *old(pos) as int, wire)->0).0.1;
        let f1 = |pm: crate::lockfile::PeerMeta| pm.optional;
        assert(entry.peer_dependencies_meta.as_map().map_values(f1) =~= folded_map(
            dv.peer_dependencies_meta,
        ));
        if wire < 2 {
            assert(vstrs(entry.os@) =~= Seq::<Seq<char>>::empty());
            assert(vstrs(entry.cpu_arch@) =~= Seq::<Seq<char>>::empty());
        }
        assert(entry_abstracts(entry, dv));
    }
    Ok((key, entry))
}

pub proof fn lemma_enc_entry_items_snoc(pp: Seq<(Seq<char>, EntryView)>, kv: (Seq<char>, EntryView))
    ensures
        enc_entry_items(pp.push(kv)) =~= enc_entry_items(pp) + enc_entry(kv.0, kv.1),
    decreases pp.len(),
{
    if pp.len() == 0 {
        assert(pp.push(kv)[0] == kv);
        assert(pp.push(kv).drop_first() =~= Seq::<(Seq<char>, EntryView)>::empty());
        assert(enc_entry_items(pp.push(kv)) == enc_entry(kv.0, kv.1) + enc_entry_items(
            pp.push(kv).drop_first(),
        ));
        assert(enc_entry_items(pp.push(kv).drop_first()) == Seq::<u8>::empty());
        assert(enc_entry_items(pp) == Seq::<u8>::empty());
    } else {
        assert(pp.push(kv)[0] == pp[0]);
        assert(pp.push(kv).drop_first() =~= pp.drop_first().push(kv));
        lemma_enc_entry_items_snoc(pp.drop_first(), kv);
        assert(enc_entry_items(pp.push(kv)) == enc_entry(pp[0].0, pp[0].1) + enc_entry_items(
            pp.drop_first().push(kv),
        ));
        assert(enc_entry_items(pp) == enc_entry(pp[0].0, pp[0].1) + enc_entry_items(
            pp.drop_first(),
        ));
    }
}

/// Whether every entry view in a pair list is canonical.
pub open spec fn all_entries_canonical(pp: Seq<(Seq<char>, EntryView)>) -> bool {
    forall|i: int| 0 <= i < pp.len() ==> entry_view_canonical((#[trigger] pp[i]).1)
}

/// Parse the packages section: an entry count and that many entries, which
/// must consume the section exactly.
#[verifier::rlimit(100)]
#[verifier::spinoff_prover]
pub fn parse_packages_section(packages_slice: &[u8], wire_version: u16) -> (r: Result<
    StrMap<PackageEntry>,
    LockError,
>)
    ensures
        match r {
            Ok(m) => ({
                let pp = dec_packages(packages_slice@, wire_version)->0;
                &&& dec_packages(packages_slice@, wire_version) is Some
                &&& m.wf()
                &&& forall|k: Seq<char>| #[trigger]
                    m.as_map().contains_key(k) ==> m.as_map()[k].wf()
                &&& forall|k: Seq<char>|
                    #[trigger] m.as_map().contains_key(k) <==> pairs_contain(pp, k)
                &&& forall|k: Seq<char>| #[trigger]
                    m.as_map().contains_key(k) ==> entry_abstracts(
                        m.as_map()[k],
                        folded_map(pp)[k],
                    )
                &&& (pairs_sorted(pp) && all_entries_canonical(pp) ==> entry_pairs(m) =~= pp)
            }),
            Err(e) => dec_packages(packages_slice@, wire_version) is None && e
                == LockError::Unreadable,
        },
{
    let mut pos: usize = 0;
    let n = match read_u32(packages_slice, &mut pos) {
        Ok(v) => v,
        Err(e) => {
            return Err(e);
        },
    };
    let mut v: Vec<(String, PackageEntry)> = Vec::new();
    let ghost mut dpp: Seq<(Seq<char>, EntryView)> = Seq::empty();
    let mut i: u32 = 0;
    proof {
        assert(dpp + Seq::<(Seq<char>, EntryView)>::empty() =~= dpp);
    }
    while i < n
        invariant
            i <= n,
            pos <= packages_slice@.len(),
            v@.len() == i,
            dpp.len() == i,
            forall|j: int|
                0 <= j < i ==> (#[trigger] v@[j]).0@ == dpp[j].0 && v@[j].1.wf()
                    && entry_abstracts(v@[j].1, dpp[j].1),
            (match dec_u32(packages_slice@, 0) {
                Option::None => false,
                Option::Some((cnt, p)) => cnt == n && (match dec_entry_items(
                    packages_slice@,
                    pos as int,
                    (n - i) as nat,
                    wire_version,
                ) {
                    Option::None => dec_entry_items(
                        packages_slice@,
                        p,
                        n as nat,
                        wire_version,
                    ) is None,
                    Option::Some((rest, q)) => dec_entry_items(
                        packages_slice@,
                        p,
                        n as nat,
                        wire_version,
                    ) == Option::Some((dpp + rest, q)),
                }),
            }),
        decreases n - i,
    {
        let ghost pos_i = pos as int;
        let (key, entry) = match read_entry(packages_slice, &mut pos, wire_version) {
            Ok(kv) => kv,
            Err(_) => {
                proof {
                    assert(dec_entry_items(
                        packages_slice@,
                        pos_i,
                        (n - i) as nat,
                        wire_version,
                    ) is None);
                }
                return Err(LockError::Unreadable);
            },
        };
        let ghost dv = (dec_entry(packages_slice@, pos_i, wire_version)->0).0;
        let ghost olddpp = dpp;
        proof {
            dpp = dpp.push(dv);
        }
        v.push((key, entry));
        i = i + 1;
        proof {
            assert forall|rest: Seq<(Seq<char>, EntryView)>|
                true implies (olddpp + (seq![dv] + rest)) =~= (dpp + rest) by {}
        }
    }
    if pos != packages_slice.len() {
        proof {
            assert(dec_entry_items(packages_slice@, pos as int, 0, wire_version)
                == Option::Some((Seq::<(Seq<char>, EntryView)>::empty(), pos as int)));
            assert(dpp + Seq::<(Seq<char>, EntryView)>::empty() =~= dpp);
        }
        return Err(LockError::Unreadable);
    }
    proof {
        assert(dec_entry_items(packages_slice@, pos as int, 0, wire_version) == Option::Some(
            (Seq::<(Seq<char>, EntryView)>::empty(), pos as int),
        ));
        assert(dpp + Seq::<(Seq<char>, EntryView)>::empty() =~= dpp);
        assert(dec_packages(packages_slice@, wire_version) == Option::Some(dpp));
    }
    let ghost pp = dec_packages(packages_slice@, wire_version)->0;
    let ghost raw = raw_pairs(v@);
    proof {
        assert(pp == dpp);
    }
    let m = StrMap::from_pairs(v);
    proof {
        let rel = |e: PackageEntry, dv: EntryView| e.wf() && entry_abstracts(e, dv);
        assert forall|j: int| 0 <= j < raw.len() implies (#[trigger] pp[j]).0 == (
        #[trigger] raw[j]).0 && rel(raw[j].1, pp[j].1) by {
            assert(raw[j] == (v@[j].0@, v@[j].1));
        }
        crate::smap::lemma_folded_map_rel(raw, pp, rel);
        crate::smap::lemma_folded_dom(raw);
        crate::smap::lemma_folded_dom(pp);
        assert(m.as_map() =~= folded_map(raw));
        assert(m.as_map() == folded_map(raw));
        assert forall|k: Seq<char>| #[trigger] m.as_map().contains_key(k) implies m.as_map()[k].wf()
            && entry_abstracts(m.as_map()[k], folded_map(pp)[k]) by {
            assert(folded_map(raw).contains_key(k));
            assert(rel(folded_map(raw)[k], folded_map(pp)[k]));
        }
        assert forall|k: Seq<char>|
            #[trigger] m.as_map().contains_key(k) <==> pairs_contain(pp, k) by {
            assert(m.as_map().contains_key(k) <==> folded_map(raw).contains_key(k));
            assert(folded_map(raw).contains_key(k) <==> folded_map(pp).contains_key(k));
            assert(folded_map(pp).contains_key(k) <==> pairs_contain(pp, k));
        }
        if pairs_sorted(pp) && all_entries_canonical(pp) {
            assert forall|a: int, b: int| 0 <= a < b < raw.len() implies crate::strutil::seq_char_lt(
                (#[trigger] raw[a]).0,
                (#[trigger] raw[b]).0,
            ) by {
                assert(raw[a].0 == pp[a].0);
                assert(raw[b].0 == pp[b].0);
            }
            assert(crate::smap::pairs_sorted(raw));
            assert(m.pairs_view() =~= raw);
            assert forall|j: int| 0 <= j < pp.len() implies #[trigger] entry_pairs(m)[j] == pp[j]
                by {
                assert(m.pairs_view()[j] == raw[j]);
                assert(v@[j].1.view() =~~= pp[j].1) by {
                    lemma_abstracts_canonical(v@[j].1, pp[j].1);
                }
            }
            assert(entry_pairs(m) =~= pp);
        }
    }
    Ok(m)
}

/// Decode the framed binary lockfile.
#[verifier::rlimit(100)]
#[verifier::spinoff_prover]
pub fn decode_current_binary(data: &[u8]) -> (r: Result<Lockfile, LockError>)
    ensures
        match r {
            Ok(lf) => ({
                let (fmt, pp) = dec_lockfile(data@)->0;
                &&& dec_lockfile(data@) is Some
                &&& lf.wf()
                &&& lf.format == fmt
                &&& forall|k: Seq<char>|
                    #[trigger] lf.packages.as_map().contains_key(k) <==> pairs_contain(pp, k)
                &&& forall|k: Seq<char>| #[trigger]
                    lf.packages.as_map().contains_key(k) ==> entry_abstracts(
                        lf.packages.as_map()[k],
                        folded_map(pp)[k],
                    )
                &&& (pairs_sorted(pp) && all_entries_canonical(pp) ==> lf.packages_pairs() =~= pp)
            }),
            Err(e) => dec_lockfile(data@) is None && e == LockError::Unreadable,
        },
{
    if data.len() > MAX_LOCKFILE_SIZE {
        return Err(LockError::Unreadable);
    }
    if data.len() < 8 {
        return Err(LockError::Unreadable);
    }
    let magic = magic_bytes();
    let mut mi: usize = 0;
    while mi < 8
        invariant
            mi <= 8,
            data@.len() >= 8,
            magic@ == spec_magic(),
            forall|j: int| 0 <= j < mi ==> data@[j] == spec_magic()[j],
        decreases 8 - mi,
    {
        if data[mi] != magic[mi] {
            proof {
                assert(data@.subrange(0, 8)[mi as int] == data@[mi as int]);
                assert(data@.subrange(0, 8) != spec_magic());
            }
            return Err(LockError::Unreadable);
        }
        mi = mi + 1;
    }
    proof {
        assert forall|j: int| 0 <= j < 8 implies data@.subrange(0, 8)[j] == spec_magic()[j] by {
            assert(data@.subrange(0, 8)[j] == data@[j]);
        }
        assert(data@.subrange(0, 8) =~= spec_magic());
    }
    let mut pos: usize = 8;
    let version = match read_u16(data, &mut pos) {
        Ok(v) => v,
        Err(_) => {
            return Err(LockError::Unreadable);
        },
    };
    if version != CURRENT_WIRE_VERSION && version != 2 && version != 1 {
        return Err(LockError::Unreadable);
    }
    let _reserved = match read_u16(data, &mut pos) {
        Ok(v) => v,
        Err(_) => {
            return Err(LockError::Unreadable);
        },
    };
    let format = match read_u32(data, &mut pos) {
        Ok(v) => v,
        Err(_) => {
            return Err(LockError::Unreadable);
        },
    };
    let seclen32 = match read_u32(data, &mut pos) {
        Ok(v) => v,
        Err(_) => {
            return Err(LockError::Unreadable);
        },
    };
    let seclen = seclen32 as usize;
    if seclen > data.len() || pos > data.len() - seclen {
        return Err(LockError::Unreadable);
    }
    let section = slice_subrange(data, pos, pos + seclen);
    let packages = match parse_packages_section(section, version) {
        Ok(m) => m,
        Err(_) => {
            return Err(LockError::Unreadable);
        },
    };
    pos = pos + seclen;
    let ghost after_section = pos as int;
    let extras32 = match read_u32(data, &mut pos) {
        Ok(v) => v,
        Err(_) => {
            return Err(LockError::Unreadable);
        },
    };
    let extras = extras32 as usize;
    if extras > data.len() - pos || pos + extras != data.len() {
        return Err(LockError::Unreadable);
    }
    let lf = Lockfile { format, packages };
    proof {
        let pp = dec_packages(data@.subrange(20, 20 + seclen as int), version)->0;
        assert(dec_lockfile(data@) == Option::Some((format, pp)));
        assert forall|k: Seq<char>| #[trigger] lf.packages.as_map().contains_key(k) implies lf
            .packages.as_map()[k].wf() by {}
        if pairs_sorted(pp) && all_entries_canonical(pp) {
            assert(lf.packages_pairs() =~= entry_pairs(lf.packages));
        }
    }
    Ok(lf)
}

/// Encode the lockfile in the current framing.
#[verifier::rlimit(100)]
#[verifier::spinoff_prover]
pub fn encode_current_binary(lf: &Lockfile) -> (r: Result<Vec<u8>, LockError>)
    requires
        lf.wf(),
    ensures
        match r {
            Ok(v) => lockfile_fits(lf.packages_pairs()) && v@ == enc_lockfile(
                lf.format,
                lf.packages_pairs(),
            ) && dec_lockfile(v@) == Option::Some((lf.format, lf.packages_pairs())),
            Err(e) => e == LockError::TooLarge && !lockfile_fits(lf.packages_pairs()),
        },
{
    let ghost pp = lf.packages_pairs();
    let mut packages_buf: Vec<u8> = Vec::new();
    let n = lf.packages.len();
    match write_len(&mut packages_buf, n) {
        Ok(()) => {},
        Err(e) => {
            return Err(e);
        },
    }
    let ghost base = packages_buf@;
    let mut i: usize = 0;
    proof {
        assert(pp.take(0) =~= Seq::<(Seq<char>, EntryView)>::empty());
        assert(base + enc_entry_items(pp.take(0)) =~= base);
    }
    while i < n
        invariant
            lf.wf(),
            n == lf.packages.spec_len(),
            pp == lf.packages_pairs(),
            i <= n,
            forall|j: int| 0 <= j < i ==> entry_fits((#[trigger] pp[j]).0, pp[j].1),
            packages_buf@ == base + enc_entry_items(pp.take(i as int)),
        decreases n - i,
    {
        let key = lf.packages.key_at(i);
        let entry = lf.packages.val_at(i);
        proof {
            assert(pp[i as int] == (key@, entry.view()));
        }
        match write_entry(&mut packages_buf, key.as_str(), entry) {
            Ok(()) => {},
            Err(e) => {
                return Err(e);
            },
        }
        proof {
            assert(pp.take(i + 1) =~= pp.take(i as int).push(pp[i as int]));
            lemma_enc_entry_items_snoc(pp.take(i as int), pp[i as int]);
            assert(packages_buf@ =~= base + enc_entry_items(pp.take(i + 1)));
        }
        i = i + 1;
    }
    proof {
        assert(pp.take(n as int) =~= pp);
        assert(packages_buf@ =~= enc_packages(pp));
    }
    if packages_buf.len() > MAX_LOCKFILE_SIZE {
        return Err(LockError::TooLarge);
    }
    let ghost sec = packages_buf@;
    let mut buf = magic_bytes();
    write_u16(&mut buf, CURRENT_WIRE_VERSION);
    write_u16(&mut buf, 0);
    write_u32(&mut buf, lf.format);
    match write_len(&mut buf, packages_buf.len()) {
        Ok(()) => {},
        Err(_) => {
            proof {
                assert(false);
            }
            return Err(LockError::TooLarge);
        },
    }
    buf.append(&mut packages_buf);
    write_u32(&mut buf, 0);
    if buf.len() > MAX_LOCKFILE_SIZE {
        proof {
            lemma_enc_u16_len(CURRENT_WIRE_VERSION);
            lemma_enc_u16_len(0);
            lemma_enc_u32_len(lf.format);
            lemma_enc_u32_len(sec.len() as u32);
            lemma_enc_u32_len(0);
        }
        return Err(LockError::TooLarge);
    }
    proof {
        lemma_enc_u16_len(CURRENT_WIRE_VERSION);
        lemma_enc_u16_len(0);
        lemma_enc_u32_len(lf.format);
        lemma_enc_u32_len(sec.len() as u32);
        lemma_enc_u32_len(0);
        let m0 = spec_magic();
        let s1 = enc_u16(CURRENT_WIRE_VERSION);
        let s2 = enc_u16(0);
        let s3 = enc_u32(lf.format);
        let s4 = enc_u32(sec.len() as u32);
        let s6 = enc_u32(0);
        let l1 = m0 + s1;
        let l2 = l1 + s2;
        let l3 = l2 + s3;
        let l4 = l3 + s4;
        let l5 = l4 + sec;
        let l6 = l5 + s6;
        assert(buf@ == l6);
        let r6 = s6;
        let r5 = sec + r6;
        let r4 = s4 + r5;
        let r3 = s3 + r4;
        let r2 = s2 + r3;
        let r1 = s1 + r2;
        assert(l6 =~= m0 + r1) by {
            assert(l5 + s6 =~= l4 + (sec + s6));
            assert(l4 + r5 =~= l3 + (s4 + r5));
            assert(l3 + r4 =~= l2 + (s3 + r4));
            assert(l2 + r3 =~= l1 + (s2 + r3));
            assert(l1 + r2 =~= m0 + (s1 + r2));
        }
        assert(enc_lockfile(lf.format, pp) == m0 + r1);
        assert(buf@ == enc_lockfile(lf.format, pp));
        assert(lockfile_fits(pp));
        lemma_dec_enc_lockfile(lf.format, pp);
    }
    Ok(buf)
}

/// The lockfile codec round-trips: decoding the encoding of a well-formed
/// lockfile yields exactly its format and its entries, key for key and field
/// for field.
pub proof fn lemma_encode_decode_round_trip(lf: Lockfile)
    requires
        lf.wf(),
        lockfile_fits(lf.packages_pairs()),
    ensures
        dec_lockfile(enc_lockfile(lf.format, lf.packages_pairs())) == Option::Some(
            (lf.format, lf.packages_pairs()),
        ),
{
    lemma_dec_enc_lockfile(lf.format, lf.packages_pairs());
}

/// Law: the written lockfile is deterministic. The encoded bytes are a
/// function of the format number and the entry views alone, so two installs
/// that settle on the same contents write byte-identical lockfiles.
pub proof fn lemma_encode_deterministic(a: Lockfile, b: Lockfile)
    requires
        a.format == b.format,
        a.packages_pairs() == b.packages_pairs(),
    ensures
        enc_lockfile(a.format, a.packages_pairs()) == enc_lockfile(b.format, b.packages_pairs()),
{
}

/// The entry pairs of a well-formed lockfile are sorted and canonical, so a
/// decoder that reads them back rebuilds the identical pair list.
pub proof fn lemma_wf_lockfile_canonical(lf: Lockfile)
    requires
        lf.wf(),
    ensures
        pairs_sorted(lf.packages_pairs()),
        all_entries_canonical(lf.packages_pairs()),
{
    let pp = lf.packages_pairs();
    assert forall|i: int, j: int| 0 <= i < j < pp.len() implies crate::strutil::seq_char_lt(
        (#[trigger] pp[i]).0,
        (#[trigger] pp[j]).0,
    ) by {
        assert(pp[i].0 == lf.packages.pairs_view()[i].0);
        assert(pp[j].0 == lf.packages.pairs_view()[j].0);
    }
    assert forall|i: int| 0 <= i < pp.len() implies entry_view_canonical((#[trigger] pp[i]).1) by {
        lf.lemma_entry_at_wf(i);
        assert(pp[i].1 == lf.packages.pairs_view()[i].1.view());
        lemma_wf_entry_canonical(lf.packages.pairs_view()[i].1);
    }
}

} // verus!
