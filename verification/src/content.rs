//! The store's content hash: a digest over a canonical walk of a package
//! tree. The walk's records are sorted by relative path and mixed into one
//! byte stream — path, kind, size, a readonly bit, and the file digest —
//! which is hashed and rendered in hex. Permissions are reduced to the
//! readonly bit so the hash is portable.

use vstd::prelude::*;

verus! {

use crate::strutil::{seq_char_lt, string_to_chars, chars_lt};
use crate::hashes::{sha256_of, hex_of, sha256_digest, hex_encode};
use vstd::utf8::encode_utf8;
use vstd::bytes::{spec_u64_to_le_bytes, u64_to_le_bytes};

/// One record of the canonical walk.
pub struct ContentEntry {
    /// Relative path with forward slashes.
    pub path: String,
    pub dir: bool,
    pub size: u64,
    pub readonly: bool,
    /// The SHA-256 of the file's bytes; empty for a directory.
    pub digest: Vec<u8>,
}

/// The view of a record.
pub open spec fn ce_view(e: ContentEntry) -> (Seq<char>, bool, u64, bool, Seq<u8>) {
    (e.path@, e.dir, e.size, e.readonly, e.digest@)
}

pub open spec fn ce_views(es: Seq<ContentEntry>) -> Seq<(Seq<char>, bool, u64, bool, Seq<u8>)> {
    es.map_values(|e: ContentEntry| ce_view(e))
}

/// The bytes one record contributes: its path, a zero, its kind letter, its
/// size little-endian, the readonly bit, and for a file its digest.
pub open spec fn entry_bytes(e: (Seq<char>, bool, u64, bool, Seq<u8>)) -> Seq<u8> {
    encode_utf8(e.0) + seq![0u8] + seq![
        if e.1 {
            100u8
        } else {
            102u8
        },
    ] + spec_u64_to_le_bytes(e.2) + seq![
        if e.3 {
            1u8
        } else {
            0u8
        },
    ] + (if e.1 {
        Seq::<u8>::empty()
    } else {
        e.4
    })
}

pub open spec fn stream_of(es: Seq<(Seq<char>, bool, u64, bool, Seq<u8>)>) -> Seq<u8>
    decreases es.len(),
{
    if es.len() == 0 {
        Seq::empty()
    } else {
        entry_bytes(es[0]) + stream_of(es.drop_first())
    }
}

/// Insert a record into a path-sorted list, after equal paths.
pub open spec fn insert_by_path(
    e: (Seq<char>, bool, u64, bool, Seq<u8>),
    s: Seq<(Seq<char>, bool, u64, bool, Seq<u8>)>,
) -> Seq<(Seq<char>, bool, u64, bool, Seq<u8>)>
    decreases s.len(),
{
    if s.len() == 0 {
        seq![e]
    } else if seq_char_lt(e.0, s[0].0) {
        seq![e] + s
    } else {
        seq![s[0]] + insert_by_path(e, s.drop_first())
    }
}

/// Stable insertion sort by path.
pub open spec fn sort_by_path(s: Seq<(Seq<char>, bool, u64, bool, Seq<u8>)>) -> Seq<
    (Seq<char>, bool, u64, bool, Seq<u8>),
>
    decreases s.len(),
{
    if s.len() == 0 {
        Seq::empty()
    } else {
        insert_by_path(s.last(), sort_by_path(s.drop_last()))
    }
}

/// The content hash: hex of the SHA-256 of the sorted records' byte stream.
pub open spec fn content_hash_spec(es: Seq<(Seq<char>, bool, u64, bool, Seq<u8>)>) -> Seq<char> {
    hex_of(sha256_of(stream_of(sort_by_path(es))))
}

/// The first position whose path is strictly above the probe path.
fn find_path_pos(out: &Vec<ContentEntry>, pv: &Vec<char>) -> (r: usize)
    ensures
        r <= out@.len(),
        forall|j: int| 0 <= j < r ==> !seq_char_lt(pv@, ce_views(out@)[j].0),
        r < out@.len() ==> seq_char_lt(pv@, ce_views(out@)[r as int].0),
{
    let m = out.len();
    let mut pos: usize = 0;
    loop
        invariant
            m == out@.len(),
            pos <= m,
            forall|j: int| 0 <= j < pos ==> !seq_char_lt(pv@, ce_views(out@)[j].0),
        decreases m - pos,
    {
        if pos >= m {
            return pos;
        }
        let ev = string_to_chars(out[pos].path.as_str());
        proof {
            assert(ce_views(out@)[pos as int].0 == out@[pos as int].path@);
        }
        if chars_lt(pv, &ev) {
            return pos;
        }
        pos = pos + 1;
    }
}

/// Inserting at that position realizes the specification insert.
proof fn lemma_insert_by_path_at(
    e: (Seq<char>, bool, u64, bool, Seq<u8>),
    s: Seq<(Seq<char>, bool, u64, bool, Seq<u8>)>,
    pos: int,
)
    requires
        0 <= pos <= s.len(),
        forall|j: int| 0 <= j < pos ==> !seq_char_lt(e.0, s[j].0),
        pos < s.len() ==> seq_char_lt(e.0, s[pos].0),
    ensures
        insert_by_path(e, s) =~= s.insert(pos, e),
    decreases s.len(),
{
    if s.len() == 0 {
        assert(s.insert(0, e) =~= seq![e]);
    } else if pos == 0 {
        assert(insert_by_path(e, s) == seq![e] + s);
        assert(s.insert(0, e) =~= seq![e] + s);
    } else {
        lemma_insert_by_path_at(e, s.drop_first(), pos - 1);
        assert(insert_by_path(e, s) == seq![s[0]] + insert_by_path(e, s.drop_first()));
        assert(s.insert(pos, e) =~= seq![s[0]] + s.drop_first().insert(pos - 1, e));
    }
}

/// Appending a record to the list appends its bytes to the stream.
proof fn lemma_stream_snoc(
    es: Seq<(Seq<char>, bool, u64, bool, Seq<u8>)>,
    e: (Seq<char>, bool, u64, bool, Seq<u8>),
)
    ensures
        stream_of(es.push(e)) =~= stream_of(es) + entry_bytes(e),
    decreases es.len(),
{
    if es.len() == 0 {
        assert(es.push(e)[0] == e);
        assert(es.push(e).drop_first() =~= Seq::<(Seq<char>, bool, u64, bool, Seq<u8>)>::empty());
        assert(stream_of(es.push(e)) == entry_bytes(e) + stream_of(es.push(e).drop_first()));
        assert(stream_of(es.push(e).drop_first()) == Seq::<u8>::empty());
        assert(stream_of(es) == Seq::<u8>::empty());
    } else {
        assert(es.push(e)[0] == es[0]);
        assert(es.push(e).drop_first() =~= es.drop_first().push(e));
        lemma_stream_snoc(es.drop_first(), e);
        assert(stream_of(es.push(e)) == entry_bytes(es[0]) + stream_of(es.drop_first().push(e)));
        assert(stream_of(es) == entry_bytes(es[0]) + stream_of(es.drop_first()));
    }
}

/// Hash the canonical walk: sort the records by path, mix each into the
/// stream, digest and render.
#[verifier::rlimit(100)]
#[verifier::spinoff_prover]
pub fn content_hash_of_entries(entries: Vec<ContentEntry>) -> (r: String)
    ensures
        r@ == content_hash_spec(ce_views(entries@)),
{
    // sort by path, keeping equal paths in order
    let mut sorted: Vec<ContentEntry> = Vec::new();
    let mut entries = entries;
    let ghost all = ce_views(entries@);
    let mut taken: usize = 0;
    proof {
        assert(ce_views(sorted@) =~= sort_by_path(all.take(0)));
        assert(ce_views(entries@) =~= all.skip(0));
    }
    let el = entries.len();
    let ghost bound = el as int;
    while entries.len() > 0
        invariant
            taken + entries@.len() == all.len(),
            all.len() <= bound <= usize::MAX,
            ce_views(entries@) =~= all.skip(taken as int),
            ce_views(sorted@) == sort_by_path(all.take(taken as int)),
        decreases entries@.len(),
    {
        let ghost preventries = entries@;
        let e = entries.remove(0);
        proof {
            assert(ce_views(preventries)[0] == all[taken as int]);
            assert(ce_view(e) == all[taken as int]);
            assert(ce_views(entries@) =~= ce_views(preventries).drop_first());
            assert(ce_views(entries@) =~= all.skip(taken + 1));
        }
        let pv = string_to_chars(e.path.as_str());
        let pos = find_path_pos(&sorted, &pv);
        let ghost oldviews = ce_views(sorted@);
        let ghost specpos = pos as int;
        if pos < sorted.len() {
            sorted.insert(pos, e);
        } else {
            sorted.push(e);
        }
        proof {
            lemma_insert_by_path_at(all[taken as int], oldviews, specpos);
            if specpos < oldviews.len() {
                assert(ce_views(sorted@) =~= oldviews.insert(specpos, all[taken as int]));
            } else {
                assert(ce_views(sorted@) =~= oldviews.push(all[taken as int]));
                assert(oldviews.insert(specpos, all[taken as int]) =~= oldviews.push(
                    all[taken as int],
                ));
            }
            assert(ce_views(sorted@) == insert_by_path(all[taken as int], oldviews));
            assert(all.take(taken + 1).drop_last() =~= all.take(taken as int));
            assert(all.take(taken + 1).last() == all[taken as int]);
        }
        taken = taken + 1;
    }
    proof {
        assert(all.take(all.len() as int) =~= all);
    }
    // mix the records into the stream
    let mut stream: Vec<u8> = Vec::new();
    let ghost svs = ce_views(sorted@);
    let n = sorted.len();
    let mut i: usize = 0;
    proof {
        assert(svs.take(0) =~= Seq::<(Seq<char>, bool, u64, bool, Seq<u8>)>::empty());
        assert(stream@ =~= stream_of(svs.take(0)));
    }
    while i < n
        invariant
            n == sorted@.len(),
            svs == ce_views(sorted@),
            i <= n,
            stream@ == stream_of(svs.take(i as int)),
        decreases n - i,
    {
        let ghost oldstream = stream@;
        let e = &sorted[i];
        proof {
            assert(svs[i as int] == ce_view(sorted@[i as int]));
        }
        let pb = vstd::string::StrSliceExecFns::as_bytes_vec(e.path.as_str());
        let mut piece: Vec<u8> = Vec::new();
        piece.append(&mut { pb });
        piece.push(0u8);
        piece.push(if e.dir {
            100u8
        } else {
            102u8
        });
        let sz = u64_to_le_bytes(e.size);
        piece.append(&mut { sz });
        piece.push(if e.readonly {
            1u8
        } else {
            0u8
        });
        if !e.dir {
            let mut k: usize = 0;
            let dn = e.digest.len();
            let ghost mid = piece@;
            while k < dn
                invariant
                    dn == e.digest@.len(),
                    k <= dn,
                    piece@ =~= mid + e.digest@.take(k as int),
                decreases dn - k,
            {
                piece.push(e.digest[k]);
                k = k + 1;
                proof {
                    assert(piece@ =~= mid + e.digest@.take(k as int));
                }
            }
            proof {
                assert(e.digest@.take(dn as int) =~= e.digest@);
            }
        }
        proof {
            assert(piece@ =~= entry_bytes(svs[i as int]));
        }
        let mut piece2 = piece;
        stream.append(&mut piece2);
        proof {
            assert(svs.take(i + 1) =~= svs.take(i as int).push(svs[i as int]));
            lemma_stream_snoc(svs.take(i as int), svs[i as int]);
            assert(stream@ =~= stream_of(svs.take(i + 1)));
        }
        i = i + 1;
    }
    proof {
        assert(svs.take(n as int) =~= svs);
        assert(stream@ == stream_of(sort_by_path(all)));
    }
    let digest = sha256_digest(&stream);
    hex_encode(&digest)
}

} // verus!
