//! The resolver: pick a concrete version out of a candidate set, given a
//! range or an OR set of ranges. Each alternative is canonicalized and
//! handed to the semver solver; the highest candidate satisfying any
//! alternative wins.

use vstd::prelude::*;

verus! {

use crate::strutil::{string_to_chars, chars_to_string};
use crate::canon::{canon_spec, canonicalize_npm_range, trim_sp, or_at, has_or};
use crate::vers::{
    semver_req_ok, semver_matches, semver_lt, semver_version_ok, parse_req, parse_version,
    req_matches, version_lt, ParsedReq, ParsedVersion,
};

#[derive(Clone, Copy, PartialEq, Eq, Structural, Debug)]
pub enum ResolveError {
    /// An alternative was not accepted by the solver after canonicalization.
    InvalidRange,
    /// An OR set with nothing left after trimming its alternatives.
    EmptyOrRange,
    /// No candidate satisfies the request.
    NoMatch,
}

/// Split on `||`, scanning left to right.
pub open spec fn or_parts_rec(s: Seq<char>, i: int, cur: Seq<char>) -> Seq<Seq<char>>
    decreases s.len() - i,
{
    if i < 0 || i >= s.len() {
        seq![cur]
    } else if or_at(s, i) {
        seq![cur] + or_parts_rec(s, i + 2, Seq::empty())
    } else {
        or_parts_rec(s, i + 1, cur.push(s[i]))
    }
}

pub open spec fn or_parts(s: Seq<char>) -> Seq<Seq<char>> {
    or_parts_rec(s, 0, Seq::empty())
}

/// Trim each part and drop the empties.
pub open spec fn cleaned_parts(ps: Seq<Seq<char>>) -> Seq<Seq<char>>
    decreases ps.len(),
{
    if ps.len() == 0 {
        Seq::empty()
    } else {
        let rest = cleaned_parts(ps.drop_last());
        if trim_sp(ps.last()).len() > 0 {
            rest.push(trim_sp(ps.last()))
        } else {
            rest
        }
    }
}

/// The alternatives of a range: for an OR set, its parts trimmed with the
/// empties dropped; otherwise the whole range.
pub open spec fn alternatives(range: Seq<char>) -> Seq<Seq<char>> {
    if has_or(range) {
        cleaned_parts(or_parts(range))
    } else {
        seq![range]
    }
}

/// Canonicalize each alternative.
pub open spec fn canon_texts(ps: Seq<Seq<char>>) -> Seq<Seq<char>>
    decreases ps.len(),
{
    if ps.len() == 0 {
        Seq::empty()
    } else {
        canon_texts(ps.drop_last()).push(canon_spec(ps.last()))
    }
}

/// The canonicalized request texts the solver is asked to parse.
#[verifier::opaque]
pub open spec fn request_texts(range: Seq<char>) -> Seq<Seq<char>> {
    canon_texts(alternatives(range))
}

/// Each request text is the canonicalization of its alternative.
pub proof fn lemma_canon_texts_at(ps: Seq<Seq<char>>, i: int)
    requires
        0 <= i < ps.len(),
    ensures
        canon_texts(ps).len() == ps.len(),
        canon_texts(ps)[i] == canon_spec(ps[i]),
    decreases ps.len(),
{
    if i == ps.len() - 1 {
        lemma_canon_texts_len(ps.drop_last());
    } else {
        lemma_canon_texts_at(ps.drop_last(), i);
    }
}

pub proof fn lemma_canon_texts_len(ps: Seq<Seq<char>>)
    ensures
        canon_texts(ps).len() == ps.len(),
    decreases ps.len(),
{
    if ps.len() > 0 {
        lemma_canon_texts_len(ps.drop_last());
    }
}

/// Whether a version satisfies any of the requests.
pub open spec fn any_matches(reqs: Seq<Seq<char>>, ver: Seq<char>) -> bool {
    exists|i: int| 0 <= i < reqs.len() && semver_matches(#[trigger] reqs[i], ver)
}

/// The candidate views: version text and tarball text.
pub open spec fn cand_views(v: Seq<(String, String)>) -> Seq<(Seq<char>, Seq<char>)> {
    v.map_values(|p: (String, String)| (p.0@, p.1@))
}

pub struct Resolver;

impl Resolver {
    pub fn new() -> (r: Self) {
        Resolver
    }

    /// Pick the highest candidate version satisfying the range. Candidates
    /// whose version text the solver does not accept are passed over, as a
    /// registry candidate map only holds parseable versions.
    #[verifier::rlimit(100)]
    #[verifier::spinoff_prover]
    pub fn pick_version(&self, versions: &Vec<(String, String)>, range: &str) -> (r: Result<
        (String, String),
        ResolveError,
    >)
        ensures
            ({
                let reqs = request_texts(range@);
                let cands = cand_views(versions@);
                match r {
                    Ok(picked) => {
                        &&& reqs.len() > 0
                        &&& forall|i: int| 0 <= i < reqs.len() ==> semver_req_ok(#[trigger] reqs[i])
                        &&& exists|i: int|
                            0 <= i < cands.len() && #[trigger] cands[i] == (picked.0@, picked.1@)
                        &&& semver_version_ok(picked.0@)
                        &&& any_matches(reqs, picked.0@)
                        &&& forall|j: int|
                            0 <= j < cands.len() && semver_version_ok((#[trigger] cands[j]).0)
                                && any_matches(reqs, cands[j].0) ==> !semver_lt(
                                picked.0@,
                                cands[j].0,
                            )
                    },
                    Err(ResolveError::EmptyOrRange) => reqs.len() == 0,
                    Err(ResolveError::InvalidRange) => reqs.len() > 0 && exists|i: int|
                        0 <= i < reqs.len() && !semver_req_ok(#[trigger] reqs[i]),
                    Err(ResolveError::NoMatch) => {
                        &&& reqs.len() > 0
                        &&& forall|i: int| 0 <= i < reqs.len() ==> semver_req_ok(#[trigger] reqs[i])
                        &&& forall|j: int|
                            0 <= j < cands.len() ==> !(semver_version_ok((#[trigger] cands[j]).0)
                                && any_matches(reqs, cands[j].0))
                    },
                }
            }),
    {
        let ghost greqs = request_texts(range@);
        let rv = string_to_chars(range);
        let is_or = crate::canon::chars_has_or(&rv);
        let mut alt_strings: Vec<String> = Vec::new();
        if is_or {
            // split on `||`, trim, drop empties
            let mut parts: Vec<Vec<char>> = Vec::new();
            let mut cur: Vec<char> = Vec::new();
            let n = rv.len();
            let mut i: usize = 0;
            proof {
                assert(or_parts(range@) == parts@.map_values(|t: Vec<char>| t@) + or_parts_rec(
                    range@,
                    0,
                    cur@,
                ));
            }
            while i < n
                invariant
                    n == rv@.len(),
                    rv@ == range@,
                    i <= n,
                    or_parts(range@) == parts@.map_values(|t: Vec<char>| t@) + or_parts_rec(
                        range@,
                        i as int,
                        cur@,
                    ),
                decreases n - i,
            {
                let ghost oldparts = parts@;
                let ghost oldcur = cur@;
                if i + 1 < n && rv[i] == '|' && rv[i + 1] == '|' {
                    proof {
                        assert(or_at(range@, i as int));
                    }
                    parts.push(cur);
                    cur = Vec::new();
                    proof {
                        assert(parts@.map_values(|t: Vec<char>| t@) =~= oldparts.map_values(
                            |t: Vec<char>| t@,
                        ).push(oldcur));
                        assert(or_parts_rec(range@, i as int, oldcur) == seq![oldcur]
                            + or_parts_rec(range@, i + 2, Seq::<char>::empty()));
                        assert(oldparts.map_values(|t: Vec<char>| t@) + (seq![oldcur]
                            + or_parts_rec(range@, i + 2, Seq::<char>::empty())) =~= parts@
                            .map_values(|t: Vec<char>| t@) + or_parts_rec(
                            range@,
                            i + 2,
                            Seq::<char>::empty(),
                        ));
                    }
                    i = i + 2;
                } else {
                    proof {
                        assert(!or_at(range@, i as int));
                    }
                    cur.push(rv[i]);
                    i = i + 1;
                }
            }
            let ghost oldparts = parts@;
            let ghost oldcur = cur@;
            parts.push(cur);
            proof {
                assert(or_parts_rec(range@, n as int, oldcur) == seq![oldcur]);
                assert(parts@.map_values(|t: Vec<char>| t@) =~= oldparts.map_values(
                    |t: Vec<char>| t@,
                ) + seq![oldcur]);
                assert(parts@.map_values(|t: Vec<char>| t@) == or_parts(range@));
            }
            // trim and drop empties
            let m = parts.len();
            let mut k: usize = 0;
            let ghost pviews = parts@.map_values(|t: Vec<char>| t@);
            proof {
                assert(pviews.take(0) =~= Seq::<Seq<char>>::empty());
                assert(alt_strings@.map_values(|s: String| s@) =~= cleaned_parts(pviews.take(0)));
            }
            while k < m
                invariant
                    m == pviews.len(),
                    pviews == parts@.map_values(|t: Vec<char>| t@),
                    k <= m,
                    alt_strings@.map_values(|s: String| s@) == cleaned_parts(pviews.take(k as int)),
                decreases m - k,
            {
                let ghost oldalts = alt_strings@.map_values(|s: String| s@);
                let t = crate::canon::trim_chars(&parts[k]);
                proof {
                    assert(pviews[k as int] == parts@[k as int]@);
                    assert(pviews.take(k + 1).drop_last() =~= pviews.take(k as int));
                    assert(pviews.take(k + 1).last() == pviews[k as int]);
                }
                if t.len() > 0 {
                    alt_strings.push(chars_to_string(&t));
                    proof {
                        assert(alt_strings@.map_values(|s: String| s@) =~= oldalts.push(
                            trim_sp(pviews[k as int]),
                        ));
                    }
                } else {
                    proof {
                        assert(alt_strings@.map_values(|s: String| s@) =~= oldalts);
                    }
                }
                k = k + 1;
            }
            proof {
                assert(pviews.take(m as int) =~= pviews);
                assert(alt_strings@.map_values(|s: String| s@) == alternatives(range@));
            }
        } else {
            let one = chars_to_string(&rv);
            alt_strings.push(one);
            proof {
                assert(alt_strings@.map_values(|s: String| s@) =~= seq![range@]);
            }
        }
        // canonicalize and parse every alternative
        proof {
            reveal(request_texts);
            lemma_canon_texts_len(alternatives(range@));
            assert(greqs.len() == alternatives(range@).len());
        }
        if alt_strings.len() == 0 {
            proof {
                assert(greqs.len() == 0);
            }
            return Err(ResolveError::EmptyOrRange);
        }
        let mut reqs: Vec<ParsedReq> = Vec::new();
        let na = alt_strings.len();
        let mut a: usize = 0;
        while a < na
            invariant
                na == alt_strings@.len(),
                alt_strings@.map_values(|s: String| s@) == alternatives(range@),
                greqs == request_texts(range@),
                greqs.len() == na,
                a <= na,
                reqs@.len() == a,
                forall|j: int| 0 <= j < a ==> (#[trigger] reqs@[j]).text() == greqs[j],
                forall|j: int| 0 <= j < a ==> semver_req_ok(#[trigger] greqs[j]),
            decreases na - a,
        {
            let canon = canonicalize_npm_range(alt_strings[a].as_str());
            proof {
                reveal(request_texts);
                assert(alternatives(range@)[a as int] == alt_strings@[a as int]@);
                lemma_canon_texts_at(alternatives(range@), a as int);
                assert(greqs[a as int] == canon_spec(alt_strings@[a as int]@));
            }
            match parse_req(canon.as_str()) {
                Some(req) => {
                    reqs.push(req);
                },
                None => {
                    proof {
                        assert(!semver_req_ok(greqs[a as int]));
                    }
                    return Err(ResolveError::InvalidRange);
                },
            }
            a = a + 1;
        }
        // scan the candidates, keeping the highest match
        let ghost cands = cand_views(versions@);
        let nc = versions.len();
        let mut best: Option<(ParsedVersion, usize)> = None;
        let mut c: usize = 0;
        while c < nc
            invariant
                nc == cands.len(),
                cands == cand_views(versions@),
                greqs == request_texts(range@),
                c <= nc,
                reqs@.len() == greqs.len(),
                forall|j: int| 0 <= j < reqs@.len() ==> (#[trigger] reqs@[j]).text() == greqs[j],
                match best {
                    Some(b) => {
                        &&& b.1 < c
                        &&& b.0.text() == cands[b.1 as int].0
                        &&& semver_version_ok(b.0.text())
                        &&& any_matches(greqs, b.0.text())
                        &&& forall|j: int|
                            0 <= j < c && semver_version_ok((#[trigger] cands[j]).0)
                                && any_matches(greqs, cands[j].0) ==> !semver_lt(
                                b.0.text(),
                                cands[j].0,
                            )
                    },
                    None => forall|j: int|
                        0 <= j < c ==> !(semver_version_ok((#[trigger] cands[j]).0) && any_matches(
                            greqs,
                            cands[j].0,
                        )),
                },
            decreases nc - c,
        {
            proof {
                assert(cands[c as int] == (versions@[c as int].0@, versions@[c as int].1@));
            }
            match parse_version(versions[c].0.as_str()) {
                None => {
                    proof {
                        assert(!semver_version_ok(cands[c as int].0));
                    }
                },
                Some(pv) => {
                    // does it match any alternative?
                    let nr = reqs.len();
                    let mut q: usize = 0;
                    let mut matched = false;
                    while q < nr
                        invariant
                            nr == reqs@.len(),
                            nr == greqs.len(),
                            forall|j: int|
                                0 <= j < reqs@.len() ==> (#[trigger] reqs@[j]).text() == greqs[j],
                            q <= nr,
                            pv.text() == cands[c as int].0,
                            matched ==> any_matches(greqs, pv.text()),
                            !matched ==> forall|j: int|
                                0 <= j < q ==> !semver_matches(#[trigger] greqs[j], pv.text()),
                        decreases nr - q,
                    {
                        if req_matches(&reqs[q], &pv) {
                            matched = true;
                            proof {
                                assert(semver_matches(greqs[q as int], pv.text()));
                            }
                        }
                        q = q + 1;
                    }
                    if matched {
                        // comparing the candidate with itself pins down that
                        // the order is irreflexive on it
                        let _irreflexive = version_lt(&pv, &pv);
                        proof {
                            assert(!semver_lt(pv.text(), pv.text()));
                        }
                        match &best {
                            None => {
                                best = Some((pv, c));
                            },
                            Some(b) => {
                                if version_lt(&b.0, &pv) {
                                    let ghost oldb = b.0.text();
                                    best = Some((pv, c));
                                    proof {
                                        assert forall|j: int|
                                            0 <= j < c && semver_version_ok(
                                                (#[trigger] cands[j]).0,
                                            ) && any_matches(greqs, cands[j].0) implies !semver_lt(
                                            cands[c as int].0,
                                            cands[j].0,
                                        ) by {
                                            assert(!semver_lt(oldb, cands[j].0));
                                            if semver_lt(cands[c as int].0, cands[j].0) {
                                                assert(semver_lt(oldb, cands[j].0));
                                            }
                                        }
                                    }
                                }
                            },
                        }
                    }
                },
            }
            c = c + 1;
        }
        match best {
            Some(b) => {
                let idx = b.1;
                let v = versions[idx].0.clone();
                let t = versions[idx].1.clone();
                proof {
                    assert(cands[idx as int] == (v@, t@));
                }
                Ok((v, t))
            },
            None => Err(ResolveError::NoMatch),
        }
    }
}

} // verus!
