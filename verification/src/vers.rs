//! The crate's view of the semver solver. A parsed version or requirement
//! is carried together with the text it was parsed from, so that contracts
//! can speak of parsing, matching and precedence as relations on the texts
//! themselves. The pairing is unforgeable: the fields are private, and the
//! only constructors are the parse functions below, which set the text to
//! exactly the string the solver parsed. The trusted contracts on
//! `req_matches` and `version_lt` are true of the semver source only under
//! that pairing, which is why nothing else may build these values.

use vstd::prelude::*;

verus! {

/// Whether the semver solver accepts a string as an exact version.
pub uninterp spec fn semver_version_ok(s: Seq<char>) -> bool;

/// Whether the semver solver accepts a string as a requirement.
pub uninterp spec fn semver_req_ok(s: Seq<char>) -> bool;

/// Whether the version written `ver` satisfies the requirement written `req`,
/// under the solver's matching rules.
pub uninterp spec fn semver_matches(req: Seq<char>, ver: Seq<char>) -> bool;

/// The solver's precedence order on version texts: `a` is lower than `b`.
pub uninterp spec fn semver_lt(a: Seq<char>, b: Seq<char>) -> bool;

/// Relies on `semver::Version::parse`: whether a text parses depends on the
/// text alone.
#[verifier::external_body]
pub fn version_parse_ok(s: &str) -> (r: bool)
    ensures
        r == semver_version_ok(s@),
{
    semver::Version::parse(s).is_ok()
}

/// A version value of the solver, paired with the text it was parsed from.
/// Only `parse_version` builds one, so the value always is the parse of its
/// text.
pub struct ParsedVersion {
    inner: semver::Version,
    src: Ghost<Seq<char>>,
}

/// A requirement value of the solver, paired with the text it was parsed
/// from. Only `parse_req` builds one, so the value always is the parse of
/// its text.
pub struct ParsedReq {
    inner: semver::VersionReq,
    src: Ghost<Seq<char>>,
}

impl ParsedVersion {
    /// The text this version was parsed from.
    pub closed spec fn text(&self) -> Seq<char> {
        self.src@
    }
}

impl ParsedReq {
    /// The text this requirement was parsed from.
    pub closed spec fn text(&self) -> Seq<char> {
        self.src@
    }
}

#[verifier::external_type_specification]
#[verifier::external_body]
pub struct ExSemverVersion(semver::Version);

#[verifier::external_type_specification]
#[verifier::external_body]
pub struct ExSemverVersionReq(semver::VersionReq);

/// Relies on `semver::Version::parse`: whether a text parses depends on the
/// text alone.
#[verifier::external_body]
fn parse_version_raw(s: &str) -> (r: Option<semver::Version>)
    ensures
        r is Some <==> semver_version_ok(s@),
{
    semver::Version::parse(s).ok()
}

/// A parsed version stands for exactly the text it was parsed from.
pub fn parse_version(s: &str) -> (r: Option<ParsedVersion>)
    ensures
        r is Some <==> semver_version_ok(s@),
        r is Some ==> r->0.text() == s@,
{
    match parse_version_raw(s) {
        Some(v) => Some(ParsedVersion { inner: v, src: Ghost(s@) }),
        None => None,
    }
}

/// Relies on `semver::VersionReq::parse`: whether a text parses depends on
/// the text alone.
#[verifier::external_body]
fn parse_req_raw(s: &str) -> (r: Option<semver::VersionReq>)
    ensures
        r is Some <==> semver_req_ok(s@),
{
    semver::VersionReq::parse(s).ok()
}

/// A parsed requirement stands for exactly the text it was parsed from.
pub fn parse_req(s: &str) -> (r: Option<ParsedReq>)
    ensures
        r is Some <==> semver_req_ok(s@),
        r is Some ==> r->0.text() == s@,
{
    match parse_req_raw(s) {
        Some(v) => Some(ParsedReq { inner: v, src: Ghost(s@) }),
        None => None,
    }
}

/// Relies on `semver::VersionReq::matches`: the answer depends on the two
/// parsed texts alone. Sound because every value of these types is the
/// parse of its text.
#[verifier::external_body]
pub fn req_matches(req: &ParsedReq, ver: &ParsedVersion) -> (r: bool)
    ensures
        r == semver_matches(req.text(), ver.text()),
{
    req.inner.matches(&ver.inner)
}

/// Relies on `Ord for semver::Version`: the precedence order depends on the
/// two parsed texts alone; being a total order, it is asymmetric and
/// transitive, which the conditional clauses state. Sound because every
/// value of this type is the parse of its text.
#[verifier::external_body]
pub fn version_lt(a: &ParsedVersion, b: &ParsedVersion) -> (r: bool)
    ensures
        r == semver_lt(a.text(), b.text()),
        r ==> !semver_lt(b.text(), a.text()),
        r ==> forall|c: Seq<char>| semver_lt(b.text(), c) ==> semver_lt(a.text(), c),
{
    a.inner < b.inner
}

} // verus!
