//! Semantic versions (`major.minor.patch`) and version requirements.
use vstd::prelude::*;
use vstd::string::*;
use crate::cache_file::{decimal, u64_text};

verus! {

/// What `semver::Version::parse` makes of a text: its major, minor and patch
/// numbers, its pre-release text and its build text; `None` when the text is
/// no semantic version.
pub uninterp spec fn semver_parts(text: Seq<char>) -> Option<(u64, u64, u64, Seq<char>, Seq<char>)>;

/// What a requirement text says of version `major.minor.patch`: `None` when
/// `semver::VersionReq::parse` refuses the text, else whether the parsed
/// requirement matches the version.
pub uninterp spec fn semver_req_verdict(req: Seq<char>, major: u64, minor: u64, patch: u64) -> Option<bool>;

/// Relies on `semver::Version::parse`, read back through the version's public
/// fields and its pre-release and build texts.
#[verifier::external_body]
fn semver_parse(text: &str) -> (r: Option<(u64, u64, u64, String, String)>)
    ensures
        r is None ==> semver_parts(text@) is None,
        r matches Some(p) ==> semver_parts(text@) == Some((p.0, p.1, p.2, p.3@, p.4@)),
{
    semver::Version::parse(text).ok().map(
        |v| (v.major, v.minor, v.patch, v.pre.as_str().to_string(), v.build.as_str().to_string()),
    )
}

/// Relies on `semver::VersionReq::parse` and `semver::VersionReq::matches`:
/// whether the text parses does not depend on the version it is matched with.
#[verifier::external_body]
fn semver_matches(req: &str, major: u64, minor: u64, patch: u64) -> (r: Option<bool>)
    ensures
        r == semver_req_verdict(req@, major, minor, patch),
        r is Some <==> semver_req_verdict(req@, 0, 0, 0) is Some,
{
    semver::VersionReq::parse(req).ok().map(
        |q| q.matches(&semver::Version::new(major, minor, patch)),
    )
}

/// A release version `major.minor.patch`.
///
/// Versions are ordered by major, then minor, then patch number.
#[derive(PartialEq, Eq, Structural, Clone, Copy, Debug, Hash)]
pub struct Version {
    pub major: u64,
    pub minor: u64,
    pub patch: u64,
}

/// `a` comes strictly before `b`.
pub open spec fn version_lt(a: Version, b: Version) -> bool {
    a.major < b.major || (a.major == b.major && (a.minor < b.minor || (a.minor == b.minor
        && a.patch < b.patch)))
}

/// `text` is a semantic version with no pre-release and no build part.
pub open spec fn parses_as_release(text: Seq<char>, v: Version) -> bool {
    semver_parts(text) == Some((v.major, v.minor, v.patch, Seq::<char>::empty(), Seq::<char>::empty()))
}

/// `req` is a requirement text that the semver grammar accepts.
pub open spec fn requirement_valid(req: Seq<char>) -> bool {
    semver_req_verdict(req, 0, 0, 0) is Some
}

/// Requirement `req` admits version `v`.
pub open spec fn admits(req: Seq<char>, v: Version) -> bool {
    semver_req_verdict(req, v.major, v.minor, v.patch) == Some(true)
}

impl Version {
    pub fn new(major: u64, minor: u64, patch: u64) -> (r: Version)
        ensures
            r == (Version { major, minor, patch }),
    {
        Version { major, minor, patch }
    }

    /// Parses a release version such as `"1.2.0"`. A text with a pre-release
    /// or build part, or that is no semantic version, gives `None`.
    pub fn parse(text: &str) -> (r: Option<Version>)
        ensures
            r matches Some(v) ==> parses_as_release(text@, v),
            r is None ==> forall|v: Version| !parses_as_release(text@, v),
    {
        match semver_parse(text) {
            None => None,
            Some((major, minor, patch, pre, build)) => {
                if pre.as_str().is_empty() && build.as_str().is_empty() {
                    assert(pre@ =~= Seq::<char>::empty());
                    assert(build@ =~= Seq::<char>::empty());
                    Some(Version { major, minor, patch })
                } else {
                    None
                }
            },
        }
    }

    /// The text `major.minor.patch`.
    pub fn to_text(&self) -> (r: String)
        ensures
            r@ == decimal(self.major as int) + seq!['.'] + decimal(self.minor as int) + seq!['.']
                + decimal(self.patch as int),
    {
        let mut r = u64_text(self.major);
        r.append(".");
        let minor = u64_text(self.minor);
        r.append(minor.as_str());
        r.append(".");
        let patch = u64_text(self.patch);
        r.append(patch.as_str());
        proof {
            reveal_strlit(".");
        }
        assert(r@ =~= decimal(self.major as int) + seq!['.'] + decimal(self.minor as int) + seq!['.']
            + decimal(self.patch as int));
        r
    }

    /// This version comes strictly before `other`.
    pub fn is_older_than(&self, other: &Version) -> (r: bool)
        ensures
            r == version_lt(*self, *other),
    {
        self.major < other.major || (self.major == other.major && (self.minor < other.minor || (
        self.minor == other.minor && self.patch < other.patch)))
    }
}

/// Whether requirement text `req` is one that the semver grammar accepts.
pub fn requirement_is_valid(req: &str) -> (r: bool)
    ensures
        r == requirement_valid(req@),
{
    semver_matches(req, 0, 0, 0).is_some()
}

/// Whether requirement text `req` admits version `v`; a text that is no
/// requirement admits nothing.
pub fn requirement_admits(req: &str, v: &Version) -> (r: bool)
    ensures
        r == admits(req@, *v),
{
    match semver_matches(req, v.major, v.minor, v.patch) {
        Some(b) => b,
        None => false,
    }
}

/// Strict order on versions is a strict total order.
pub proof fn lemma_version_order(a: Version, b: Version, c: Version)
    ensures
        !version_lt(a, a),
        version_lt(a, b) ==> !version_lt(b, a),
        version_lt(a, b) && version_lt(b, c) ==> version_lt(a, c),
        a != b ==> version_lt(a, b) || version_lt(b, a),
{
}

} // verus!
