//! Release versions `MAJOR.MINOR.PATCH` and their textual form.
use vstd::prelude::*;

use crate::error::ResolverError;

verus! {

/// A release version: three non-negative integers, ordered lexicographically
/// (the derived order compares the fields in declaration order).
#[derive(Clone, Copy, Debug, PartialEq, Eq, PartialOrd, Ord, Hash, Structural)]
pub struct Release {
    pub major: u64,
    pub minor: u64,
    pub patch: u64,
}

/// Strict lexicographic order on versions.
pub open spec fn precedes(a: Release, b: Release) -> bool {
    ||| a.major < b.major
    ||| (a.major == b.major && a.minor < b.minor)
    ||| (a.major == b.major && a.minor == b.minor && a.patch < b.patch)
}

pub open spec fn is_digit(c: char) -> bool {
    '0' <= c && c <= '9'
}

/// The value of a string of decimal digits.
pub open spec fn digits_value(s: Seq<char>) -> nat
    decreases s.len(),
{
    if s.len() == 0 {
        0
    } else {
        digits_value(s.drop_last()) * 10 + ((s.last() as u32) - ('0' as u32)) as nat
    }
}

/// `s` writes `n` in decimal, with no leading zero.
pub open spec fn is_numeral(s: Seq<char>, n: u64) -> bool {
    &&& s.len() > 0
    &&& forall|i: int| 0 <= i < s.len() ==> is_digit(#[trigger] s[i])
    &&& (s[0] == '0' ==> s.len() == 1)
    &&& digits_value(s) == n
}

/// `s` is the literal `MAJOR.MINOR.PATCH` of `v`.
pub open spec fn is_version_literal(s: Seq<char>, v: Release) -> bool {
    exists|i: int, j: int| 0 < i < j < s.len() && s[i] == '.' && s[j] == '.'
        && is_numeral(s.subrange(0, i), v.major)
        && is_numeral(s.subrange(i + 1, j), v.minor)
        && is_numeral(s.subrange(j + 1, s.len() as int), v.patch)
}

/// The version that the literal `s` denotes, if it denotes one.
pub open spec fn literal_version(s: Seq<char>) -> Option<Release> {
    if exists|v: Release| is_version_literal(s, v) {
        Some(choose|v: Release| is_version_literal(s, v))
    } else {
        None
    }
}

proof fn lemma_dots_fixed(s: Seq<char>, i: int, j: int, k: int, l: int, a: Release, b: Release)
    requires
        0 < i < j < s.len() && s[i] == '.' && s[j] == '.',
        is_numeral(s.subrange(0, i), a.major),
        is_numeral(s.subrange(i + 1, j), a.minor),
        is_numeral(s.subrange(j + 1, s.len() as int), a.patch),
        0 < k < l < s.len() && s[k] == '.' && s[l] == '.',
        is_numeral(s.subrange(0, k), b.major),
        is_numeral(s.subrange(k + 1, l), b.minor),
        is_numeral(s.subrange(l + 1, s.len() as int), b.patch),
    ensures
        i == k && j == l,
{
    if i < k {
        assert(is_digit(s.subrange(0, k)[i]));
    } else if k < i {
        assert(is_digit(s.subrange(0, i)[k]));
    }
    if j < l {
        assert(is_digit(s.subrange(k + 1, l)[j - k - 1]));
    } else if l < j {
        assert(is_digit(s.subrange(i + 1, j)[l - i - 1]));
    }
}

/// A literal denotes at most one version.
pub proof fn lemma_literal_unique(s: Seq<char>, a: Release, b: Release)
    requires
        is_version_literal(s, a),
        is_version_literal(s, b),
    ensures
        a == b,
{
    let (i, j) = choose|i: int, j: int| 0 < i < j < s.len() && s[i] == '.' && s[j] == '.'
        && is_numeral(s.subrange(0, i), a.major)
        && is_numeral(s.subrange(i + 1, j), a.minor)
        && is_numeral(s.subrange(j + 1, s.len() as int), a.patch);
    let (k, l) = choose|k: int, l: int| 0 < k < l < s.len() && s[k] == '.' && s[l] == '.'
        && is_numeral(s.subrange(0, k), b.major)
        && is_numeral(s.subrange(k + 1, l), b.minor)
        && is_numeral(s.subrange(l + 1, s.len() as int), b.patch);
    lemma_dots_fixed(s, i, j, k, l, a, b);
}

/// Round trip: the literal of any version reads back as that same version.
pub proof fn lemma_version_round_trip(s: Seq<char>, v: Release)
    requires
        is_version_literal(s, v),
    ensures
        literal_version(s) == Some(v),
{
    let w = choose|w: Release| is_version_literal(s, w);
    lemma_literal_unique(s, v, w);
}

/// Relies on semver::Version::parse, which accepts exactly the literals
/// `MAJOR.MINOR.PATCH` (decimal, no leading zero, each within u64) when no
/// pre-release or build part follows. Fields are moved out one for one:
/// the version numbers, then the pre-release and build texts. Every error
/// of semver displays a non-empty message.
#[verifier::external_body]
fn semver_parse(s: &str) -> (r: Result<(Release, String, String), String>)
    ensures
        forall|v: Release| #[trigger] is_version_literal(s@, v) ==> (r is Ok && r->Ok_0.0 == v
            && r->Ok_0.1@.len() == 0 && r->Ok_0.2@.len() == 0),
        r is Ok && r->Ok_0.1@.len() == 0 && r->Ok_0.2@.len() == 0 ==> is_version_literal(
            s@,
            r->Ok_0.0,
        ),
        r is Err ==> r->Err_0@.len() > 0,
{
    match semver::Version::parse(s) {
        Ok(v) => Ok((
            Release { major: v.major, minor: v.minor, patch: v.patch },
            v.pre.to_string(),
            v.build.to_string(),
        )),
        Err(e) => Err(e.to_string()),
    }
}

/// Relies on semver's `Display` for `Release`, which writes
/// `MAJOR.MINOR.PATCH` in decimal when there is no pre-release or build part.
#[verifier::external_body]
fn semver_text(v: &Release) -> (r: String)
    ensures
        is_version_literal(r@, *v),
{
    semver::Version::new(v.major, v.minor, v.patch).to_string()
}

impl Release {
    pub fn new(major: u64, minor: u64, patch: u64) -> (r: Release)
        ensures
            r == (Release { major, minor, patch }),
    {
        Release { major, minor, patch }
    }

    /// The literal `MAJOR.MINOR.PATCH` of this version.
    pub fn to_string(&self) -> (r: String)
        ensures
            is_version_literal(r@, *self),
            literal_version(r@) == Some(*self),
    {
        let r = semver_text(self);
        proof {
            lemma_version_round_trip(r@, *self);
        }
        r
    }
}

/// Parses a release version literal `MAJOR.MINOR.PATCH`.
pub fn parse_version(version: &str) -> (r: Result<Release, ResolverError>)
    ensures
        match literal_version(version@) {
            Some(v) => r == Ok::<Release, ResolverError>(v),
            None => r is Err && r->Err_0 is InvalidVersion && r->Err_0->InvalidVersion_version@
                == version@ && r->Err_0->InvalidVersion_reason@.len() > 0,
        },
{
    match semver_parse(version) {
        Ok((v, pre, build)) => {
            if pre.as_str().is_empty() && build.as_str().is_empty() {
                proof {
                    lemma_version_round_trip(version@, v);
                }
                Ok(v)
            } else {
                let reason = String::from_str("pre-release and build parts are not supported");
                proof {
                    reveal_strlit("pre-release and build parts are not supported");
                }
                Err(ResolverError::InvalidVersion { version: String::from_str(version), reason })
            }
        },
        Err(reason) => Err(ResolverError::InvalidVersion { version: String::from_str(version), reason }),
    }
}

} // verus!
