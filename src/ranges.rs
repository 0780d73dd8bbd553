//! Release sets of the PubGrub solver, seen as sets of release versions.
use vstd::prelude::*;

use crate::version::{precedes, Release};

verus! {

/// A set of versions of the solver, over semver's version type.
pub type VersionRanges = pubgrub::Ranges<semver::Version>;

/// The release versions that a version set holds.
pub uninterp spec fn members(r: VersionRanges) -> Set<Release>;

/// Versions `w` with `v <= w`.
pub open spec fn at_least(v: Release) -> Set<Release> {
    Set::new(|w: Release| !precedes(w, v))
}

/// Versions `w` with `w < v`.
pub open spec fn below(v: Release) -> Set<Release> {
    Set::new(|w: Release| precedes(w, v))
}

/// Versions `w` with `lo <= w < hi`.
pub open spec fn from_to(lo: Release, hi: Release) -> Set<Release> {
    Set::new(|w: Release| !precedes(w, lo) && precedes(w, hi))
}

/// Relies on Ranges::full: the set of all versions.
#[verifier::external_body]
pub(crate) fn range_full() -> (r: VersionRanges)
    ensures
        members(r) == Set::<Release>::full(),
{
    pubgrub::Ranges::full()
}

/// Relies on Ranges::singleton: the one version given.
#[verifier::external_body]
pub(crate) fn range_singleton(v: Release) -> (r: VersionRanges)
    ensures
        members(r) == Set::<Release>::empty().insert(v),
{
    pubgrub::Ranges::singleton(semver::Version::new(v.major, v.minor, v.patch))
}

/// Relies on Ranges::higher_than: the versions at or above `v`. Release
/// versions compare as semver orders them, field by field.
#[verifier::external_body]
pub(crate) fn range_at_least(v: Release) -> (r: VersionRanges)
    ensures
        members(r) == at_least(v),
{
    pubgrub::Ranges::higher_than(semver::Version::new(v.major, v.minor, v.patch))
}

/// Relies on Ranges::strictly_lower_than: the versions below `v`.
#[verifier::external_body]
pub(crate) fn range_below(v: Release) -> (r: VersionRanges)
    ensures
        members(r) == below(v),
{
    pubgrub::Ranges::strictly_lower_than(semver::Version::new(v.major, v.minor, v.patch))
}

/// Relies on Ranges::between: the versions at or above `lo` and below `hi`.
/// The bounds must be in order: every segment of a range holds a version.
#[verifier::external_body]
pub(crate) fn range_between(lo: Release, hi: Release) -> (r: VersionRanges)
    requires
        precedes(lo, hi),
    ensures
        members(r) == from_to(lo, hi),
{
    pubgrub::Ranges::between(
        semver::Version::new(lo.major, lo.minor, lo.patch),
        semver::Version::new(hi.major, hi.minor, hi.patch),
    )
}

/// Relies on Ranges::union: the versions of either set.
#[verifier::external_body]
pub(crate) fn range_union(
    a: &VersionRanges,
    b: &VersionRanges,
) -> (r: VersionRanges)
    ensures
        members(r) == members(*a).union(members(*b)),
{
    a.union(b)
}

/// Relies on Ranges::intersection: the versions of both sets.
#[verifier::external_body]
pub(crate) fn range_intersection(
    a: &VersionRanges,
    b: &VersionRanges,
) -> (r: VersionRanges)
    ensures
        members(r) == members(*a).intersect(members(*b)),
{
    a.intersection(b)
}

/// Relies on Ranges::contains: whether the set holds `v`.
#[verifier::external_body]
pub(crate) fn range_contains(r: &VersionRanges, v: Release) -> (b: bool)
    ensures
        b == members(*r).contains(v),
{
    r.contains(&semver::Version::new(v.major, v.minor, v.patch))
}

/// Whether the version set `range` holds `v`.
pub fn admits(range: &VersionRanges, v: Release) -> (b: bool)
    ensures
        b == members(*range).contains(v),
{
    range_contains(range, v)
}

} // verus!
