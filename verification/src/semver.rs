//! Version and version-range parsing, provided by `nodejs_semver`.

use vstd::prelude::*;


verus! {

#[verifier::external_type_specification]
#[verifier::external_body]
pub struct ExSemverError(nodejs_semver::SemverError);

#[verifier::external_type_specification]
#[verifier::external_body]
pub struct ExVersionRange(nodejs_semver::Range);

#[verifier::external_type_specification]
#[verifier::external_body]
pub struct ExPackageVersion(nodejs_semver::Version);

/// Whether `nodejs_semver::Range::parse` accepts the string.
pub uninterp spec fn semver_range_parses(s: Seq<char>) -> bool;

/// Whether `nodejs_semver::Version::parse` accepts the string.
pub uninterp spec fn semver_version_parses(s: Seq<char>) -> bool;

/// Calls `nodejs_semver::Range::parse`. Trusted: it succeeds exactly when
/// [`semver_range_parses`] holds of the input; what range it builds is not stated.
#[verifier::external_body]
pub fn parse_range(s: &str) -> (r: Result<nodejs_semver::Range, nodejs_semver::SemverError>)
    ensures
        r is Ok <==> semver_range_parses(s@),
{
    nodejs_semver::Range::parse(s)
}

/// Calls `nodejs_semver::Version::parse`. Trusted: it succeeds exactly when
/// [`semver_version_parses`] holds of the input; the parsed version is opaque here.
#[verifier::external_body]
pub fn parse_version(s: &str) -> (r: Result<nodejs_semver::Version, nodejs_semver::SemverError>)
    ensures
        r is Ok <==> semver_version_parses(s@),
{
    nodejs_semver::Version::parse(s)
}

/// What the `Display` of `nodejs_semver::Version` writes for the version that the
/// text parses to.
pub uninterp spec fn semver_display(s: Seq<char>) -> Seq<char>;

/// Parses the text with `nodejs_semver::Version::parse` and writes the version out
/// with its `Display`. Trusted: the result is [`semver_display`] of the text, which
/// parses; how the version is written (`major.minor.patch`, then the pre-release and
/// build identifiers) is not stated.
#[verifier::external_body]
pub(crate) fn version_display(s: &str) -> (r: String)
    requires
        semver_version_parses(s@),
    ensures
        r@ == semver_display(s@),
{
    nodejs_semver::Version::parse(s).unwrap().to_string()
}

/// Whether the version satisfies the range, as `nodejs_semver` decides.
pub uninterp spec fn semver_satisfies(version: Seq<char>, range: Seq<char>) -> bool;

/// Whether the first version is not below the second in `nodejs_semver`'s order of
/// versions.
pub uninterp spec fn semver_at_least(a: Seq<char>, b: Seq<char>) -> bool;

/// Parses both and calls `nodejs_semver::Version::satisfies`. Trusted: the answer is
/// [`semver_satisfies`] of the two texts, which both parse.
#[verifier::external_body]
pub(crate) fn version_satisfies(version: &str, range: &str) -> (b: bool)
    requires
        semver_version_parses(version@),
        semver_range_parses(range@),
    ensures
        b == semver_satisfies(version@, range@),
{
    let range = nodejs_semver::Range::parse(range).unwrap();
    nodejs_semver::Version::parse(version).unwrap().satisfies(&range)
}

/// Parses both and compares them with `>=` of `nodejs_semver::Version`. Trusted: the
/// answer is [`semver_at_least`] of the two texts, which both parse; and, as that
/// order is the `Ord` of `nodejs_semver::Version` (major, minor and patch numbers,
/// then the pre-release identifiers, each compared as a total order), when the first
/// is not at least the second the second is at least the first, and when the first is
/// at least the second it is at least every version that the second is at least.
#[verifier::external_body]
pub(crate) fn version_at_least(a: &str, b: &str) -> (r: bool)
    requires
        semver_version_parses(a@),
        semver_version_parses(b@),
    ensures
        r == semver_at_least(a@, b@),
        !r ==> semver_at_least(b@, a@),
        forall|c: Seq<char>|
            semver_version_parses(c) && r && #[trigger] semver_at_least(b@, c) ==> semver_at_least(a@, c),
{
    nodejs_semver::Version::parse(a).unwrap() >= nodejs_semver::Version::parse(b).unwrap()
}

/// Whether two versions are equal, as `nodejs_semver` compares them (build metadata
/// aside).
pub uninterp spec fn semver_eq(a: Seq<char>, b: Seq<char>) -> bool;

/// Parses both and compares them with `==` of `nodejs_semver::Version`. Trusted: the
/// answer is [`semver_eq`] of the two texts, which both parse; and, as that `==`
/// compares the fields of the two parsed versions one by one, two equal texts are
/// equal versions.
#[verifier::external_body]
pub(crate) fn version_eq(a: &str, b: &str) -> (r: bool)
    requires
        semver_version_parses(a@),
        semver_version_parses(b@),
    ensures
        r == semver_eq(a@, b@),
        a@ == b@ ==> r,
{
    nodejs_semver::Version::parse(a).unwrap() == nodejs_semver::Version::parse(b).unwrap()
}

} // verus!
