//! Versions and requirements as the `semver` crate reads them.
//!
//! The crate's own types are opaque here. A value of one of them is kept beside
//! the text that it was parsed from, and every statement about it is made over
//! that text.

use vstd::prelude::*;

use crate::lexical::lex_less;

verus! {

/// `semver::Version`, carried as an opaque value.
#[verifier::external_type_specification]
#[verifier::external_body]
pub struct ExSemverVersion(semver::Version);

/// `semver::VersionReq`, carried as an opaque value.
#[verifier::external_type_specification]
#[verifier::external_body]
pub struct ExSemverVersionReq(semver::VersionReq);

/// `semver::Error`, carried as an opaque value.
#[verifier::external_type_specification]
#[verifier::external_body]
pub struct ExSemverError(semver::Error);

/// What `semver::Version::parse` makes of a text.
pub uninterp spec fn semver_version(text: Seq<char>) -> Result<semver::Version, semver::Error>;

/// What `semver::VersionReq::parse` makes of a text.
pub uninterp spec fn semver_requirement(text: Seq<char>) -> Result<
    semver::VersionReq,
    semver::Error,
>;

/// Whether `semver::VersionReq::matches` accepts a version, both given by the
/// text that they are parsed from.
pub uninterp spec fn semver_matches(requirement: Seq<char>, version: Seq<char>) -> bool;

/// The place of a version in the total order of `semver::Version`, given by the
/// text that it is parsed from: the numbers that the order compares, one after
/// the other.
pub uninterp spec fn semver_sort_key(version: Seq<char>) -> Seq<int>;

/// `semver::Version::parse`: the result is settled by the text alone.
pub assume_specification[ semver::Version::parse ](text: &str) -> (r: Result<
    semver::Version,
    semver::Error,
>)
    ensures
        r == semver_version(text@),
;

/// `semver::VersionReq::parse`: the result is settled by the text alone.
pub assume_specification[ semver::VersionReq::parse ](text: &str) -> (r: Result<
    semver::VersionReq,
    semver::Error,
>)
    ensures
        r == semver_requirement(text@),
;

/// A version that `semver` accepts, with the text that it was read from.
#[derive(Debug)]
pub struct SemanticVersion {
    text: String,
    parsed: semver::Version,
}

impl View for SemanticVersion {
    type V = Seq<char>;

    closed spec fn view(&self) -> Seq<char> {
        self.text@
    }
}

/// A version requirement that `semver` accepts, with the text that it was read
/// from.
#[derive(Debug)]
pub struct VersionRequirement {
    text: String,
    parsed: semver::VersionReq,
}

impl View for VersionRequirement {
    type V = Seq<char>;

    closed spec fn view(&self) -> Seq<char> {
        self.text@
    }
}

/// `left` is older than `right`, in the order of `semver::Version`.
pub open spec fn older(left: Seq<char>, right: Seq<char>) -> bool {
    lex_less(semver_sort_key(left), semver_sort_key(right))
}

/// The `<` of `semver::Version`, which documents a total order: the three
/// numbers are compared one after the other, then the dot-separated pre-release
/// identifiers, then those of the build metadata, each identifier as a number
/// or by its ASCII codes. That is the lexicographic order of a sequence of
/// integers which the version's text settles.
#[verifier::external_body]
fn parsed_before(left: &SemanticVersion, right: &SemanticVersion) -> (r: bool)
    requires
        left.well_formed(),
        right.well_formed(),
    ensures
        r == lex_less(semver_sort_key(left@), semver_sort_key(right@)),
{
    left.parsed < right.parsed
}

/// `semver::VersionReq::matches`: the answer is settled by the text that the
/// requirement was parsed from and the text that the version was parsed from.
#[verifier::external_body]
fn parsed_matches(requirement: &VersionRequirement, version: &SemanticVersion) -> (r: bool)
    requires
        requirement.well_formed(),
        version.well_formed(),
    ensures
        r == semver_matches(requirement@, version@),
{
    requirement.parsed.matches(&version.parsed)
}

impl SemanticVersion {
    /// The parsed version is what `semver` reads from the text.
    #[verifier::type_invariant]
    pub closed spec fn well_formed(&self) -> bool {
        semver_version(self.text@) == Ok::<semver::Version, semver::Error>(self.parsed)
    }

    /// Reads a version from a text in the form that `semver` accepts.
    pub fn parse(text: &str) -> (r: Result<SemanticVersion, semver::Error>)
        ensures
            match semver_version(text@) {
                Ok(_) => r matches Ok(version) && version@ == text@,
                Err(error) => r matches Err(e) && e == error,
            },
    {
        match semver::Version::parse(text) {
            Ok(parsed) => Ok(SemanticVersion { text: text.to_owned(), parsed }),
            Err(error) => Err(error),
        }
    }

    /// Whether this version is older than `other`.
    pub fn is_older_than(&self, other: &SemanticVersion) -> (r: bool)
        ensures
            r == older(self@, other@),
            r == lex_less(semver_sort_key(self@), semver_sort_key(other@)),
    {
        proof {
            use_type_invariant(self);
            use_type_invariant(other);
        }
        parsed_before(self, other)
    }
}

impl VersionRequirement {
    /// The parsed requirement is what `semver` reads from the text.
    #[verifier::type_invariant]
    pub closed spec fn well_formed(&self) -> bool {
        semver_requirement(self.text@) == Ok::<semver::VersionReq, semver::Error>(self.parsed)
    }

    /// Reads a requirement from a text in the form that `semver` accepts.
    pub fn parse(text: &str) -> (r: Result<VersionRequirement, semver::Error>)
        ensures
            match semver_requirement(text@) {
                Ok(_) => r matches Ok(requirement) && requirement@ == text@,
                Err(error) => r matches Err(e) && e == error,
            },
    {
        match semver::VersionReq::parse(text) {
            Ok(parsed) => Ok(VersionRequirement { text: text.to_owned(), parsed }),
            Err(error) => Err(error),
        }
    }

    /// Whether `version` meets this requirement.
    pub fn matches(&self, version: &SemanticVersion) -> (r: bool)
        ensures
            r == semver_matches(self@, version@),
    {
        proof {
            use_type_invariant(self);
            use_type_invariant(version);
        }
        parsed_matches(self, version)
    }
}

} // verus!
