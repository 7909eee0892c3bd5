//! Galaxy version and requirement parsing helpers.

use vstd::prelude::*;

use crate::lexical::{lex_less, lex_less_is_irreflexive, lex_less_is_total, lex_less_is_transitive};
use crate::semantic::{older, semver_matches, semver_requirement, semver_sort_key, semver_version};
use crate::semantic::{SemanticVersion, VersionRequirement};
use crate::text::{count, find, join, same_text, split, strip_prefix, trim};
use crate::text::{first_index_is_first, lemma_first_index_is, lemma_occurrences_add};
use crate::text::{first_index, joined, occurrences, split_on, starts_with, trimmed};
use crate::version_laws::{latest_version_is_newest_by_semver, matching_version_is_newest_by_semver};

verus! {

/// Why a version or a requirement could not be read or chosen.
#[derive(Debug)]
pub enum VersionError {
    /// `semver` does not accept the version in its normalized form.
    InvalidVersion { normalized: String, cause: semver::Error },
    /// `semver` does not accept the requirement in its normalized form.
    InvalidRequirement { normalized: String, cause: semver::Error },
    /// No version in the list is compatible with semantic versioning.
    NoLatestVersion,
    /// No compatible version in the list meets the requirement.
    NoMatchingVersion,
}

/// A [`VersionError`], with its texts as sequences of characters.
pub enum VersionFailure {
    InvalidVersion { normalized: Seq<char>, cause: semver::Error },
    InvalidRequirement { normalized: Seq<char>, cause: semver::Error },
    NoLatestVersion,
    NoMatchingVersion,
}

impl View for VersionError {
    type V = VersionFailure;

    open spec fn view(&self) -> VersionFailure {
        match *self {
            VersionError::InvalidVersion { normalized, cause } =>
                VersionFailure::InvalidVersion { normalized: normalized@, cause },
            VersionError::InvalidRequirement { normalized, cause } =>
                VersionFailure::InvalidRequirement { normalized: normalized@, cause },
            VersionError::NoLatestVersion => VersionFailure::NoLatestVersion,
            VersionError::NoMatchingVersion => VersionFailure::NoMatchingVersion,
        }
    }
}

impl VersionFailure {
    /// What the error says.
    pub open spec fn says(self) -> Seq<char> {
        match self {
            VersionFailure::InvalidVersion { normalized, .. } =>
                "Failed to parse normalized version: "@ + normalized,
            VersionFailure::InvalidRequirement { normalized, .. } =>
                "Failed to parse collection dependency requirement: "@ + normalized,
            VersionFailure::NoLatestVersion => "Failed to find latest version."@,
            VersionFailure::NoMatchingVersion => "Failed to find matching version."@,
        }
    }
}

impl VersionError {
    /// The error as text.
    pub fn message(&self) -> (r: String)
        ensures
            r@ == self@.says(),
            match self {
                VersionError::InvalidVersion { normalized, .. } => r@
                    == "Failed to parse normalized version: "@ + normalized@,
                VersionError::InvalidRequirement { normalized, .. } => r@
                    == "Failed to parse collection dependency requirement: "@ + normalized@,
                VersionError::NoLatestVersion => r@ == "Failed to find latest version."@,
                VersionError::NoMatchingVersion => r@ == "Failed to find matching version."@,
            },
    {
        match self {
            VersionError::InvalidVersion { normalized, .. } =>
                "Failed to parse normalized version: ".to_owned().concat(normalized.as_str()),
            VersionError::InvalidRequirement { normalized, .. } =>
                "Failed to parse collection dependency requirement: ".to_owned().concat(
                normalized.as_str(),
            ),
            VersionError::NoLatestVersion => "Failed to find latest version.".to_owned(),
            VersionError::NoMatchingVersion => "Failed to find matching version.".to_owned(),
        }
    }
}

/// The numbers of a version: what stands before the first hyphen.
pub open spec fn release_part(version: Seq<char>) -> Seq<char> {
    version.take(first_index(version, '-') as int)
}

/// What follows the numbers of a version: the first hyphen and all after it.
pub open spec fn suffix_part(version: Seq<char>) -> Seq<char> {
    version.skip(first_index(version, '-') as int)
}

/// The components that numbers with so many periods lack.
pub open spec fn missing_components(periods: nat) -> Seq<char> {
    if periods == 0 {
        seq!['.', '0', '.', '0']
    } else if periods == 1 {
        seq!['.', '0']
    } else {
        seq![]
    }
}

/// A version with its numbers filled up to three components.
pub open spec fn normalized_version(version: Seq<char>) -> Seq<char> {
    release_part(version) + missing_components(occurrences(release_part(version), '.'))
        + suffix_part(version)
}

/// A normalized version has at least three components before its suffix, keeps
/// its suffix, and is not changed by being normalized again.
pub proof fn normalizing_completes_and_settles(version: Seq<char>)
    ensures
        occurrences(release_part(normalized_version(version)), '.') >= 2,
        suffix_part(normalized_version(version)) == suffix_part(version),
        normalized_version(normalized_version(version)) == normalized_version(version),
{
    let release = release_part(version);
    let missing = missing_components(occurrences(release, '.'));
    let suffix = suffix_part(version);
    let normalized = normalized_version(version);
    let k = release.len() + missing.len();
    first_index_is_first(version, '-');
    assert forall|j: int| 0 <= j < k implies normalized[j] != '-' by {
        if j < release.len() {
            assert(normalized[j] == version[j]);
        } else {
            assert(normalized[j] == missing[j - release.len()]);
        }
    }
    if k < normalized.len() {
        assert(normalized[k as int] == suffix[0]);
    }
    lemma_first_index_is(normalized, '-', k as int);
    assert(release_part(normalized) =~= release + missing);
    assert(suffix_part(normalized) =~= suffix);
    lemma_occurrences_add(release, missing, '.');
    reveal_with_fuel(occurrences, 5);
    assert(occurrences(missing, '.') + occurrences(release, '.') >= 2) by {
        if missing.len() == 4 {
            assert(missing.drop_last().drop_last().drop_last().drop_last() =~= seq![]);
        }
    }
    assert(normalized_version(normalized) =~= release + missing + seq![] + suffix);
    assert(release + missing + seq![] + suffix =~= normalized);
}

/// A version that already has three components is left as it is.
pub proof fn complete_versions_stay_as_they_are(version: Seq<char>)
    requires
        occurrences(release_part(version), '.') >= 2,
    ensures
        normalized_version(version) == version,
{
    first_index_is_first(version, '-');
    assert(normalized_version(version) =~= version);
}

/// Normalize Ansible collection versions into semver's three-component form.
pub fn normalize_version(version: &str) -> (r: Result<String, VersionError>)
    ensures
        r matches Ok(normalized) && normalized@ == normalized_version(version@),
{
    let hyphen: usize = find(version, '-');
    let length: usize = version.unicode_len();
    let release: &str = version.substring_char(0, hyphen);
    let suffix: &str = version.substring_char(hyphen, length);
    proof {
        reveal_strlit(".0.0");
        reveal_strlit(".0");
        assert(release@ =~= release_part(version@));
        assert(suffix@ =~= suffix_part(version@));
    }
    let mut normalized: String = release.to_owned();
    let count_periods: usize = count(release, '.');
    if count_periods == 0 {
        normalized.append(".0.0");
    } else if count_periods == 1 {
        normalized.append(".0");
    }
    assert(normalized@ =~= release@ + missing_components(count_periods as nat));
    normalized.append(suffix);
    Ok(normalized)
}

/// The operator that a comparator starts with, as `semver` writes it, and what
/// follows the operator.
pub open spec fn comparator_parts(comparator: Seq<char>) -> (Seq<char>, Seq<char>) {
    if starts_with(comparator, seq!['>', '=']) {
        (seq!['>', '='], comparator.skip(2))
    } else if starts_with(comparator, seq!['<', '=']) {
        (seq!['<', '='], comparator.skip(2))
    } else if starts_with(comparator, seq!['=', '=']) {
        (seq!['='], comparator.skip(2))
    } else if starts_with(comparator, seq!['=']) {
        (seq!['='], comparator.skip(1))
    } else if starts_with(comparator, seq!['>']) {
        (seq!['>'], comparator.skip(1))
    } else if starts_with(comparator, seq!['<']) {
        (seq!['<'], comparator.skip(1))
    } else if starts_with(comparator, seq!['~']) {
        (seq!['~'], comparator.skip(1))
    } else if starts_with(comparator, seq!['^']) {
        (seq!['^'], comparator.skip(1))
    } else {
        (seq![], comparator)
    }
}

/// A comparator in semver's syntax: `*` where it asks for nothing, else its
/// operator and its version in three components.
pub open spec fn normalized_comparator(comparator: Seq<char>) -> Seq<char> {
    let (operator, rest) = comparator_parts(comparator);
    let version = trimmed(rest);
    if comparator.len() == 0 || comparator == seq!['*'] || version == seq!['*'] {
        seq!['*']
    } else {
        operator + normalized_version(version)
    }
}

/// A requirement in semver's syntax: `*` where it asks for nothing, else its
/// comparators, each normalized, with a comma and a space between them.
pub open spec fn normalized_requirement(requirement: Seq<char>) -> Seq<char> {
    let asked = trimmed(requirement);
    if asked.len() == 0 || asked == seq!['*'] {
        seq!['*']
    } else {
        joined(
            split_on(asked, ',').map_values(
                |comparator: Seq<char>| normalized_comparator(trimmed(comparator)),
            ),
            seq![',', ' '],
        )
    }
}

/// The operator of a comparator, as `semver` writes it, and what follows it.
fn split_comparator<'a>(comparator: &'a str) -> (r: (&'static str, &'a str))
    ensures
        (r.0@, r.1@) == comparator_parts(comparator@),
{
    proof {
        reveal_strlit(">=");
        reveal_strlit("<=");
        reveal_strlit("==");
        reveal_strlit("=");
        reveal_strlit(">");
        reveal_strlit("<");
        reveal_strlit("~");
        reveal_strlit("^");
        reveal_strlit("");
        assert(">="@ =~= seq!['>', '=']);
        assert("<="@ =~= seq!['<', '=']);
        assert("=="@ =~= seq!['=', '=']);
        assert("="@ =~= seq!['=']);
        assert(">"@ =~= seq!['>']);
        assert("<"@ =~= seq!['<']);
        assert("~"@ =~= seq!['~']);
        assert("^"@ =~= seq!['^']);
        assert(""@ =~= seq![]);
    }
    if let Some(version) = strip_prefix(comparator, ">=") {
        (">=", version)
    } else if let Some(version) = strip_prefix(comparator, "<=") {
        ("<=", version)
    } else if let Some(version) = strip_prefix(comparator, "==") {
        ("=", version)
    } else if let Some(version) = strip_prefix(comparator, "=") {
        ("=", version)
    } else if let Some(version) = strip_prefix(comparator, ">") {
        (">", version)
    } else if let Some(version) = strip_prefix(comparator, "<") {
        ("<", version)
    } else if let Some(version) = strip_prefix(comparator, "~") {
        ("~", version)
    } else if let Some(version) = strip_prefix(comparator, "^") {
        ("^", version)
    } else {
        ("", comparator)
    }
}

/// Put one comparator of a requirement into semver's syntax.
pub fn normalize_requirement_comparator(comparator: &str) -> (r: Result<String, VersionError>)
    ensures
        r matches Ok(normalized) && normalized@ == normalized_comparator(comparator@),
{
    proof {
        reveal_strlit("*");
        assert("*"@ =~= seq!['*']);
    }
    if comparator.is_empty() || same_text(comparator, "*") {
        return Ok("*".to_owned());
    }
    let (operator, rest) = split_comparator(comparator);
    let version: &str = trim(rest);
    if same_text(version, "*") {
        return Ok("*".to_owned());
    }
    let normalized: String = normalize_version(version)?;
    Ok(operator.to_owned().concat(normalized.as_str()))
}

/// Put a requirement into semver's syntax.
pub fn normalize_version_requirement(requirement: &str) -> (r: Result<String, VersionError>)
    ensures
        r matches Ok(normalized) && normalized@ == normalized_requirement(requirement@),
{
    proof {
        reveal_strlit("*");
        assert("*"@ =~= seq!['*']);
        reveal_strlit(", ");
        assert(", "@ =~= seq![',', ' ']);
    }
    let requirement: &str = trim(requirement);
    if requirement.is_empty() || same_text(requirement, "*") {
        return Ok("*".to_owned());
    }
    let pieces: Vec<&str> = split(requirement, ',');
    let ghost parts = split_on(requirement@, ',');
    let ghost normal = |comparator: Seq<char>| normalized_comparator(trimmed(comparator));
    let mut comparators: Vec<String> = Vec::new();
    let mut i: usize = 0;
    while i < pieces.len()
        invariant
            parts == pieces@.map_values(|p: &str| p@),
            normal == (|comparator: Seq<char>| normalized_comparator(trimmed(comparator))),
            i <= pieces.len(),
            comparators@.map_values(|p: String| p@) == parts.take(i as int).map_values(normal),
        decreases pieces.len() - i,
    {
        let ghost before = comparators@.map_values(|p: String| p@);
        let comparator: String = normalize_requirement_comparator(trim(pieces[i]))?;
        assert(parts[i as int] == pieces[i as int]@);
        comparators.push(comparator);
        assert(comparators@.map_values(|p: String| p@) =~= before.push(comparator@));
        assert(parts.take(i + 1).map_values(normal) =~= parts.take(i as int).map_values(
            normal,
        ).push(normal(parts[i as int])));
        i = i + 1;
    }
    assert(parts.take(i as int) =~= parts);
    Ok(join(&comparators, ", "))
}

/// Parse a Galaxy collection version requirement.
pub fn parse_version_requirement(requirement: &str) -> (r: Result<
    VersionRequirement,
    VersionError,
>)
    ensures
        match semver_requirement(normalized_requirement(requirement@)) {
            Ok(_) => r matches Ok(parsed) && parsed@ == normalized_requirement(requirement@),
            Err(cause) => r matches Err(error) && error@ == (VersionFailure::InvalidRequirement {
                normalized: normalized_requirement(requirement@),
                cause,
            }),
        },
        r matches Err(error) ==> (error matches VersionError::InvalidRequirement {
            normalized,
            cause,
        } && normalized@ == normalized_requirement(requirement@) && semver_requirement(
            normalized@,
        ) == Err::<semver::VersionReq, semver::Error>(cause)),
{
    let normalized: String = normalize_version_requirement(requirement)?;
    match VersionRequirement::parse(normalized.as_str()) {
        Ok(parsed) => Ok(parsed),
        Err(cause) => Err(VersionError::InvalidRequirement { normalized, cause }),
    }
}

/// Parse a Galaxy collection version.
pub fn parse_version(version: &str) -> (r: Result<SemanticVersion, VersionError>)
    ensures
        match semver_version(normalized_version(version@)) {
            Ok(_) => r matches Ok(parsed) && parsed@ == normalized_version(version@),
            Err(cause) => r matches Err(error) && error@ == (VersionFailure::InvalidVersion {
                normalized: normalized_version(version@),
                cause,
            }),
        },
        r matches Err(error) ==> (error matches VersionError::InvalidVersion {
            normalized,
            cause,
        } && normalized@ == normalized_version(version@) && semver_version(normalized@) == Err::<
            semver::Version,
            semver::Error,
        >(cause)),
{
    let normalized: String = normalize_version(version)?;
    match SemanticVersion::parse(normalized.as_str()) {
        Ok(parsed) => Ok(parsed),
        Err(cause) => Err(VersionError::InvalidVersion { normalized, cause }),
    }
}

/// The texts of a list.
pub open spec fn texts(list: Seq<String>) -> Seq<Seq<char>> {
    list.map_values(|text: String| text@)
}

/// `semver` accepts the version in its normalized form.
pub open spec fn is_compatible(version: Seq<char>) -> bool {
    semver_version(normalized_version(version)) is Ok
}

/// The versions of a list that are compatible with semantic versioning, in
/// their order.
pub open spec fn compatible_versions(versions: Seq<Seq<char>>) -> Seq<Seq<char>> {
    versions.filter(|version: Seq<char>| is_compatible(version))
}

/// The version, in its normalized form, meets a requirement in semver's syntax.
pub open spec fn meets(requirement: Seq<char>, version: Seq<char>) -> bool {
    semver_matches(requirement, normalized_version(version))
}

/// The compatible versions of a list that meet a requirement, in their order.
pub open spec fn matching_versions(versions: Seq<Seq<char>>, requirement: Seq<char>) -> Seq<
    Seq<char>,
> {
    compatible_versions(versions).filter(|version: Seq<char>| meets(requirement, version))
}

/// One listed version is older than another, compared in normalized form.
pub open spec fn older_version(left: Seq<char>, right: Seq<char>) -> bool {
    older(normalized_version(left), normalized_version(right))
}

/// No version of the list is newer than the one at `i`, and all after it are
/// older: of several that are equally new it is the last.
pub open spec fn is_newest(versions: Seq<Seq<char>>, i: int) -> bool {
    &&& 0 <= i < versions.len()
    &&& forall|j: int|
        0 <= j < versions.len() ==> !older_version(versions[i], #[trigger] versions[j])
    &&& forall|j: int| i < j < versions.len() ==> older_version(#[trigger] versions[j], versions[i])
}

/// The newest version of a list, if the list is not empty.
pub open spec fn newest(versions: Seq<Seq<char>>) -> Option<Seq<char>> {
    if versions.len() == 0 {
        None
    } else {
        Some(versions[choose|i: int| is_newest(versions, i)])
    }
}

/// Being at most as new is passed on.
proof fn lemma_not_older_transitive(a: Seq<char>, b: Seq<char>, c: Seq<char>)
    requires
        !older_version(b, a),
        !older_version(c, b),
    ensures
        !older_version(c, a),
{
    let ka = semver_sort_key(normalized_version(a));
    let kb = semver_sort_key(normalized_version(b));
    let kc = semver_sort_key(normalized_version(c));
    lex_less_is_total(ka, kb);
    lex_less_is_total(kb, kc);
    if lex_less(kc, ka) {
        if lex_less(ka, kb) {
            lex_less_is_transitive(kc, ka, kb);
        }
    }
}

/// A list has only one newest version.
pub proof fn newest_is_unique(versions: Seq<Seq<char>>, i: int, j: int)
    requires
        is_newest(versions, i),
        is_newest(versions, j),
    ensures
        i == j,
{
    if i < j {
        assert(older_version(versions[j], versions[i]));
    } else if j < i {
        assert(older_version(versions[i], versions[j]));
    }
}

/// Every list that is not empty has a newest version.
pub proof fn newest_exists(versions: Seq<Seq<char>>) -> (i: int)
    requires
        versions.len() > 0,
    ensures
        is_newest(versions, i),
        newest(versions) == Some(versions[i]),
    decreases versions.len(),
{
    let last = versions.len() - 1;
    let i = if versions.len() == 1 {
        lex_less_is_irreflexive(semver_sort_key(normalized_version(versions[0])));
        0
    } else {
        let shorter = versions.drop_last();
        let best = newest_exists(shorter);
        if older_version(versions[last], shorter[best]) {
            let kb = semver_sort_key(normalized_version(shorter[best]));
            let kl = semver_sort_key(normalized_version(versions[last]));
            if lex_less(kb, kl) {
                lex_less_is_transitive(kb, kl, kb);
                lex_less_is_irreflexive(kb);
            }
            assert forall|j: int| 0 <= j < versions.len() implies !older_version(
                versions[best],
                #[trigger] versions[j],
            ) by {
                if j < last {
                    assert(shorter[j] == versions[j]);
                }
            }
            assert forall|j: int| best < j < versions.len() implies older_version(
                #[trigger] versions[j],
                versions[best],
            ) by {
                if j < last {
                    assert(shorter[j] == versions[j]);
                }
            }
            best
        } else {
            lex_less_is_irreflexive(semver_sort_key(normalized_version(versions[last])));
            assert forall|j: int| 0 <= j < versions.len() implies !older_version(
                versions[last],
                #[trigger] versions[j],
            ) by {
                if j < last {
                    assert(shorter[j] == versions[j]);
                    lemma_not_older_transitive(shorter[j], shorter[best], versions[last]);
                }
            }
            last
        }
    };
    let chosen = choose|k: int| is_newest(versions, k);
    newest_is_unique(versions, i, chosen);
    i
}

/// The version chosen for a requirement is listed, compatible and meets the
/// requirement, and no listed version of which that holds is newer. One is
/// chosen whenever there is one.
pub proof fn newest_matching_is_best(versions: Seq<Seq<char>>, requirement: Seq<char>)
    ensures
        match newest(matching_versions(versions, requirement)) {
            Some(version) => {
                &&& versions.contains(version)
                &&& is_compatible(version)
                &&& meets(requirement, version)
                &&& forall|other: Seq<char>| #[trigger]
                    versions.contains(other) && is_compatible(other) && meets(requirement, other)
                        ==> !older_version(version, other)
            },
            None => forall|other: Seq<char>| #[trigger]
                versions.contains(other) && is_compatible(other) ==> !meets(requirement, other),
        },
{
    let compatible = |version: Seq<char>| is_compatible(version);
    let met = |version: Seq<char>| meets(requirement, version);
    let candidates = versions.filter(compatible);
    let matching = matching_versions(versions, requirement);
    assert forall|v: Seq<char>| #[trigger] matching.contains(v) <==> versions.contains(v) && is_compatible(v)
        && meets(requirement, v) by {
        lemma_filter_holds(versions, compatible, v);
        lemma_filter_holds(candidates, met, v);
    }
    if matching.len() > 0 {
        let i = newest_exists(matching);
        assert(matching.contains(matching[i]));
        assert forall|other: Seq<char>| #[trigger]
            versions.contains(other) && is_compatible(other) && meets(
                requirement,
                other,
            ) implies !older_version(matching[i], other) by {
            assert(matching.contains(other));
            let j = choose|j: int| 0 <= j < matching.len() && matching[j] == other;
            assert(!older_version(matching[i], matching[j]));
        }
    } else {
        assert forall|other: Seq<char>| #[trigger]
            versions.contains(other) && is_compatible(other) implies !meets(requirement, other) by {
            assert(!matching.contains(other));
        }
    }
}

/// Without a requirement, the version chosen is listed and compatible, and no
/// compatible version that is listed is newer. One is chosen whenever there is
/// one.
pub proof fn newest_compatible_is_best(versions: Seq<Seq<char>>)
    ensures
        match newest(compatible_versions(versions)) {
            Some(version) => {
                &&& versions.contains(version)
                &&& is_compatible(version)
                &&& forall|other: Seq<char>| #[trigger]
                    versions.contains(other) && is_compatible(other) ==> !older_version(
                        version,
                        other,
                    )
            },
            None => forall|other: Seq<char>| #[trigger]
                versions.contains(other) ==> !is_compatible(other),
        },
{
    let compatible = |version: Seq<char>| is_compatible(version);
    let candidates = compatible_versions(versions);
    assert forall|v: Seq<char>| #[trigger] candidates.contains(v) <==> versions.contains(v)
        && is_compatible(v) by {
        lemma_filter_holds(versions, compatible, v);
    }
    if candidates.len() > 0 {
        let i = newest_exists(candidates);
        assert(candidates.contains(candidates[i]));
        assert forall|other: Seq<char>| #[trigger]
            versions.contains(other) && is_compatible(other) implies !older_version(
            candidates[i],
            other,
        ) by {
            assert(candidates.contains(other));
            let j = choose|j: int| 0 <= j < candidates.len() && candidates[j] == other;
            assert(!older_version(candidates[i], candidates[j]));
        }
    } else {
        assert forall|other: Seq<char>| #[trigger] versions.contains(other) implies !is_compatible(
            other,
        ) by {
            assert(!candidates.contains(other));
        }
    }
}

/// A version that is not compatible changes nothing, wherever it is listed.
pub proof fn incompatible_versions_are_skipped(
    before: Seq<Seq<char>>,
    version: Seq<char>,
    after: Seq<Seq<char>>,
)
    requires
        !is_compatible(version),
    ensures
        compatible_versions(before + seq![version] + after) == compatible_versions(before + after),
{
    let compatible = |version: Seq<char>| is_compatible(version);
    Seq::filter_distributes_over_add(before + seq![version], after, compatible);
    Seq::filter_distributes_over_add(before, seq![version], compatible);
    Seq::filter_distributes_over_add(before, after, compatible);
    assert(seq![version].filter(compatible) =~= seq![]) by {
        reveal(Seq::filter);
        let nothing = seq![version].drop_last();
        assert(nothing =~= seq![]);
        nothing.lemma_filter_len(compatible);
        assert(seq![version].last() == version);
        assert(seq![version].filter(compatible) == nothing.filter(compatible));
    }
    assert(before.filter(compatible) + seq![] =~= before.filter(compatible));
}

proof fn lemma_filter_holds(
    list: Seq<Seq<char>>,
    keep: spec_fn(Seq<char>) -> bool,
    text: Seq<char>,
)
    ensures
        list.filter(keep).contains(text) <==> list.contains(text) && keep(text),
    decreases list.len(),
{
    reveal(Seq::filter);
    if list.len() > 0 {
        let shorter = list.drop_last();
        lemma_filter_holds(shorter, keep, text);
        assert(list =~= shorter.push(list.last()));
        if shorter.contains(text) {
            let k = choose|k: int| 0 <= k < shorter.len() && shorter[k] == text;
            assert(list[k] == text);
        }
        if list.contains(text) {
            let k = choose|k: int| 0 <= k < list.len() && list[k] == text;
            if k < shorter.len() {
                assert(shorter[k] == text);
            }
        }
        let kept = shorter.filter(keep);
        if keep(list.last()) {
            let all = kept.push(list.last());
            assert(all[kept.len() as int] == list.last());
            if kept.contains(text) {
                let k = choose|k: int| 0 <= k < kept.len() && kept[k] == text;
                assert(all[k] == text);
            }
            if all.contains(text) && text != list.last() {
                let k = choose|k: int| 0 <= k < all.len() && all[k] == text;
                assert(kept[k] == text);
            }
        }
    }
}

/// The listed texts of parsed candidates.
spec fn listed(candidates: Seq<&(SemanticVersion, String)>) -> Seq<Seq<char>> {
    candidates.map_values(|candidate: &(SemanticVersion, String)| candidate.1@)
}

/// Each candidate was parsed from the text that it was listed under.
spec fn parsed_as_listed(candidates: Seq<&(SemanticVersion, String)>) -> bool {
    forall|i: int|
        0 <= i < candidates.len() ==> (#[trigger] candidates[i]).0@ == normalized_version(
            candidates[i].1@,
        )
}

/// The newest of the candidates, as it was listed.
fn newest_of(candidates: &Vec<&(SemanticVersion, String)>) -> (r: Option<String>)
    requires
        parsed_as_listed(candidates@),
    ensures
        match newest(listed(candidates@)) {
            Some(version) => r matches Some(original) && original@ == version,
            None => r is None,
        },
{
    let ghost names = listed(candidates@);
    if candidates.len() == 0 {
        return None;
    }
    let mut best: usize = 0;
    let mut i: usize = 1;
    proof {
        lex_less_is_irreflexive(semver_sort_key(normalized_version(names[0])));
    }
    while i < candidates.len()
        invariant
            names == listed(candidates@),
            parsed_as_listed(candidates@),
            best < i <= candidates.len(),
            is_newest(names.take(i as int), best as int),
        decreases candidates.len() - i,
    {
        let ghost so_far = names.take(i as int);
        let ghost then = names.take(i + 1);
        let ghost step = newest_exists(then);
        proof {
            assert(names[i as int] == candidates[i as int].1@);
            assert(names[best as int] == candidates[best as int].1@);
            assert(then.drop_last() =~= so_far);
            assert(so_far[best as int] == then[best as int]);
            assert(forall|j: int| 0 <= j < i ==> so_far[j] == then[j]);
        }
        if !candidates[i].0.is_older_than(&candidates[best].0) {
            proof {
                if step < i {
                    assert(!older_version(so_far[best as int], so_far[step]));
                    assert(older_version(then[i as int], then[step]));
                    lemma_not_older_transitive(
                        then[step],
                        then[best as int],
                        then[i as int],
                    );
                }
            }
            best = i;
        } else {
            proof {
                if step == i {
                    assert(!older_version(then[i as int], then[best as int]));
                }
                assert(is_newest(so_far, step)) by {
                    assert forall|j: int| 0 <= j < so_far.len() implies !older_version(
                        so_far[step],
                        #[trigger] so_far[j],
                    ) by {
                        assert(so_far[j] == then[j]);
                    }
                    assert forall|j: int| step < j < so_far.len() implies older_version(
                        #[trigger] so_far[j],
                        so_far[step],
                    ) by {
                        assert(so_far[j] == then[j]);
                    }
                }
                newest_is_unique(so_far, step, best as int);
            }
        }
        i = i + 1;
    }
    proof {
        assert(names.take(i as int) =~= names);
        let found = newest_exists(names);
        newest_is_unique(names, found, best as int);
    }
    Some(candidates[best].1.clone())
}

/// Parse every version of a list that is compatible with semantic versioning,
/// and leave out the others.
pub fn parse_versions(versions: &[String]) -> (r: Vec<(SemanticVersion, String)>)
    ensures
        r@.map_values(|parsed: (SemanticVersion, String)| parsed.1@) == compatible_versions(
            texts(versions@),
        ),
        forall|i: int|
            0 <= i < r.len() ==> (#[trigger] r[i]).0@ == normalized_version(r[i].1@),
{
    let ghost all = texts(versions@);
    let ghost compatible = |version: Seq<char>| is_compatible(version);
    let ghost name = |parsed: (SemanticVersion, String)| parsed.1@;
    let mut out: Vec<(SemanticVersion, String)> = Vec::new();
    let mut i: usize = 0;
    assert(all.take(0).filter(compatible) =~= Seq::empty()) by {
        reveal(Seq::filter);
    }
    assert(out@.map_values(name) =~= Seq::empty());
    while i < versions.len()
        invariant
            all == texts(versions@),
            compatible == (|version: Seq<char>| is_compatible(version)),
            name == (|parsed: (SemanticVersion, String)| parsed.1@),
            i <= versions.len(),
            out@.map_values(name) == all.take(i as int).filter(compatible),
            forall|k: int|
                0 <= k < out.len() ==> (#[trigger] out[k]).0@ == normalized_version(out[k].1@),
        decreases versions.len() - i,
    {
        let ghost before = out@;
        proof {
            assert(all[i as int] == versions[i as int]@);
            assert(all.take(i + 1).drop_last() =~= all.take(i as int));
            reveal(Seq::filter);
        }
        match parse_version(versions[i].as_str()) {
            Ok(parsed) => {
                out.push((parsed, versions[i].clone()));
                assert(out@.map_values(name) =~= before.map_values(name).push(all[i as int]));
            },
            Err(_) => {},
        }
        i = i + 1;
    }
    assert(all.take(i as int) =~= all);
    out
}

/// Select the newest semver-compatible version.
pub fn select_latest_version(versions: &[String]) -> (r: Result<String, VersionError>)
    ensures
        match newest(compatible_versions(texts(versions@))) {
            Some(version) => r matches Ok(latest) && latest@ == version,
            None => r matches Err(error) && error@ == VersionFailure::NoLatestVersion,
        },
        r matches Ok(latest) ==> exists|i: int|
            {
                &&& 0 <= i < versions@.len()
                &&& (#[trigger] versions@[i])@ == latest@
                &&& semver_version(normalized_version(latest@)) is Ok
                &&& forall|j: int|
                    0 <= j < versions@.len() && semver_version(
                        normalized_version((#[trigger] versions@[j])@),
                    ) is Ok ==> !lex_less(
                        semver_sort_key(normalized_version(latest@)),
                        semver_sort_key(normalized_version(versions@[j]@)),
                    )
                &&& forall|j: int|
                    i < j < versions@.len() && semver_version(
                        normalized_version((#[trigger] versions@[j])@),
                    ) is Ok ==> lex_less(
                        semver_sort_key(normalized_version(versions@[j]@)),
                        semver_sort_key(normalized_version(latest@)),
                    )
            },
        r is Err ==> forall|j: int|
            0 <= j < versions@.len() ==> semver_version(
                normalized_version((#[trigger] versions@[j])@),
            ) is Err,
{
    let parsed: Vec<(SemanticVersion, String)> = parse_versions(versions);
    let mut candidates: Vec<&(SemanticVersion, String)> = Vec::new();
    let mut i: usize = 0;
    while i < parsed.len()
        invariant
            i <= parsed.len(),
            candidates.len() == i,
            forall|k: int| 0 <= k < i ==> *(#[trigger] candidates[k]) == parsed[k],
        decreases parsed.len() - i,
    {
        candidates.push(&parsed[i]);
        i = i + 1;
    }
    assert(listed(candidates@) =~= compatible_versions(texts(versions@))) by {
        let names = parsed@.map_values(|parsed: (SemanticVersion, String)| parsed.1@);
        assert(forall|k: int| 0 <= k < i ==> names[k] == parsed[k].1@);
    }
    proof {
        let listed_texts = texts(versions@);
        latest_version_is_newest_by_semver(listed_texts);
        assert forall|j: int| 0 <= j < versions@.len() implies listed_texts[j] == (
        #[trigger] versions@[j])@ by {}
    }
    match newest_of(&candidates) {
        Some(latest) => Ok(latest),
        None => Err(VersionError::NoLatestVersion),
    }
}

/// Select the newest semver-compatible version matching the requirement.
pub fn select_latest_matching_version(
    versions: &[String],
    requirement: &VersionRequirement,
) -> (r: Result<String, VersionError>)
    ensures
        match newest(matching_versions(texts(versions@), requirement@)) {
            Some(version) => r matches Ok(latest) && latest@ == version,
            None => r matches Err(error) && error@ == VersionFailure::NoMatchingVersion,
        },
        r matches Ok(latest) ==> exists|i: int|
            {
                &&& 0 <= i < versions@.len()
                &&& (#[trigger] versions@[i])@ == latest@
                &&& semver_version(normalized_version(latest@)) is Ok
                &&& semver_matches(requirement@, normalized_version(latest@))
                &&& forall|j: int|
                    0 <= j < versions@.len() && semver_version(
                        normalized_version((#[trigger] versions@[j])@),
                    ) is Ok && semver_matches(
                    requirement@,
                    normalized_version(versions@[j]@),
                ) ==> !lex_less(
                        semver_sort_key(normalized_version(latest@)),
                        semver_sort_key(normalized_version(versions@[j]@)),
                    )
                &&& forall|j: int|
                    i < j < versions@.len() && semver_version(
                        normalized_version((#[trigger] versions@[j])@),
                    ) is Ok && semver_matches(
                    requirement@,
                    normalized_version(versions@[j]@),
                ) ==> lex_less(
                        semver_sort_key(normalized_version(versions@[j]@)),
                        semver_sort_key(normalized_version(latest@)),
                    )
            },
        r is Err ==> forall|j: int|
            0 <= j < versions@.len() && semver_version(
                normalized_version((#[trigger] versions@[j])@),
            ) is Ok ==> !semver_matches(requirement@, normalized_version(versions@[j]@)),
{
    let parsed: Vec<(SemanticVersion, String)> = parse_versions(versions);
    let ghost names = compatible_versions(texts(versions@));
    let ghost met = |version: Seq<char>| meets(requirement@, version);
    let mut candidates: Vec<&(SemanticVersion, String)> = Vec::new();
    let mut i: usize = 0;
    assert(names.take(0).filter(met) =~= Seq::empty()) by {
        reveal(Seq::filter);
    }
    assert(listed(candidates@) =~= Seq::empty());
    assert(names.len() == parsed.len());
    while i < parsed.len()
        invariant
            names == parsed@.map_values(|parsed: (SemanticVersion, String)| parsed.1@),
            met == (|version: Seq<char>| meets(requirement@, version)),
            forall|k: int|
                0 <= k < parsed.len() ==> (#[trigger] parsed[k]).0@ == normalized_version(
                    parsed[k].1@,
                ),
            i <= parsed.len(),
            listed(candidates@) == names.take(i as int).filter(met),
            parsed_as_listed(candidates@),
        decreases parsed.len() - i,
    {
        let ghost before = candidates@;
        proof {
            assert(names[i as int] == parsed[i as int].1@);
            assert(names.take(i + 1).drop_last() =~= names.take(i as int));
            reveal(Seq::filter);
        }
        if requirement.matches(&parsed[i].0) {
            candidates.push(&parsed[i]);
            assert(listed(candidates@) =~= listed(before).push(names[i as int]));
        }
        i = i + 1;
    }
    assert(names.take(i as int) =~= names);
    proof {
        let listed_texts = texts(versions@);
        matching_version_is_newest_by_semver(listed_texts, requirement@);
        assert forall|j: int| 0 <= j < versions@.len() implies listed_texts[j] == (
        #[trigger] versions@[j])@ by {}
    }
    match newest_of(&candidates) {
        Some(latest) => Ok(latest),
        None => Err(VersionError::NoMatchingVersion),
    }
}

} // verus!
