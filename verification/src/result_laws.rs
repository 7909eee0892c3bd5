//! What is read from metadata and what is handed out in the end, over the values
//! themselves.

use vstd::prelude::*;

use crate::cache::GalaxyData;
use crate::closure::ClosureStep;
use crate::failure::{Failure, ResolveError};
use crate::laws::{cached_after, cached_identification_finds_the_closure, declares, depends_on};
use crate::laws::{identification_finds_the_closure, identify_after, is_chain, is_closure, leads_to};
use crate::laws::{reachable, start_version, walk_after, walk_finds_the_closure, Source};
use crate::lexical::{code_points, lex_less, lex_less_compares_at_the_first_difference, text_less};
use crate::metadata::{declared_requirements, member_of, JsonValue, MetadataError};
use crate::package::{ascending, found, package_less};
use crate::package::{Dependency, DependencyRequirement, PackageDependencies, PackageKey};
use crate::package::{PackageView, RequirementView};
use crate::resolver::{question, CachedStep, IdentifyStep};
use crate::semantic::{semver_matches, semver_requirement, semver_sort_key, semver_version};
use crate::version::{normalized_requirement, normalized_version, VersionError, VersionFailure};
use crate::version_laws::{latest_version_is_newest_by_semver, matching_version_is_newest_by_semver};

verus! {

/// A member of an object is found by its key; of several with one key, the first
/// is found. Nothing is found where no member has the key.
pub proof fn members_are_found_by_key(members: Seq<(String, JsonValue)>, key: Seq<char>)
    ensures
        forall|i: int|
            0 <= i < members.len() && (#[trigger] members[i]).0@ == key && (forall|k: int|
                0 <= k < i ==> (#[trigger] members[k]).0@ != key) ==> member_of(members, key)
                == Some(members[i].1),
        (forall|i: int| 0 <= i < members.len() ==> (#[trigger] members[i]).0@ != key)
            ==> member_of(members, key) is None,
    decreases members.len(),
{
    if members.len() > 0 {
        let rest = members.drop_first();
        members_are_found_by_key(rest, key);
        assert forall|i: int|
            0 <= i < members.len() && (#[trigger] members[i]).0@ == key && (forall|k: int|
                0 <= k < i ==> (#[trigger] members[k]).0@ != key) implies member_of(members, key)
            == Some(members[i].1) by {
            if i > 0 {
                assert(members[0].0@ != key);
                assert(rest[i - 1] == members[i]);
                assert forall|k: int| 0 <= k < i - 1 implies (#[trigger] rest[k]).0@ != key by {
                    assert(rest[k] == members[k + 1]);
                }
            }
        }
        if forall|i: int| 0 <= i < members.len() ==> (#[trigger] members[i]).0@ != key {
            assert(members[0].0@ != key);
            assert forall|i: int| 0 <= i < rest.len() implies (#[trigger] rest[i]).0@ != key by {
                assert(rest[i] == members[i + 1]);
            }
        }
    }
}

/// The member at a place is the one that its key finds.
pub open spec fn is_member_at(
    members: Seq<(String, JsonValue)>,
    key: Seq<char>,
    place: int,
) -> bool {
    &&& 0 <= place < members.len()
    &&& members[place].0@ == key
    &&& forall|k: int| 0 <= k < place ==> (#[trigger] members[k]).0@ != key
}

/// What stands under `dependencies` in what stands under `metadata` is what a
/// release declares: one requirement for each member, in order, with the key of
/// the member as its name and the whole string as its requirement. Null declares
/// nothing, and anything else cannot be read.
pub proof fn dependencies_are_read_member_by_member(
    entry: Vec<(String, JsonValue)>,
    i: int,
    metadata: Vec<(String, JsonValue)>,
    j: int,
)
    requires
        is_member_at(entry@, "metadata"@, i),
        entry@[i].1 == JsonValue::Object(metadata),
        is_member_at(metadata@, "dependencies"@, j),
    ensures
        match metadata@[j].1 {
            JsonValue::Null => declared_requirements(JsonValue::Object(entry)) == Ok::<
                Seq<RequirementView>,
                MetadataError,
            >(seq![]),
            JsonValue::Object(members) => match declared_requirements(JsonValue::Object(entry)) {
                Ok(declared) => {
                    &&& declared.len() == members@.len()
                    &&& forall|k: int|
                        0 <= k < members@.len() ==> {
                            &&& (#[trigger] declared[k]).name == members@[k].0@
                            &&& members@[k].1 matches JsonValue::Text(text)
                                && declared[k].requirement == text@
                        }
                },
                Err(error) => {
                    &&& error == MetadataError::RequirementNotString
                    &&& exists|k: int|
                        0 <= k < members@.len() && !((#[trigger] members@[k]).1 is Text)
                },
            },
            _ => declared_requirements(JsonValue::Object(entry)) == Err::<
                Seq<RequirementView>,
                MetadataError,
            >(MetadataError::DependenciesNotObject),
        },
{
    members_are_found_by_key(entry@, "metadata"@);
    members_are_found_by_key(metadata@, "dependencies"@);
}

/// A release whose metadata have no dependencies section declares nothing.
pub proof fn nothing_is_declared_without_a_section(entry: JsonValue)
    requires
        match entry {
            JsonValue::Object(members) => {
                ||| forall|k: int| 0 <= k < members@.len() ==> (#[trigger] members@[k]).0@ != "metadata"@
                ||| exists|i: int| #[trigger]
                    is_member_at(members@, "metadata"@, i) && match members@[i].1 {
                        JsonValue::Object(metadata) => forall|k: int|
                            0 <= k < metadata@.len() ==> (#[trigger] metadata@[k]).0@
                                != "dependencies"@,
                        _ => true,
                    }
            },
            _ => true,
        },
    ensures
        declared_requirements(entry) == Ok::<Seq<RequirementView>, MetadataError>(seq![]),
{
    if let JsonValue::Object(members) = entry {
        members_are_found_by_key(members@, "metadata"@);
        if exists|i: int| #[trigger] is_member_at(members@, "metadata"@, i) {
            let i = choose|i: int| #[trigger]
                is_member_at(members@, "metadata"@, i) && match members@[i].1 {
                    JsonValue::Object(metadata) => forall|k: int|
                        0 <= k < metadata@.len() ==> (#[trigger] metadata@[k]).0@
                            != "dependencies"@,
                    _ => true,
                };
            if let JsonValue::Object(metadata) = members@[i].1 {
                members_are_found_by_key(metadata@, "dependencies"@);
            }
        }
    }
}

/// The text at a place in a list is the newest, by semver, of those that match a
/// requirement: `semver` reads it with the numbers filled up and finds that it
/// matches, no other text of which that holds has a greater place in semver's
/// order, and those that are listed later have a smaller one.
pub open spec fn is_newest_match(
    listed: Seq<Seq<char>>,
    requirement: Seq<char>,
    i: int,
) -> bool {
    &&& 0 <= i < listed.len()
    &&& semver_version(normalized_version(listed[i])) is Ok
    &&& semver_matches(requirement, normalized_version(listed[i]))
    &&& forall|j: int|
        0 <= j < listed.len() && semver_version(normalized_version(#[trigger] listed[j])) is Ok
            && semver_matches(requirement, normalized_version(listed[j])) ==> !lex_less(
            semver_sort_key(normalized_version(listed[i])),
            semver_sort_key(normalized_version(listed[j])),
        )
    &&& forall|j: int|
        i < j < listed.len() && semver_version(normalized_version(#[trigger] listed[j])) is Ok
            && semver_matches(requirement, normalized_version(listed[j])) ==> lex_less(
            semver_sort_key(normalized_version(listed[j])),
            semver_sort_key(normalized_version(listed[i])),
        )
}

/// A requirement leads to the release with the required name whose version is
/// the newest listed text that matches, as it is listed. It leads nowhere only
/// where it cannot be read, nothing is listed, or nothing that is listed
/// matches.
pub proof fn requirements_lead_to_the_newest_match(data: GalaxyData, required: RequirementView)
    ensures
        match leads_to(data, required) {
            Some(package) => {
                &&& package.name == required.name
                &&& data.versions.contains_key(required.name)
                &&& semver_requirement(normalized_requirement(required.requirement)) is Ok
                &&& exists|i: int|
                    data.versions[required.name][i] == package.version && #[trigger] is_newest_match(
                        data.versions[required.name],
                        normalized_requirement(required.requirement),
                        i,
                    )
            },
            None => {
                ||| !data.versions.contains_key(required.name)
                ||| semver_requirement(normalized_requirement(required.requirement)) is Err
                ||| forall|j: int|
                    0 <= j < data.versions[required.name].len() && semver_version(
                        normalized_version(#[trigger] data.versions[required.name][j]),
                    ) is Ok ==> !semver_matches(
                        normalized_requirement(required.requirement),
                        normalized_version(data.versions[required.name][j]),
                    )
            },
        },
{
    let listed = data.versions[required.name];
    let requirement = normalized_requirement(required.requirement);
    matching_version_is_newest_by_semver(listed, requirement);
    if let Some(package) = leads_to(data, required) {
        let latest = package.version;
        let i = choose|i: int|
            {
                &&& 0 <= i < listed.len()
                &&& #[trigger] listed[i] == latest
                &&& semver_version(normalized_version(listed[i])) is Ok
                &&& semver_matches(requirement, normalized_version(listed[i]))
                &&& forall|j: int|
                    0 <= j < listed.len() && semver_version(
                        normalized_version(#[trigger] listed[j]),
                    ) is Ok && semver_matches(requirement, normalized_version(listed[j]))
                        ==> !lex_less(
                        semver_sort_key(normalized_version(latest)),
                        semver_sort_key(normalized_version(listed[j])),
                    )
                &&& forall|j: int|
                    i < j < listed.len() && semver_version(
                        normalized_version(#[trigger] listed[j]),
                    ) is Ok && semver_matches(requirement, normalized_version(listed[j]))
                        ==> lex_less(
                        semver_sort_key(normalized_version(listed[j])),
                        semver_sort_key(normalized_version(latest)),
                    )
            };
        assert(is_newest_match(listed, requirement, i));
    }
}

/// Every dependency is there because a release that is reachable declares a
/// requirement for its name, of which its version is the newest listed text that
/// matches.
pub proof fn dependencies_are_the_newest_matches(
    data: GalaxyData,
    root: PackageView,
    dependencies: Set<PackageView>,
    package: PackageView,
)
    requires
        is_closure(data, root, dependencies),
        dependencies.contains(package),
    ensures
        exists|asker: PackageView, required: RequirementView, i: int|
            {
                &&& reachable(data, root, asker)
                &&& #[trigger] declares(data, asker, required)
                &&& required.name == package.name
                &&& data.versions.contains_key(package.name)
                &&& data.versions[package.name][i] == package.version
                &&& #[trigger] is_newest_match(
                    data.versions[package.name],
                    normalized_requirement(required.requirement),
                    i,
                )
            },
{
    let chain = choose|chain: Seq<PackageView>| #[trigger]
        is_chain(data, chain) && chain[0] == root && chain.last() == package;
    let last = chain.len() - 1;
    assert(last > 0);
    let shorter = chain.drop_last();
    let asker = shorter.last();
    assert forall|i: int| 0 <= i < shorter.len() - 1 implies depends_on(
        data,
        #[trigger] shorter[i],
        shorter[i + 1],
    ) by {
        assert(depends_on(data, chain[i], chain[i + 1]));
    }
    assert(is_chain(data, shorter) && shorter[0] == root);
    assert(depends_on(data, chain[last - 1], chain[last - 1 + 1]));
    let required = choose|required: RequirementView| #[trigger]
        declares(data, asker, required) && leads_to(data, required) == Some(package);
    requirements_lead_to_the_newest_match(data, required);
}

/// Without a version, an identification starts from the newest listed text, by
/// semver, that `semver` reads with the numbers filled up, and from none only
/// where there is no such text. With a version it starts from that.
pub proof fn identification_starts_from_the_newest(
    data: GalaxyData,
    name: Seq<char>,
    version: Option<Seq<char>>,
)
    ensures
        version is Some ==> start_version(data, name, version) == version,
        version is None ==> match start_version(data, name, version) {
            Some(latest) => {
                &&& data.versions.contains_key(name)
                &&& exists|i: int|
                    {
                        &&& 0 <= i < data.versions[name].len()
                        &&& #[trigger] data.versions[name][i] == latest
                        &&& semver_version(normalized_version(latest)) is Ok
                        &&& forall|j: int|
                            0 <= j < data.versions[name].len() && semver_version(
                                normalized_version(#[trigger] data.versions[name][j]),
                            ) is Ok ==> !lex_less(
                                semver_sort_key(normalized_version(latest)),
                                semver_sort_key(normalized_version(data.versions[name][j])),
                            )
                        &&& forall|j: int|
                            i < j < data.versions[name].len() && semver_version(
                                normalized_version(#[trigger] data.versions[name][j]),
                            ) is Ok ==> lex_less(
                                semver_sort_key(normalized_version(data.versions[name][j])),
                                semver_sort_key(normalized_version(latest)),
                            )
                    }
            },
            None => {
                ||| !data.versions.contains_key(name)
                ||| forall|j: int|
                    0 <= j < data.versions[name].len() ==> semver_version(
                        normalized_version(#[trigger] data.versions[name][j]),
                    ) is Err
            },
        },
{
    latest_version_is_newest_by_semver(data.versions[name]);
}

/// One text comes before another: they agree up to some place, where the first
/// has the character with the smaller code point or has ended and the second has
/// not.
pub open spec fn comes_first(a: Seq<char>, b: Seq<char>) -> bool {
    exists|k: int|
        {
            &&& 0 <= k <= a.len()
            &&& k < b.len()
            &&& #[trigger] a.take(k) == b.take(k)
            &&& k == a.len() || (a[k] as int) < (b[k] as int)
        }
}

/// Texts are ordered by the first character in which they differ.
pub proof fn texts_are_ordered_by_the_first_difference(a: Seq<char>, b: Seq<char>)
    ensures
        text_less(a, b) <==> comes_first(a, b),
{
    let (l, r) = (code_points(a), code_points(b));
    lex_less_compares_at_the_first_difference(l, r);
    assert(l.len() == a.len() && r.len() == b.len());
    if text_less(a, b) {
        let k = choose|k: int|
            {
                &&& 0 <= k <= l.len()
                &&& k < r.len()
                &&& #[trigger] l.take(k) == r.take(k)
                &&& k == l.len() || l[k] < r[k]
            };
        assert forall|i: int| 0 <= i < k implies a[i] == b[i] by {
            assert(l.take(k)[i] == r.take(k)[i]);
            assert(l[i] == a[i] as int && r[i] == b[i] as int);
        }
        assert(a.take(k) =~= b.take(k));
    }
    if comes_first(a, b) {
        let k = choose|k: int|
            {
                &&& 0 <= k <= a.len()
                &&& k < b.len()
                &&& #[trigger] a.take(k) == b.take(k)
                &&& k == a.len() || (a[k] as int) < (b[k] as int)
            };
        assert forall|i: int| 0 <= i < k implies l[i] == r[i] by {
            assert(a.take(k)[i] == b.take(k)[i]);
        }
        assert(l.take(k) =~= r.take(k));
    }
}

/// A list of dependencies stands in the order of names, and of versions where the
/// names are equal, with none of them twice.
pub open spec fn is_in_order(list: Seq<Dependency>) -> bool {
    forall|i: int, j: int|
        0 <= i < j < list.len() ==> {
            ||| comes_first((#[trigger] list[i]).name@, (#[trigger] list[j]).name@)
            ||| list[i].name@ == list[j].name@ && comes_first(
                list[i].version@,
                list[j].version@,
            )
        }
}

/// A list of dependencies holds a release.
pub open spec fn holds(list: Seq<Dependency>, package: PackageView) -> bool {
    exists|i: int|
        0 <= i < list.len() && (#[trigger] list[i]).name@ == package.name && list[i].version@
            == package.version
}

proof fn lemma_list_is_read_by_fields(list: Seq<Dependency>)
    requires
        ascending(found(list)),
    ensures
        is_in_order(list),
        forall|package: PackageView|
            found(list).to_set().contains(package) <==> #[trigger] holds(list, package),
{
    let releases = found(list);
    assert forall|i: int, j: int| 0 <= i < j < list.len() implies {
        ||| comes_first((#[trigger] list[i]).name@, (#[trigger] list[j]).name@)
        ||| list[i].name@ == list[j].name@ && comes_first(list[i].version@, list[j].version@)
    } by {
        assert(releases[i] == list[i]@ && releases[j] == list[j]@);
        assert(package_less(releases[i], releases[j]));
        texts_are_ordered_by_the_first_difference(list[i].name@, list[j].name@);
        texts_are_ordered_by_the_first_difference(list[i].version@, list[j].version@);
    }
    assert forall|package: PackageView|
        releases.to_set().contains(package) <==> #[trigger] holds(list, package) by {
        if releases.contains(package) {
            let i = choose|i: int| 0 <= i < releases.len() && releases[i] == package;
            assert(list[i].name@ == package.name && list[i].version@ == package.version);
        }
        if holds(list, package) {
            let i = choose|i: int|
                0 <= i < list.len() && (#[trigger] list[i]).name@ == package.name
                    && list[i].version@ == package.version;
            assert(releases[i] == package);
        }
    }
}

/// The list that a walk hands out holds exactly the releases that a chain of
/// dependencies leads to from the root, without the root, each once and in
/// order.
pub proof fn walk_hands_out_the_closure<E>(
    source: Source<E>,
    data: GalaxyData,
    root: PackageView,
    n: nat,
    step: ClosureStep<E>,
)
    requires
        source.gives(data),
        step@ == walk_after(source, root, n),
        step.in_order(),
    ensures
        step matches ClosureStep::Finished(Ok(list)) ==> {
            &&& is_in_order(list@)
            &&& forall|q: PackageView| #[trigger]
                holds(list@, q) <==> reachable(data, root, q) && q != root
        },
{
    walk_finds_the_closure(source, data, root, n);
    if let ClosureStep::Finished(Ok(list)) = step {
        lemma_list_is_read_by_fields(list@);
    }
}

/// What an identification hands out: the version that it started from, the host
/// of the registry, and exactly the releases that a chain of dependencies leads
/// to from there, each once and in order.
pub open spec fn is_right_answer(
    data: GalaxyData,
    name: Seq<char>,
    version: Option<Seq<char>>,
    answer: PackageDependencies,
) -> bool {
    &&& start_version(data, name, version) == Some(answer.package_version@)
    &&& answer.registry_host_name@ == "galaxy.ansible.com"@
    &&& is_in_order(answer.dependencies@)
    &&& forall|q: PackageView| #[trigger]
        holds(answer.dependencies@, q) <==> {
            let root = PackageView { name, version: answer.package_version@ };
            reachable(data, root, q) && q != root
        }
}

/// An identification that is done hands out the right answer.
pub proof fn identification_hands_out_the_right_answer<E>(
    source: Source<E>,
    data: GalaxyData,
    name: Seq<char>,
    version: Option<Seq<char>>,
    n: nat,
    step: IdentifyStep<E>,
)
    requires
        source.gives(data),
        step@ == identify_after(source, name, version, n),
        step.in_order(),
    ensures
        step matches IdentifyStep::Finished(Ok(answer)) ==> is_right_answer(
            data,
            name,
            version,
            answer,
        ),
{
    if let IdentifyStep::Finished(Ok(answer)) = step {
        assert(question(step@) is None);
        identification_finds_the_closure(source, data, name, version, n);
        lemma_list_is_read_by_fields(answer.dependencies@);
    }
}

/// An identification over a cached source that is done hands out the right
/// answer.
pub proof fn cached_identification_hands_out_the_right_answer<E>(
    source: Source<E>,
    data: GalaxyData,
    name: Seq<char>,
    version: Option<Seq<char>>,
    n: nat,
    step: CachedStep<E>,
)
    requires
        source.gives(data),
        step@ == cached_after(source, name, version, n),
        step.in_order(),
    ensures
        step matches CachedStep::Finished(Ok(answer)) ==> is_right_answer(
            data,
            name,
            version,
            answer,
        ),
{
    if let CachedStep::Finished(Ok(answer)) = step {
        cached_identification_finds_the_closure(source, data, name, version, n);
        lemma_list_is_read_by_fields(answer.dependencies@);
    }
}

/// What is said of releases, requirements and errors is said of their fields.
pub proof fn views_show_the_fields<E>(
    key: PackageKey,
    required: DependencyRequirement,
    dependency: Dependency,
    error: ResolveError<E>,
    cause: VersionError,
)
    ensures
        key@.name == key.name@ && key@.version == key.version@,
        required@.name == required.name@ && required@.requirement == required.requirement@,
        dependency@.name == dependency.name@ && dependency@.version == dependency.version@,
        match error {
            ResolveError::Source(e) => error@ == Failure::<E>::Source(e),
            ResolveError::Version(e) => error@ == Failure::<E>::Version(e@),
            ResolveError::Metadata(e) => error@ == Failure::<E>::Metadata(e),
            ResolveError::Unresolved { name, requirement, cause: e } => error@
                matches Failure::Unresolved { required: r, cause: c } && r.name == name@
                && r.requirement == requirement@ && c == e@,
        },
        match cause {
            VersionError::InvalidVersion { normalized, cause: e } => cause@ == (
            VersionFailure::InvalidVersion { normalized: normalized@, cause: e }),
            VersionError::InvalidRequirement { normalized, cause: e } => cause@ == (
            VersionFailure::InvalidRequirement { normalized: normalized@, cause: e }),
            VersionError::NoLatestVersion => cause@ == VersionFailure::NoLatestVersion,
            VersionError::NoMatchingVersion => cause@ == VersionFailure::NoMatchingVersion,
        },
{
}

/// An answer that is kept is known, and changes nothing else that is known.
pub proof fn kept_answers_are_known(
    known: GalaxyData,
    package: PackageView,
    entry: JsonValue,
    name: Seq<char>,
    versions: Seq<Seq<char>>,
)
    ensures
        GalaxyData::nothing().entries.dom() == Set::<PackageView>::empty(),
        GalaxyData::nothing().versions.dom() == Set::<Seq<char>>::empty(),
        known.with_entry(package, entry).entries == known.entries.insert(package, entry),
        known.with_entry(package, entry).versions == known.versions,
        known.with_versions(name, versions).versions == known.versions.insert(name, versions),
        known.with_versions(name, versions).entries == known.entries,
{
}

} // verus!
