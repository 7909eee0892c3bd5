//! In what order a walk takes what it has to do, and why it fails.

use vstd::prelude::*;

use crate::cache::GalaxyData;
use crate::closure::{resolved_release, walk_on, StepView, WalkView};
use crate::failure::Failure;
use crate::laws::{declares, is_read, reachable, walk_after, walk_next, wanted, Source};
use crate::laws::{identify_after, lemma_identification_walks, start_version, walk_source};
use crate::laws::{lemma_walk_goes_on, lemma_walk_on_track};
use crate::metadata::{declared_requirements, JsonValue};
use crate::package::{PackageView, RequirementView};
use crate::resolver::{identify_start, IdentifyView};
use crate::semantic::{semver_matches, semver_requirement, semver_version};
use crate::version::{normalized_requirement, normalized_version, VersionFailure};
use crate::version_laws::matching_version_is_newest_by_semver;

verus! {

/// What was declared in the metadata that a walk was given in the course of its
/// first questions, one after the other.
pub open spec fn declared_so_far<E>(source: Source<E>, root: PackageView, n: nat) -> Seq<
    RequirementView,
>
    decreases n,
{
    if n == 0 {
        seq![]
    } else {
        let m = (n - 1) as nat;
        let before = declared_so_far(source, root, m);
        match walk_after(source, root, m) {
            StepView::Entry { package, .. } => match (source.entry)(m, package) {
                Ok(entry) => match declared_requirements(entry) {
                    Ok(declared) => before + declared,
                    Err(_) => before,
                },
                Err(_) => before,
            },
            _ => before,
        }
    }
}

/// The requirements that a walk has asked for versions for, up to the question
/// that comes after so many others.
pub open spec fn taken_up<E>(source: Source<E>, root: PackageView, n: nat) -> Seq<RequirementView>
    decreases n,
{
    if n == 0 {
        seq![]
    } else {
        let before = taken_up(source, root, (n - 1) as nat);
        match walk_after(source, root, n) {
            StepView::Versions { required, .. } => before.push(required),
            _ => before,
        }
    }
}

/// What a walk has before it is what was declared and is not taken up. A walk
/// that fails has taken up the requirement that it fails for, or comes to it
/// next.
spec fn queue_kept<E>(
    declared: Seq<RequirementView>,
    taken: Seq<RequirementView>,
    step: StepView<E>,
) -> bool {
    match step {
        StepView::Entry { walk, .. } => taken + walk.pending == declared,
        StepView::Versions { walk, required } => {
            &&& taken + walk.pending == declared
            &&& taken.len() > 0 && taken.last() == required
        },
        StepView::Resolved(_) => taken == declared,
        StepView::Failed(failure) => {
            &&& taken.len() <= declared.len()
            &&& taken == declared.take(taken.len() as int)
            &&& failure_fits(declared, taken, failure)
        },
    }
}

/// The failure is one for the requirement that was taken up last, or that comes
/// next.
pub open spec fn failure_fits<E>(
    declared: Seq<RequirementView>,
    taken: Seq<RequirementView>,
    failure: Failure<E>,
) -> bool {
    match failure {
        Failure::Unresolved { required, cause } => {
            &&& taken.len() > 0
            &&& required == taken.last()
            &&& cause == VersionFailure::NoMatchingVersion
        },
        Failure::Version(VersionFailure::InvalidRequirement { normalized, cause }) => {
            &&& taken.len() < declared.len()
            &&& normalized == normalized_requirement(declared[taken.len() as int].requirement)
            &&& semver_requirement(normalized) == Err::<semver::VersionReq, semver::Error>(cause)
        },
        Failure::Version(_) => false,
        _ => true,
    }
}

proof fn lemma_queue_after_walk_on<E>(
    declared: Seq<RequirementView>,
    before: Seq<RequirementView>,
    walk: WalkView,
)
    requires
        before + walk.pending == declared,
    ensures
        queue_kept(
            declared,
            match walk_on::<E>(walk) {
                StepView::Versions { required, .. } => before.push(required),
                _ => before,
            },
            walk_on::<E>(walk),
        ),
{
    if walk.pending.len() == 0 {
        assert(before =~= declared);
    } else {
        let first = walk.pending[0];
        assert(declared[before.len() as int] == first);
        assert(before.push(first) + walk.pending.drop_first() =~= declared);
        assert(declared.take(before.len() as int) =~= before);
    }
}

proof fn lemma_queue_kept<E>(source: Source<E>, root: PackageView, n: nat)
    ensures
        queue_kept(
            declared_so_far(source, root, n),
            taken_up(source, root, n),
            walk_after(source, root, n),
        ),
    decreases n,
{
    if n == 0 {
        assert(seq![] + Seq::<RequirementView>::empty() =~= Seq::<RequirementView>::empty());
    } else {
        let m = (n - 1) as nat;
        lemma_queue_kept(source, root, m);
        let step = walk_after(source, root, m);
        let next = walk_after(source, root, n);
        assert(next == walk_next(source, m, step));
        let before = taken_up(source, root, m);
        let so_far = declared_so_far(source, root, m);
        let declared = declared_so_far(source, root, n);
        match step {
            StepView::Entry { walk, package } => {
                match (source.entry)(m, package) {
                    Ok(entry) => match declared_requirements(entry) {
                        Ok(more) => {
                            let after = WalkView { pending: walk.pending + more, ..walk };
                            assert(before + after.pending =~= so_far + more);
                            lemma_queue_after_walk_on::<E>(declared, before, after);
                        },
                        Err(_) => {
                            assert(declared.take(before.len() as int) =~= before);
                        },
                    },
                    Err(_) => {
                        assert(declared.take(before.len() as int) =~= before);
                    },
                }
            },
            StepView::Versions { walk, required } => {
                match (source.versions)(m, required.name) {
                    Ok(versions) => match resolved_release(required, versions) {
                        Some(package) => {
                            if walk.visited.contains(package) {
                                lemma_queue_after_walk_on::<E>(declared, before, walk);
                            }
                        },
                        None => {
                            assert(declared.take(before.len() as int) =~= before);
                        },
                    },
                    Err(_) => {
                        assert(declared.take(before.len() as int) =~= before);
                    },
                }
            },
            _ => {},
        }
    }
}

/// A walk takes up requirements in the order in which they were declared, none
/// left out and none twice, and is done only when all are taken up. Where it
/// fails for a requirement, it is the one whose turn it is.
pub proof fn requirements_are_taken_up_as_declared<E>(source: Source<E>, root: PackageView, n: nat)
    ensures
        taken_up(source, root, n).len() <= declared_so_far(source, root, n).len(),
        taken_up(source, root, n) == declared_so_far(source, root, n).take(
            taken_up(source, root, n).len() as int,
        ),
        walk_after(source, root, n) is Resolved ==> taken_up(source, root, n) == declared_so_far(
            source,
            root,
            n,
        ),
        walk_after(source, root, n) matches StepView::Failed(failure) ==> failure_fits(
            declared_so_far(source, root, n),
            taken_up(source, root, n),
            failure,
        ),
{
    lemma_queue_kept(source, root, n);
    let taken = taken_up(source, root, n);
    let declared = declared_so_far(source, root, n);
    assert(taken =~= declared.take(taken.len() as int));
}

/// A release was asked for by one of the first questions.
pub open spec fn was_read<E>(
    source: Source<E>,
    root: PackageView,
    n: nat,
    package: PackageView,
) -> bool {
    exists|m: nat| m <= n && is_read(#[trigger] walk_after(source, root, m), package)
}

spec fn visited_is_read<E>(source: Source<E>, root: PackageView, n: nat) -> bool {
    match walk_after(source, root, n) {
        StepView::Entry { walk, .. } => forall|p: PackageView|
            walk.visited.contains(p) <==> #[trigger] was_read(source, root, n, p),
        StepView::Versions { walk, .. } => forall|p: PackageView|
            walk.visited.contains(p) <==> #[trigger] was_read(source, root, n, p),
        _ => true,
    }
}

proof fn lemma_visited_is_read<E>(source: Source<E>, root: PackageView, n: nat)
    ensures
        visited_is_read(source, root, n),
    decreases n,
{
    let next = walk_after(source, root, n);
    if n == 0 {
        assert forall|p: PackageView| p == root <==> #[trigger] was_read(source, root, 0, p) by {
            if p == root {
                assert(is_read(walk_after(source, root, 0), p));
            }
        }
    } else {
        let m = (n - 1) as nat;
        lemma_visited_is_read(source, root, m);
        assert(next == walk_next(source, m, walk_after(source, root, m)));
        assert forall|p: PackageView| #[trigger] was_read(source, root, n, p) <==> was_read(
            source,
            root,
            m,
            p,
        ) || is_read(next, p) by {
            if was_read(source, root, n, p) {
                let k = choose|k: nat| k <= n && is_read(#[trigger] walk_after(source, root, k), p);
                if k < n {
                    assert(k <= m);
                }
            }
        }
    }
}

/// No release is asked for twice in a walk, whatever the source answers.
pub proof fn no_release_is_read_twice<E>(
    source: Source<E>,
    root: PackageView,
    i: nat,
    j: nat,
    package: PackageView,
)
    requires
        i < j,
        is_read(walk_after(source, root, i), package),
    ensures
        !is_read(walk_after(source, root, j), package),
{
    let m = (j - 1) as nat;
    lemma_visited_is_read(source, root, m);
    assert(walk_after(source, root, j) == walk_next(source, m, walk_after(source, root, m)));
    assert(was_read(source, root, m, package));
}

/// When a walk is told the versions that it asked for, it asks at once for the
/// release that they lead to, unless it has asked for it before; then it asks
/// for none.
pub proof fn a_release_is_read_when_it_is_found<E>(
    source: Source<E>,
    root: PackageView,
    n: nat,
    package: PackageView,
)
    requires
        walk_after(source, root, n) matches StepView::Versions { required, .. } && (
        source.versions)(n, required.name) matches Ok(versions) && resolved_release(
            required,
            versions,
        ) == Some(package),
    ensures
        was_read(source, root, n, package) ==> !(walk_after(source, root, n + 1) is Entry),
        !was_read(source, root, n, package) ==> is_read(
            walk_after(source, root, n + 1),
            package,
        ),
{
    lemma_visited_is_read(source, root, n);
    assert(walk_after(source, root, n + 1) == walk_next(source, n, walk_after(source, root, n)));
}

/// Why a walk over the data fails: a release that is reachable is missing or
/// cannot be read, or declares a requirement that cannot be read, for which
/// nothing is listed, or that nothing that is listed matches. The failure says
/// which.
pub open spec fn is_explained<E>(
    source: Source<E>,
    data: GalaxyData,
    root: PackageView,
    failure: Failure<E>,
) -> bool {
    match failure {
        Failure::Source(error) => {
            ||| exists|m: nat, p: PackageView|
                reachable(data, root, p) && #[trigger] (source.entry)(m, p) == Err::<
                    JsonValue,
                    E,
                >(error)
            ||| exists|m: nat, p: PackageView, required: RequirementView|
                reachable(data, root, p) && #[trigger] declares(data, p, required) && #[trigger] (
                source.versions)(m, required.name) == Err::<Seq<Seq<char>>, E>(error)
        },
        Failure::Metadata(error) => exists|p: PackageView| #[trigger]
            reachable(data, root, p) && data.entries.contains_key(p) && declared_requirements(
                data.entries[p],
            ) == Err::<Seq<RequirementView>, crate::metadata::MetadataError>(error),
        Failure::Version(VersionFailure::InvalidRequirement { normalized, cause }) => exists|
            p: PackageView,
            required: RequirementView,
        |
            reachable(data, root, p) && #[trigger] declares(data, p, required) && normalized
                == normalized_requirement(required.requirement) && semver_requirement(normalized)
                == Err::<semver::VersionReq, semver::Error>(cause),
        Failure::Version(_) => false,
        Failure::Unresolved { required, cause } => {
            &&& cause == VersionFailure::NoMatchingVersion
            &&& exists|p: PackageView|
                reachable(data, root, p) && #[trigger] declares(data, p, required)
            &&& data.versions.contains_key(required.name)
            &&& forall|j: int|
                0 <= j < data.versions[required.name].len() && semver_version(
                    normalized_version(#[trigger] data.versions[required.name][j]),
                ) is Ok ==> !semver_matches(
                    normalized_requirement(required.requirement),
                    normalized_version(data.versions[required.name][j]),
                )
        },
    }
}

proof fn lemma_walk_on_explained<E>(
    source: Source<E>,
    data: GalaxyData,
    root: PackageView,
    walk: WalkView,
)
    requires
        walk.pending.len() > 0 ==> wanted(data, root, walk.pending[0]),
    ensures
        walk_on::<E>(walk) matches StepView::Failed(failure) ==> is_explained(
            source,
            data,
            root,
            failure,
        ),
{
    if walk.pending.len() > 0 {
        let required = walk.pending[0];
        let p = choose|p: PackageView|
            reachable(data, root, p) && #[trigger] declares(data, p, required);
        assert(declares(data, p, required));
    }
}

/// A walk that fails says why, and it is so.
pub proof fn walk_failures_are_explained<E>(
    source: Source<E>,
    data: GalaxyData,
    root: PackageView,
    n: nat,
)
    requires
        source.gives(data),
    ensures
        walk_after(source, root, n) matches StepView::Failed(failure) ==> is_explained(
            source,
            data,
            root,
            failure,
        ),
    decreases n,
{
    if n > 0 {
        let m = (n - 1) as nat;
        let step = walk_after(source, root, m);
        assert(walk_after(source, root, n) == walk_next(source, m, step));
        walk_failures_are_explained(source, data, root, m);
        lemma_walk_on_track(source, data, root, m);
        lemma_walk_goes_on(source, data, m, step);
        match step {
            StepView::Entry { walk, package } => {
                assert(reachable(data, root, package));
                match (source.entry)(m, package) {
                    Ok(entry) => {
                        assert(data.entries[package] == entry);
                        if let Ok(declared) = declared_requirements(entry) {
                            let after = WalkView { pending: walk.pending + declared, ..walk };
                            if walk.pending.len() > 0 {
                                assert(after.pending[0] == walk.pending[0]);
                            } else if declared.len() > 0 {
                                assert(after.pending[0] == declared[0]);
                                assert(declared.contains(declared[0]));
                                assert(declares(data, package, declared[0]));
                            }
                            lemma_walk_on_explained(source, data, root, after);
                        }
                    },
                    Err(error) => {},
                }
            },
            StepView::Versions { walk, required } => {
                let open = seq![required] + walk.pending;
                assert(open[0] == required);
                assert(wanted(data, root, required));
                let p = choose|p: PackageView|
                    reachable(data, root, p) && #[trigger] declares(data, p, required);
                assert(declares(data, p, required));
                if walk.pending.len() > 0 {
                    assert(open[1] == walk.pending[0]);
                }
                lemma_walk_on_explained(source, data, root, walk);
                match (source.versions)(m, required.name) {
                    Ok(versions) => {
                        assert(data.versions[required.name] == versions);
                        matching_version_is_newest_by_semver(
                            versions,
                            normalized_requirement(required.requirement),
                        );
                    },
                    Err(error) => {},
                }
            },
            _ => {},
        }
    }
}

/// An identification that fails says why, and it is so: there is no version to
/// start from, or its walk fails.
pub proof fn identification_failures_are_explained<E>(
    source: Source<E>,
    data: GalaxyData,
    name: Seq<char>,
    version: Option<Seq<char>>,
    n: nat,
)
    requires
        source.gives(data),
    ensures
        identify_after(source, name, version, n) matches IdentifyView::Failed(failure) ==> match start_version(
            data,
            name,
            version,
        ) {
            Some(v) => is_explained(source, data, PackageView { name, version: v }, failure),
            None => if data.versions.contains_key(name) {
                failure == Failure::<E>::Version(VersionFailure::NoLatestVersion)
            } else {
                failure matches Failure::Source(error) && (source.versions)(0, name) == Err::<
                    Seq<Seq<char>>,
                    E,
                >(error)
            },
        },
    decreases n,
{
    let asked = walk_source(source, version);
    match start_version(data, name, version) {
        Some(v) => {
            let root = PackageView { name, version: v };
            if version is Some || n > 0 {
                let m = if version is Some {
                    n
                } else {
                    (n - 1) as nat
                };
                lemma_identification_walks(source, data, name, version, m);
                walk_failures_are_explained(asked, data, root, m);
                if let StepView::Failed(failure) = walk_after(asked, root, m) {
                    lemma_explained_by_source(source, version, data, root, failure);
                }
            }
        },
        None => {
            if n > 0 {
                let m = (n - 1) as nat;
                let start = identify_start::<E>(name, version);
                identification_failures_are_explained(source, data, name, version, m);
                if m == 0 {
                    assert(identify_after(source, name, version, 0) == start);
                    let reply = (source.versions)(0, name);
                } else {
                    lemma_identification_walks(source, data, name, version, (m - 1) as nat);
                }
            }
        },
    }
}

proof fn lemma_explained_by_source<E>(
    source: Source<E>,
    version: Option<Seq<char>>,
    data: GalaxyData,
    root: PackageView,
    failure: Failure<E>,
)
    requires
        is_explained(walk_source(source, version), data, root, failure),
    ensures
        is_explained(source, data, root, failure),
{
    let asked = walk_source(source, version);
    if let Failure::Source(error) = failure {
        if version is None {
            if exists|m: nat, p: PackageView|
                reachable(data, root, p) && #[trigger] (asked.entry)(m, p) == Err::<JsonValue, E>(
                    error,
                ) {
                let (m, p) = choose|m: nat, p: PackageView|
                    reachable(data, root, p) && #[trigger] (asked.entry)(m, p) == Err::<
                        JsonValue,
                        E,
                    >(error);
                assert((source.entry)(m + 1, p) == Err::<JsonValue, E>(error));
            } else {
                let (m, p, required) = choose|m: nat, p: PackageView, required: RequirementView|
                    reachable(data, root, p) && #[trigger] declares(data, p, required)
                        && #[trigger] (asked.versions)(m, required.name) == Err::<
                        Seq<Seq<char>>,
                        E,
                    >(error);
                assert((source.versions)(m + 1, required.name) == Err::<Seq<Seq<char>>, E>(
                    error,
                ));
                assert(declares(data, p, required));
            }
        }
    }
}

} // verus!
