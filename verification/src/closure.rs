//! The walk from one release of a collection over all that it requires.
//!
//! The walk asks for what it needs to know, the metadata of a release or the
//! versions of a collection, and goes on when it is answered.

use std::collections::VecDeque;
use vstd::prelude::*;

use crate::failure::{Failure, ResolveError};
use crate::metadata::{declared_requirements, dependency_requirements, JsonValue};
use crate::package::{ascending, contains_package, found, insert_dependency, packages, requirements};
use crate::package::{Dependency, DependencyRequirement, PackageKey, PackageView, RequirementView};
use crate::semantic::{semver_requirement, VersionRequirement};
use crate::version::{matching_versions, newest, normalized_requirement, texts, VersionFailure};
use crate::version::{parse_version_requirement, select_latest_matching_version};

verus! {

/// How far a walk has come.
pub struct WalkView {
    /// Where the walk started.
    pub root: PackageView,
    /// The releases that the walk has come to, the root among them.
    pub visited: Set<PackageView>,
    /// What these require and the walk has not looked at yet, oldest first.
    pub pending: Seq<RequirementView>,
}

/// What a walk does next.
pub enum StepView<E> {
    /// It asks for the metadata of a release.
    Entry { walk: WalkView, package: PackageView },
    /// It asks for the versions of a collection, to meet a requirement.
    Versions { walk: WalkView, required: RequirementView },
    /// It is done, and has found these dependencies.
    Resolved(Set<PackageView>),
    /// It cannot go on.
    Failed(Failure<E>),
}

/// A walk starts by asking for the metadata of its root.
pub open spec fn walk_start<E>(root: PackageView) -> StepView<E> {
    StepView::Entry {
        walk: WalkView { root, visited: set![root], pending: seq![] },
        package: root,
    }
}

/// A walk goes on with the oldest requirement that is pending. Where there is
/// none, all releases but the root that it has come to are dependencies.
pub open spec fn walk_on<E>(walk: WalkView) -> StepView<E> {
    if walk.pending.len() == 0 {
        StepView::Resolved(walk.visited.remove(walk.root))
    } else {
        let required = walk.pending[0];
        let normalized = normalized_requirement(required.requirement);
        match semver_requirement(normalized) {
            Ok(_) => StepView::Versions {
                walk: WalkView { pending: walk.pending.drop_first(), ..walk },
                required,
            },
            Err(cause) => StepView::Failed(
                Failure::Version(VersionFailure::InvalidRequirement { normalized, cause }),
            ),
        }
    }
}

/// The metadata of a release add what it requires to what is pending.
pub open spec fn entry_answered<E>(walk: WalkView, entry: JsonValue) -> StepView<E> {
    match declared_requirements(entry) {
        Ok(declared) => walk_on(WalkView { pending: walk.pending + declared, ..walk }),
        Err(error) => StepView::Failed(Failure::Metadata(error)),
    }
}

/// The release that meets a requirement: the newest listed version that does.
pub open spec fn resolved_release(
    required: RequirementView,
    versions: Seq<Seq<char>>,
) -> Option<PackageView> {
    match newest(matching_versions(versions, normalized_requirement(required.requirement))) {
        Some(version) => Some(PackageView { name: required.name, version }),
        None => None,
    }
}

/// The versions of a collection settle which release meets the requirement. The
/// walk asks for its metadata, unless it has come to it before.
pub open spec fn versions_answered<E>(
    walk: WalkView,
    required: RequirementView,
    versions: Seq<Seq<char>>,
) -> StepView<E> {
    match resolved_release(required, versions) {
        Some(package) => if walk.visited.contains(package) {
            walk_on(walk)
        } else {
            StepView::Entry {
                walk: WalkView { visited: walk.visited.insert(package), ..walk },
                package,
            }
        },
        None => StepView::Failed(
            Failure::Unresolved { required, cause: VersionFailure::NoMatchingVersion },
        ),
    }
}

/// The state of a walk.
struct Walk {
    /// The releases that the walk has come to; the first is the root.
    visited: Vec<PackageKey>,
    pending: VecDeque<DependencyRequirement>,
    /// The visited releases but the root, in ascending order.
    dependencies: Vec<Dependency>,
}

impl View for Walk {
    type V = WalkView;

    closed spec fn view(&self) -> WalkView {
        WalkView {
            root: self.visited[0]@,
            visited: packages(self.visited@).to_set(),
            pending: requirements(self.pending@),
        }
    }
}

impl Walk {
    spec fn well_formed(&self) -> bool {
        &&& self.visited.len() > 0
        &&& ascending(found(self.dependencies@))
        &&& found(self.dependencies@).to_set() == packages(self.visited@).to_set().remove(
            self.visited[0]@,
        )
    }
}

/// A walk that waits for the metadata of a release.
pub struct EntryRequest {
    walk: Walk,
    package: PackageKey,
}

/// A walk that waits for the versions of a collection.
pub struct VersionsRequest {
    walk: Walk,
    required: DependencyRequirement,
    requirement: VersionRequirement,
}

/// What a walk does next.
pub enum ClosureStep<E> {
    /// It asks for the metadata of a release.
    Entry(EntryRequest),
    /// It asks for the versions of a collection.
    Versions(VersionsRequest),
    /// It is over, with the dependencies in ascending order or with the reason
    /// why there is no answer.
    Finished(Result<Vec<Dependency>, ResolveError<E>>),
}

impl<E> View for ClosureStep<E> {
    type V = StepView<E>;

    open spec fn view(&self) -> StepView<E> {
        match *self {
            ClosureStep::Entry(request) => StepView::Entry {
                walk: request.walk_view(),
                package: request.package_view(),
            },
            ClosureStep::Versions(request) => StepView::Versions {
                walk: request.walk_view(),
                required: request.required_view(),
            },
            ClosureStep::Finished(Ok(list)) => StepView::Resolved(found(list@).to_set()),
            ClosureStep::Finished(Err(error)) => StepView::Failed(error@),
        }
    }
}

impl<E> ClosureStep<E> {
    /// Dependencies that are handed out stand in ascending order.
    pub open spec fn in_order(&self) -> bool {
        match *self {
            ClosureStep::Finished(Ok(list)) => ascending(found(list@)),
            _ => true,
        }
    }
}

/// Go on with a walk.
fn continue_walk<E>(walk: Walk) -> (r: ClosureStep<E>)
    requires
        walk.well_formed(),
    ensures
        r@ == walk_on::<E>(walk@),
        r.in_order(),
{
    let mut walk: Walk = walk;
    let ghost before = walk@;
    match walk.pending.pop_front() {
        None => {
            assert(before.pending =~= seq![]);
            ClosureStep::Finished(Ok(walk.dependencies))
        },
        Some(required) => {
            assert(requirements(walk.pending@) =~= before.pending.drop_first());
            assert(before.pending[0] == required@);
            match parse_version_requirement(required.requirement.as_str()) {
                Ok(requirement) => ClosureStep::Versions(
                    VersionsRequest { walk, required, requirement },
                ),
                Err(error) => ClosureStep::Finished(Err(ResolveError::Version(error))),
            }
        },
    }
}

/// Start the walk over all that a release requires.
pub fn resolve_dependency_closure<E>(
    package_name: &str,
    package_version: &str,
) -> (r: ClosureStep<E>)
    ensures
        r@ == walk_start::<E>(PackageView { name: package_name@, version: package_version@ }),
        r.in_order(),
{
    let root: PackageKey = PackageKey {
        name: package_name.to_owned(),
        version: package_version.to_owned(),
    };
    let mut visited: Vec<PackageKey> = Vec::new();
    visited.push(root.clone());
    let walk: Walk = Walk { visited, pending: VecDeque::new(), dependencies: Vec::new() };
    proof {
        let list = packages(walk.visited@);
        assert(list.to_set() =~= set![root@]) by {
            assert(list[0] == root@);
        }
        assert(found(walk.dependencies@).to_set() =~= list.to_set().remove(root@));
        assert(walk@.pending =~= seq![]);
    }
    ClosureStep::Entry(EntryRequest { walk, package: root })
}

/// Choose the version of a dependency that meets its requirement.
pub fn resolve_requirement<E>(
    required: &DependencyRequirement,
    requirement: &VersionRequirement,
    versions: &[String],
) -> (r: Result<String, ResolveError<E>>)
    ensures
        match newest(matching_versions(texts(versions@), requirement@)) {
            Some(version) => r matches Ok(chosen) && chosen@ == version,
            None => r matches Err(error) && error@ == (Failure::<E>::Unresolved {
                required: required@,
                cause: VersionFailure::NoMatchingVersion,
            }),
        },
        r matches Err(error) ==> (error matches ResolveError::Unresolved {
            name,
            requirement: asked,
            cause,
        } && name@ == required.name@ && asked@ == required.requirement@ && cause
            is NoMatchingVersion),
{
    match select_latest_matching_version(versions, requirement) {
        Ok(version) => Ok(version),
        Err(cause) => Err(
            ResolveError::Unresolved {
                name: required.name.clone(),
                requirement: required.requirement.clone(),
                cause,
            },
        ),
    }
}

impl EntryRequest {
    #[verifier::type_invariant]
    spec fn well_formed(&self) -> bool {
        self.walk.well_formed()
    }

    /// How far the walk has come.
    pub closed spec fn walk_view(&self) -> WalkView {
        self.walk@
    }

    /// The release that is asked for.
    pub closed spec fn package_view(&self) -> PackageView {
        self.package@
    }

    /// The release whose metadata are asked for.
    pub fn package(&self) -> (r: &PackageKey)
        ensures
            r@ == self.package_view(),
            r.name@ == self.package_view().name && r.version@ == self.package_view().version,
    {
        &self.package
    }

    /// Hand the walk the metadata, or the error that came instead.
    pub fn answer<E>(self, reply: Result<&JsonValue, E>) -> (r: ClosureStep<E>)
        ensures
            match reply {
                Ok(entry) => r@ == entry_answered::<E>(self.walk_view(), *entry),
                Err(error) => r@ == StepView::Failed(Failure::Source(error)),
            },
            r.in_order(),
    {
        proof {
            use_type_invariant(&self);
        }
        let entry: &JsonValue = match reply {
            Ok(entry) => entry,
            Err(error) => return ClosureStep::Finished(Err(ResolveError::Source(error))),
        };
        let declared: Vec<DependencyRequirement> = match dependency_requirements(entry) {
            Ok(declared) => declared,
            Err(error) => return ClosureStep::Finished(Err(ResolveError::Metadata(error))),
        };
        let EntryRequest { mut walk, package: _ } = self;
        let ghost before = walk@;
        let ghost all = requirements(declared@);
        for dependency in it: declared
            invariant
                walk.well_formed(),
                walk@.root == before.root,
                walk@.visited == before.visited,
                it.seq() == declared@,
                all == requirements(declared@),
                walk@.pending == before.pending + all.take(it.index() as int),
        {
            let ghost now = walk@.pending;
            walk.pending.push_back(dependency);
            proof {
                assert(walk@.pending =~= now.push(dependency@));
                assert(all.take(it.index() + 1) =~= all.take(it.index() as int).push(dependency@));
                assert(walk@.pending =~= before.pending + all.take(it.index() + 1));
            }
        }
        assert(all.take(all.len() as int) =~= all);
        continue_walk(walk)
    }
}

impl VersionsRequest {
    #[verifier::type_invariant]
    spec fn well_formed(&self) -> bool {
        &&& self.walk.well_formed()
        &&& self.requirement@ == normalized_requirement(self.required.requirement@)
    }

    /// How far the walk has come.
    pub closed spec fn walk_view(&self) -> WalkView {
        self.walk@
    }

    /// The requirement that is to be met.
    pub closed spec fn required_view(&self) -> RequirementView {
        self.required@
    }

    /// The collection whose versions are asked for.
    pub fn package_name(&self) -> (r: &String)
        ensures
            r@ == self.required_view().name,
    {
        &self.required.name
    }

    /// Hand the walk the versions, or the error that came instead.
    pub fn answer<E>(self, reply: Result<&[String], E>) -> (r: ClosureStep<E>)
        ensures
            match reply {
                Ok(versions) => r@ == versions_answered::<E>(
                    self.walk_view(),
                    self.required_view(),
                    texts(versions@),
                ),
                Err(error) => r@ == StepView::Failed(Failure::Source(error)),
            },
            r.in_order(),
    {
        proof {
            use_type_invariant(&self);
        }
        let versions: &[String] = match reply {
            Ok(versions) => versions,
            Err(error) => return ClosureStep::Finished(Err(ResolveError::Source(error))),
        };
        let VersionsRequest { mut walk, required, requirement } = self;
        let version: String = match resolve_requirement(&required, &requirement, versions) {
            Ok(version) => version,
            Err(error) => return ClosureStep::Finished(Err(error)),
        };
        let package: PackageKey = PackageKey { name: required.name, version };
        if contains_package(&walk.visited, &package) {
            return continue_walk(walk);
        }
        let ghost before = packages(walk.visited@);
        let ghost root = walk.visited[0]@;
        proof {
            assert(before[0] == root);
            assert(before.contains(root));
            assert(!before.to_set().contains(package@));
        }
        insert_dependency(&mut walk.dependencies, &package);
        walk.visited.push(package.clone());
        proof {
            let after = packages(walk.visited@);
            assert(after =~= before.push(package@));
            before.lemma_push_to_set_commute(package@);
            assert(before.to_set().remove(root).insert(package@) =~= after.to_set().remove(root));
        }
        ClosureStep::Entry(EntryRequest { walk, package })
    }
}

} // verus!
