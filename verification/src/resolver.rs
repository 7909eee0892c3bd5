//! Recursive Ansible Galaxy dependency resolution.
//!
//! Galaxy stores collection dependencies as collection names with version
//! requirements. This module resolves those requirements to exact collection
//! versions and walks the transitive closure. It asks a source for the metadata
//! of a release or the versions of a collection; with a cache around the source,
//! for each of them at most once.

use vstd::prelude::*;

use crate::cache::{lemma_known_entries_finite, CachedGalaxySource, GalaxyData};
use crate::closure::{entry_answered, resolve_dependency_closure, versions_answered, walk_start};
use crate::closure::{ClosureStep, EntryRequest, StepView, VersionsRequest, WalkView};
use crate::failure::{Failure, ResolveError};
use crate::metadata::JsonValue;
use crate::package::{ascending, found};
use crate::package::{PackageDependencies, PackageKey, PackageView, RequirementView};
use crate::version::{compatible_versions, newest, select_latest_version, texts, VersionFailure};

verus! {

/// The host of the Galaxy registry.
pub fn get_registry_host_name() -> (r: String)
    ensures
        r@ == "galaxy.ansible.com"@,
{
    "galaxy.ansible.com".to_owned()
}

/// The newest version that a source lists for a collection.
pub fn latest_version<E>(reply: Result<&[String], E>) -> (r: Result<String, ResolveError<E>>)
    ensures
        match reply {
            Err(error) => r matches Err(e) && e@ == Failure::Source(error),
            Ok(versions) => match newest(compatible_versions(texts(versions@))) {
                Some(version) => r matches Ok(latest) && latest@ == version,
                None => r matches Err(e) && e@ == Failure::<E>::Version(
                    VersionFailure::NoLatestVersion,
                ),
            },
        },
{
    match reply {
        Ok(versions) => match select_latest_version(versions) {
            Ok(version) => Ok(version),
            Err(error) => Err(ResolveError::Version(error)),
        },
        Err(error) => Err(ResolveError::Source(error)),
    }
}

/// What is asked of a source.
pub enum Question {
    /// The metadata of a release.
    Entry(PackageView),
    /// The versions of a collection.
    Versions(Seq<char>),
}

/// What a walk asks.
pub open spec fn walk_question<E>(step: StepView<E>) -> Option<Question> {
    match step {
        StepView::Entry { package, .. } => Some(Question::Entry(package)),
        StepView::Versions { required, .. } => Some(Question::Versions(required.name)),
        _ => None,
    }
}

/// How a walk goes on, if what it asks for is known.
pub open spec fn walk_answered_by<E>(known: GalaxyData, step: StepView<E>) -> Option<StepView<E>> {
    match step {
        StepView::Entry { walk, package } => if known.entries.contains_key(package) {
            Some(entry_answered(walk, known.entries[package]))
        } else {
            None
        },
        StepView::Versions { walk, required } => if known.versions.contains_key(required.name) {
            Some(versions_answered(walk, required, known.versions[required.name]))
        } else {
            None
        },
        _ => None,
    }
}

/// The releases with known metadata that a walk has not come to.
pub open spec fn unvisited(known: GalaxyData, walk: WalkView) -> Set<PackageView> {
    known.entries.dom().difference(walk.visited)
}

/// A bound on how many more known releases a walk can come to.
pub open spec fn walk_effort<E>(known: GalaxyData, step: StepView<E>) -> nat {
    match (walk_answered_by(known, step), step) {
        (Some(_), StepView::Entry { walk, .. }) => 2 * unvisited(known, walk).len() + 2,
        (Some(_), StepView::Versions { walk, .. }) => 2 * unvisited(known, walk).len() + 1,
        _ => 0,
    }
}

/// How many requirements of a walk are pending.
pub open spec fn walk_backlog<E>(step: StepView<E>) -> nat {
    match step {
        StepView::Entry { walk, .. } => walk.pending.len(),
        StepView::Versions { walk, .. } => walk.pending.len(),
        _ => 0,
    }
}

/// Each answer from what is known brings a walk nearer to its next question.
pub proof fn lemma_walk_makes_progress<E>(known: GalaxyData, step: StepView<E>)
    requires
        known.entries.dom().finite(),
        walk_answered_by(known, step) is Some,
    ensures
        ({
            let next = walk_answered_by(known, step)->0;
            ||| walk_effort(known, next) < walk_effort(known, step)
            ||| walk_effort(known, next) == walk_effort(known, step) && walk_backlog(next)
                < walk_backlog(step)
        }),
{
    let next = walk_answered_by(known, step)->0;
    match step {
        StepView::Entry { walk, package } => {
            match next {
                StepView::Versions { walk: after, .. } => {
                    assert(after.visited == walk.visited);
                },
                _ => {},
            }
        },
        StepView::Versions { walk, required } => {
            match next {
                StepView::Entry { walk: after, package } => {
                    if known.entries.contains_key(package) {
                        assert(unvisited(known, walk).contains(package));
                        assert(unvisited(known, after) =~= unvisited(known, walk).remove(package));
                    }
                },
                StepView::Versions { walk: after, .. } => {
                    assert(after.visited == walk.visited);
                },
                _ => {},
            }
        },
        _ => {},
    }
}

/// What the identification of dependencies does next.
pub enum IdentifyView<E> {
    /// It asks for the versions of the collection itself, to choose the newest.
    Choosing { name: Seq<char> },
    /// It walks from this version of the collection, and asks what the walk asks.
    Walking { version: Seq<char>, step: StepView<E> },
    /// It is done.
    Resolved { version: Seq<char>, host: Seq<char>, dependencies: Set<PackageView> },
    /// It cannot go on.
    Failed(Failure<E>),
}

/// What a step of the walk means for the identification.
pub open spec fn identified<E>(version: Seq<char>, step: StepView<E>) -> IdentifyView<E> {
    match step {
        StepView::Resolved(dependencies) => IdentifyView::Resolved {
            version,
            host: "galaxy.ansible.com"@,
            dependencies,
        },
        StepView::Failed(failure) => IdentifyView::Failed(failure),
        _ => IdentifyView::Walking { version, step },
    }
}

/// The identification starts with the version that is asked for; if there is
/// none, it first asks for the versions of the collection.
pub open spec fn identify_start<E>(
    name: Seq<char>,
    version: Option<Seq<char>>,
) -> IdentifyView<E> {
    match version {
        Some(version) => identified(version, walk_start(PackageView { name, version })),
        None => IdentifyView::Choosing { name },
    }
}

/// The versions of the collection itself settle where the walk starts.
pub open spec fn chosen<E>(name: Seq<char>, versions: Seq<Seq<char>>) -> IdentifyView<E> {
    match newest(compatible_versions(versions)) {
        Some(version) => identified(version, walk_start(PackageView { name, version })),
        None => IdentifyView::Failed(Failure::Version(VersionFailure::NoLatestVersion)),
    }
}

/// What follows when the source gives the metadata that are asked for.
pub open spec fn after_entry<E>(step: IdentifyView<E>, entry: JsonValue) -> IdentifyView<E> {
    match step {
        IdentifyView::Walking { version, step: StepView::Entry { walk, .. } } => identified(
            version,
            entry_answered(walk, entry),
        ),
        _ => step,
    }
}

/// What follows when the source lists the versions that are asked for.
pub open spec fn after_versions<E>(
    step: IdentifyView<E>,
    versions: Seq<Seq<char>>,
) -> IdentifyView<E> {
    match step {
        IdentifyView::Choosing { name } => chosen(name, versions),
        IdentifyView::Walking { version, step: StepView::Versions { walk, required } } =>
            identified(version, versions_answered(walk, required, versions)),
        _ => step,
    }
}

/// What an identification asks.
pub open spec fn question<E>(step: IdentifyView<E>) -> Option<Question> {
    match step {
        IdentifyView::Choosing { name } => Some(Question::Versions(name)),
        IdentifyView::Walking { step, .. } => walk_question(step),
        _ => None,
    }
}

/// How an identification goes on, if what it asks for is known.
pub open spec fn answered_by<E>(known: GalaxyData, step: IdentifyView<E>) -> Option<
    IdentifyView<E>,
> {
    match question(step) {
        Some(Question::Entry(package)) => if known.entries.contains_key(package) {
            Some(after_entry(step, known.entries[package]))
        } else {
            None
        },
        Some(Question::Versions(name)) => if known.versions.contains_key(name) {
            Some(after_versions(step, known.versions[name]))
        } else {
            None
        },
        None => None,
    }
}

/// A bound on how many more known releases an identification can come to.
pub open spec fn effort<E>(known: GalaxyData, step: IdentifyView<E>) -> nat {
    match step {
        IdentifyView::Choosing { .. } => 2 * known.entries.dom().len() + 3,
        IdentifyView::Walking { step, .. } => walk_effort(known, step),
        _ => 0,
    }
}

/// How many requirements are pending.
pub open spec fn backlog<E>(step: IdentifyView<E>) -> nat {
    match step {
        IdentifyView::Walking { step, .. } => walk_backlog(step),
        _ => 0,
    }
}

/// Each answer from what is known brings an identification nearer to its next
/// question.
pub proof fn lemma_answer_makes_progress<E>(known: GalaxyData, step: IdentifyView<E>)
    requires
        known.entries.dom().finite(),
        answered_by(known, step) is Some,
    ensures
        ({
            let next = answered_by(known, step)->0;
            ||| effort(known, next) < effort(known, step)
            ||| effort(known, next) == effort(known, step) && backlog(next) < backlog(step)
        }),
{
    match step {
        IdentifyView::Choosing { name } => {
            if let Some(version) = newest(compatible_versions(known.versions[name])) {
                let root = PackageView { name, version };
                vstd::set_lib::lemma_len_difference(known.entries.dom(), set![root]);
            }
        },
        IdentifyView::Walking { step: walked, .. } => {
            lemma_walk_makes_progress(known, walked);
        },
        _ => {},
    }
}

/// Where an identification comes to with what is known: to its next question to
/// which the answer is not known, or to its end.
pub open spec fn settled<E>(known: GalaxyData, step: IdentifyView<E>) -> IdentifyView<E>
    decreases effort(known, step), backlog(step),
        when known.entries.dom().finite()
{
    match answered_by(known, step) {
        Some(next) => {
            proof {
                lemma_answer_makes_progress(known, step);
            }
            settled(known, next)
        },
        None => step,
    }
}

/// What the identification of dependencies does next, with a cache around the
/// source.
pub enum CachedView<E> {
    /// It asks the source what the step asks, and these answers are kept.
    Waiting { known: GalaxyData, step: IdentifyView<E> },
    /// It is over.
    Over(IdentifyView<E>),
}

/// An identification goes on as far as the answers are kept.
pub open spec fn cached<E>(known: GalaxyData, step: IdentifyView<E>) -> CachedView<E> {
    let reached = settled(known, step);
    if question(reached) is Some {
        CachedView::Waiting { known, step: reached }
    } else {
        CachedView::Over(reached)
    }
}

/// What follows when the source gives the metadata that are asked for: they are
/// kept.
pub open spec fn cached_after_entry<E>(step: CachedView<E>, entry: JsonValue) -> CachedView<E> {
    match step {
        CachedView::Waiting { known, step: waiting } => match question(waiting) {
            Some(Question::Entry(package)) => cached(
                known.with_entry(package, entry),
                after_entry(waiting, entry),
            ),
            _ => step,
        },
        _ => step,
    }
}

/// What follows when the source lists the versions that are asked for: they are
/// kept.
pub open spec fn cached_after_versions<E>(
    step: CachedView<E>,
    versions: Seq<Seq<char>>,
) -> CachedView<E> {
    match step {
        CachedView::Waiting { known, step: waiting } => match question(waiting) {
            Some(Question::Versions(name)) => cached(
                known.with_versions(name, versions),
                after_versions(waiting, versions),
            ),
            _ => step,
        },
        _ => step,
    }
}

/// An identification that waits for the metadata of a release.
pub struct PendingEntry {
    package_version: String,
    request: EntryRequest,
}

/// What the versions of a collection are wanted for.
enum VersionsUse {
    /// To choose the version of the collection itself.
    Root(String),
    /// To meet a requirement.
    Requirement(String, VersionsRequest),
}

/// An identification that waits for the versions of a collection.
pub struct PendingVersions {
    wanted: VersionsUse,
}

/// What the identification of dependencies does next.
pub enum IdentifyStep<E> {
    /// It asks for the metadata of a release.
    Entry(PendingEntry),
    /// It asks for the versions of a collection.
    Versions(PendingVersions),
    /// It is over.
    Finished(Result<PackageDependencies, ResolveError<E>>),
}

/// How an identification ended.
pub open spec fn outcome<E>(
    result: Result<PackageDependencies, ResolveError<E>>,
) -> IdentifyView<E> {
    match result {
        Ok(dependencies) => IdentifyView::Resolved {
            version: dependencies.package_version@,
            host: dependencies.registry_host_name@,
            dependencies: found(dependencies.dependencies@).to_set(),
        },
        Err(error) => IdentifyView::Failed(error@),
    }
}

/// Dependencies that are handed out stand in ascending order.
pub open spec fn outcome_in_order<E>(
    result: Result<PackageDependencies, ResolveError<E>>,
) -> bool {
    result matches Ok(dependencies) ==> ascending(found(dependencies.dependencies@))
}

impl<E> View for IdentifyStep<E> {
    type V = IdentifyView<E>;

    open spec fn view(&self) -> IdentifyView<E> {
        match *self {
            IdentifyStep::Entry(pending) => pending.step_view(),
            IdentifyStep::Versions(pending) => pending.step_view(),
            IdentifyStep::Finished(result) => outcome(result),
        }
    }
}

impl<E> IdentifyStep<E> {
    /// Dependencies that are handed out stand in ascending order.
    pub open spec fn in_order(&self) -> bool {
        match *self {
            IdentifyStep::Finished(result) => outcome_in_order(result),
            _ => true,
        }
    }
}

/// Go on with the walk from a version of the collection.
fn go_on<E>(package_version: String, step: ClosureStep<E>) -> (r: IdentifyStep<E>)
    requires
        step.in_order(),
    ensures
        r@ == identified(package_version@, step@),
        r.in_order(),
{
    match step {
        ClosureStep::Entry(request) => IdentifyStep::Entry(
            PendingEntry { package_version, request },
        ),
        ClosureStep::Versions(request) => IdentifyStep::Versions(
            PendingVersions { wanted: VersionsUse::Requirement(package_version, request) },
        ),
        ClosureStep::Finished(Ok(dependencies)) => IdentifyStep::Finished(
            Ok(
                PackageDependencies {
                    package_version,
                    registry_host_name: get_registry_host_name(),
                    dependencies,
                },
            ),
        ),
        ClosureStep::Finished(Err(error)) => IdentifyStep::Finished(Err(error)),
    }
}

/// Start to resolve package dependencies for one Ansible Galaxy collection
/// release; without a version, for the newest. The source is asked whenever
/// something is needed.
pub fn identify_package_dependencies_with_source<E>(
    package_name: &str,
    package_version: &Option<&str>,
) -> (r: IdentifyStep<E>)
    ensures
        r@ == identify_start::<E>(
            package_name@,
            match package_version {
                Some(version) => Some(version@),
                None => None,
            },
        ),
        r.in_order(),
{
    match package_version {
        Some(version) => go_on(
            (*version).to_owned(),
            resolve_dependency_closure(package_name, version),
        ),
        None => IdentifyStep::Versions(
            PendingVersions { wanted: VersionsUse::Root(package_name.to_owned()) },
        ),
    }
}

impl PendingEntry {
    /// The version of the collection that dependencies are identified for.
    pub closed spec fn version_view(&self) -> Seq<char> {
        self.package_version@
    }

    /// How far the walk has come.
    pub closed spec fn walk_view(&self) -> WalkView {
        self.request.walk_view()
    }

    /// The release that is asked for.
    pub closed spec fn package_view(&self) -> PackageView {
        self.request.package_view()
    }

    /// What the identification waits for.
    pub open spec fn step_view<E>(&self) -> IdentifyView<E> {
        IdentifyView::Walking {
            version: self.version_view(),
            step: StepView::Entry { walk: self.walk_view(), package: self.package_view() },
        }
    }

    /// The release whose metadata are asked for.
    pub fn package(&self) -> (r: &PackageKey)
        ensures
            r@ == self.package_view(),
            r.name@ == self.package_view().name && r.version@ == self.package_view().version,
    {
        self.request.package()
    }

    /// Hand over the metadata, or the error that came instead.
    pub fn answer<E>(self, reply: Result<&JsonValue, E>) -> (r: IdentifyStep<E>)
        ensures
            match reply {
                Ok(entry) => r@ == after_entry(self.step_view::<E>(), *entry),
                Err(error) => r@ == IdentifyView::Failed(Failure::Source(error)),
            },
            r.in_order(),
    {
        go_on(self.package_version, self.request.answer(reply))
    }
}

impl PendingVersions {
    /// The collection that is asked for.
    pub closed spec fn name_view(&self) -> Seq<char> {
        match self.wanted {
            VersionsUse::Root(name) => name@,
            VersionsUse::Requirement(_, request) => request.required_view().name,
        }
    }

    /// Where the versions are to meet a requirement: the version of the
    /// collection that dependencies are identified for, how far the walk has
    /// come, and the requirement.
    pub closed spec fn required_view(&self) -> Option<(Seq<char>, WalkView, RequirementView)> {
        match self.wanted {
            VersionsUse::Root(_) => None,
            VersionsUse::Requirement(version, request) => Some(
                (version@, request.walk_view(), request.required_view()),
            ),
        }
    }

    /// What the identification waits for.
    pub open spec fn step_view<E>(&self) -> IdentifyView<E> {
        match self.required_view() {
            None => IdentifyView::Choosing { name: self.name_view() },
            Some((version, walk, required)) => IdentifyView::Walking {
                version,
                step: StepView::Versions { walk, required },
            },
        }
    }

    /// The collection whose versions are asked for.
    pub fn package_name(&self) -> (r: &String)
        ensures
            r@ == self.name_view(),
            match self.required_view() {
                Some((_, _, required)) => r@ == required.name,
                None => true,
            },
    {
        match &self.wanted {
            VersionsUse::Root(name) => name,
            VersionsUse::Requirement(_, request) => request.package_name(),
        }
    }

    /// Hand over the versions, or the error that came instead.
    pub fn answer<E>(self, reply: Result<&[String], E>) -> (r: IdentifyStep<E>)
        ensures
            match reply {
                Ok(versions) => r@ == after_versions(self.step_view::<E>(), texts(versions@)),
                Err(error) => r@ == IdentifyView::Failed(Failure::Source(error)),
            },
            r.in_order(),
    {
        match self.wanted {
            VersionsUse::Root(name) => match latest_version(reply) {
                Ok(version) => {
                    let step: ClosureStep<E> = resolve_dependency_closure(
                        name.as_str(),
                        version.as_str(),
                    );
                    go_on(version, step)
                },
                Err(error) => IdentifyStep::Finished(Err(error)),
            },
            VersionsUse::Requirement(package_version, request) => go_on(
                package_version,
                request.answer(reply),
            ),
        }
    }
}

/// An identification over a cached source that waits for the metadata of a
/// release.
pub struct CachedEntry {
    cache: CachedGalaxySource,
    pending: PendingEntry,
}

/// An identification over a cached source that waits for the versions of a
/// collection.
pub struct CachedVersions {
    cache: CachedGalaxySource,
    pending: PendingVersions,
}

/// What the identification of dependencies does next, with a cache around the
/// source.
pub enum CachedStep<E> {
    /// It asks the source for the metadata of a release.
    Entry(CachedEntry),
    /// It asks the source for the versions of a collection.
    Versions(CachedVersions),
    /// It is over.
    Finished(Result<PackageDependencies, ResolveError<E>>),
}

impl<E> View for CachedStep<E> {
    type V = CachedView<E>;

    open spec fn view(&self) -> CachedView<E> {
        match *self {
            CachedStep::Entry(waiting) => waiting.step_view(),
            CachedStep::Versions(waiting) => waiting.step_view(),
            CachedStep::Finished(result) => CachedView::Over(outcome(result)),
        }
    }
}

impl<E> CachedStep<E> {
    /// Dependencies that are handed out stand in ascending order.
    pub open spec fn in_order(&self) -> bool {
        match *self {
            CachedStep::Finished(result) => outcome_in_order(result),
            _ => true,
        }
    }
}

/// Go on with an identification as far as the answers are kept.
fn advance<E>(cache: CachedGalaxySource, step: IdentifyStep<E>) -> (r: CachedStep<E>)
    requires
        step.in_order(),
    ensures
        r@ == cached(cache@, step@),
        r.in_order(),
{
    let ghost known = cache@;
    let mut current: IdentifyStep<E> = step;
    proof {
        lemma_known_entries_finite(cache);
    }
    loop
        invariant
            known == cache@,
            known.entries.dom().finite(),
            current.in_order(),
            settled(known, current@) == settled(known, step@),
        decreases effort(known, current@), backlog(current@),
    {
        proof {
            if answered_by(known, current@) is Some {
                lemma_answer_makes_progress(known, current@);
            }
        }
        match current {
            IdentifyStep::Entry(pending) => match cache.package_entry(pending.package()) {
                Some(entry) => {
                    current = pending.answer(Ok(entry));
                },
                None => {
                    return CachedStep::Entry(CachedEntry { cache, pending });
                },
            },
            IdentifyStep::Versions(pending) => {
                match cache.package_versions(pending.package_name().as_str()) {
                    Some(versions) => {
                        current = pending.answer(Ok(versions.as_slice()));
                    },
                    None => {
                        return CachedStep::Versions(CachedVersions { cache, pending });
                    },
                }
            },
            IdentifyStep::Finished(result) => {
                return CachedStep::Finished(result);
            },
        }
    }
}

/// Start to resolve package dependencies for one Ansible Galaxy collection
/// release; without a version, for the newest. Every answer of the source is
/// kept, and the source is asked only for what it has not answered.
pub fn identify_package_dependencies<E>(
    package_name: &str,
    package_version: &Option<&str>,
) -> (r: CachedStep<E>)
    ensures
        r@ == cached(
            GalaxyData::nothing(),
            identify_start::<E>(
                package_name@,
                match package_version {
                    Some(version) => Some(version@),
                    None => None,
                },
            ),
        ),
        r.in_order(),
{
    advance(
        CachedGalaxySource::new(),
        identify_package_dependencies_with_source(package_name, package_version),
    )
}

impl CachedEntry {
    /// The answers that are kept.
    pub closed spec fn known(&self) -> GalaxyData {
        self.cache@
    }

    /// The identification that waits.
    pub closed spec fn waiting(&self) -> PendingEntry {
        self.pending
    }

    /// What the identification waits for.
    pub open spec fn step_view<E>(&self) -> CachedView<E> {
        CachedView::Waiting { known: self.known(), step: self.waiting().step_view() }
    }

    /// The release whose metadata are asked for.
    pub fn package(&self) -> (r: &PackageKey)
        ensures
            r@ == self.waiting().package_view(),
            r.name@ == self.waiting().package_view().name && r.version@
                == self.waiting().package_view().version,
    {
        self.pending.package()
    }

    /// Hand over the metadata, which are kept, or the error that came instead.
    pub fn answer<E>(self, reply: Result<JsonValue, E>) -> (r: CachedStep<E>)
        ensures
            match reply {
                Ok(entry) => r@ == cached_after_entry(self.step_view::<E>(), entry),
                Err(error) => r@ == CachedView::Over(
                    IdentifyView::Failed(Failure::Source(error)),
                ),
            },
            r.in_order(),
    {
        let CachedEntry { mut cache, pending } = self;
        match reply {
            Ok(entry) => {
                let package: PackageKey = pending.package().clone();
                let step: IdentifyStep<E> = pending.answer(Ok(&entry));
                cache.keep_entry(package, entry);
                advance(cache, step)
            },
            Err(error) => CachedStep::Finished(Err(ResolveError::Source(error))),
        }
    }
}

impl CachedVersions {
    /// The answers that are kept.
    pub closed spec fn known(&self) -> GalaxyData {
        self.cache@
    }

    /// The identification that waits.
    pub closed spec fn waiting(&self) -> PendingVersions {
        self.pending
    }

    /// What the identification waits for.
    pub open spec fn step_view<E>(&self) -> CachedView<E> {
        CachedView::Waiting { known: self.known(), step: self.waiting().step_view() }
    }

    /// The collection whose versions are asked for.
    pub fn package_name(&self) -> (r: &String)
        ensures
            r@ == self.waiting().name_view(),
            match self.waiting().required_view() {
                Some((_, _, required)) => r@ == required.name,
                None => true,
            },
    {
        self.pending.package_name()
    }

    /// Hand over the versions, which are kept, or the error that came instead.
    pub fn answer<E>(self, reply: Result<Vec<String>, E>) -> (r: CachedStep<E>)
        ensures
            match reply {
                Ok(versions) => r@ == cached_after_versions(
                    self.step_view::<E>(),
                    texts(versions@),
                ),
                Err(error) => r@ == CachedView::Over(
                    IdentifyView::Failed(Failure::Source(error)),
                ),
            },
            r.in_order(),
    {
        let CachedVersions { mut cache, pending } = self;
        match reply {
            Ok(versions) => {
                let name: String = pending.package_name().clone();
                let step: IdentifyStep<E> = pending.answer(Ok(versions.as_slice()));
                cache.keep_versions(name, versions);
                advance(cache, step)
            },
            Err(error) => CachedStep::Finished(Err(ResolveError::Source(error))),
        }
    }
}

} // verus!
