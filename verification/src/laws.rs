//! What holds of a whole resolution, whatever the order of its questions.

use vstd::prelude::*;

use crate::cache::GalaxyData;
use crate::closure::{entry_answered, resolved_release, versions_answered, walk_on, walk_start};
use crate::closure::{StepView, WalkView};
use crate::failure::Failure;
use crate::metadata::{declared_requirements, JsonValue};
use crate::package::{PackageView, RequirementView};
use crate::resolver::{after_entry, after_versions, answered_by, backlog, effort, identified};
use crate::resolver::{cached, cached_after_entry, cached_after_versions, CachedView};
use crate::resolver::{identify_start, lemma_answer_makes_progress, question, settled};
use crate::resolver::{walk_answered_by, walk_backlog, walk_question, IdentifyView, Question};
use crate::semantic::semver_requirement;
use crate::version::{compatible_versions, newest, normalized_requirement};

verus! {

/// A source, by what it answers to each question after so many others. It may
/// answer the same question differently each time.
pub struct Source<E> {
    pub entry: spec_fn(nat, PackageView) -> Result<JsonValue, E>,
    pub versions: spec_fn(nat, Seq<char>) -> Result<Seq<Seq<char>>, E>,
}

impl<E> Source<E> {
    /// The source answers from what is in the data, whenever it is asked, and
    /// fails where the data have nothing.
    pub open spec fn gives(self, data: GalaxyData) -> bool {
        &&& forall|n: nat, package: PackageView|
            match #[trigger] (self.entry)(n, package) {
                Ok(entry) => data.entries.contains_key(package) && data.entries[package] == entry,
                Err(_) => !data.entries.contains_key(package),
            }
        &&& forall|n: nat, name: Seq<char>|
            match #[trigger] (self.versions)(n, name) {
                Ok(versions) => data.versions.contains_key(name) && data.versions[name]
                    == versions,
                Err(_) => !data.versions.contains_key(name),
            }
    }
}

/// The release that a requirement leads to, if it can be read and a listed
/// version meets it.
pub open spec fn leads_to(data: GalaxyData, required: RequirementView) -> Option<PackageView> {
    if semver_requirement(normalized_requirement(required.requirement)) is Ok
        && data.versions.contains_key(required.name) {
        resolved_release(required, data.versions[required.name])
    } else {
        None
    }
}

/// A release declares a requirement.
pub open spec fn declares(
    data: GalaxyData,
    package: PackageView,
    required: RequirementView,
) -> bool {
    &&& data.entries.contains_key(package)
    &&& declared_requirements(data.entries[package]) matches Ok(declared)
        && declared.contains(required)
}

/// A release depends directly on another.
pub open spec fn depends_on(data: GalaxyData, package: PackageView, other: PackageView) -> bool {
    exists|required: RequirementView| #[trigger]
        declares(data, package, required) && leads_to(data, required) == Some(other)
}

/// The metadata of a release are there and can be read, and every requirement
/// in them leads to a release.
pub open spec fn complete(data: GalaxyData, package: PackageView) -> bool {
    &&& data.entries.contains_key(package)
    &&& declared_requirements(data.entries[package]) is Ok
    &&& forall|required: RequirementView| #[trigger]
        declares(data, package, required) ==> leads_to(data, required) is Some
}

/// A chain of releases, each of which depends directly on the next.
pub open spec fn is_chain(data: GalaxyData, chain: Seq<PackageView>) -> bool {
    &&& chain.len() > 0
    &&& forall|i: int|
        0 <= i < chain.len() - 1 ==> depends_on(data, #[trigger] chain[i], chain[i + 1])
}

/// A chain leads from one release to another, or they are the same.
pub open spec fn reachable(data: GalaxyData, root: PackageView, package: PackageView) -> bool {
    exists|chain: Seq<PackageView>| #[trigger]
        is_chain(data, chain) && chain[0] == root && chain.last() == package
}

/// How a walk goes on when a source is asked, after so many questions.
pub open spec fn walk_next<E>(source: Source<E>, n: nat, step: StepView<E>) -> StepView<E> {
    match step {
        StepView::Entry { walk, package } => match (source.entry)(n, package) {
            Ok(entry) => entry_answered(walk, entry),
            Err(error) => StepView::Failed(Failure::Source(error)),
        },
        StepView::Versions { walk, required } => match (source.versions)(n, required.name) {
            Ok(versions) => versions_answered(walk, required, versions),
            Err(error) => StepView::Failed(Failure::Source(error)),
        },
        _ => step,
    }
}

/// Where a walk stands after so many questions.
pub open spec fn walk_after<E>(source: Source<E>, root: PackageView, n: nat) -> StepView<E>
    decreases n,
{
    if n == 0 {
        walk_start(root)
    } else {
        walk_next(source, (n - 1) as nat, walk_after(source, root, (n - 1) as nat))
    }
}

/// A walk is over.
pub open spec fn walk_over<E>(step: StepView<E>) -> bool {
    walk_question(step) is None
}

/// A walk can go on so with a source that answers from the data.
pub(crate) open spec fn walk_goes_on<E>(data: GalaxyData, step: StepView<E>, next: StepView<E>) -> bool {
    match walk_answered_by(data, step) {
        Some(answered) => next == answered,
        None => if walk_over(step) {
            next == step
        } else {
            next matches StepView::Failed(Failure::Source(_))
        },
    }
}

pub(crate) proof fn lemma_walk_goes_on<E>(source: Source<E>, data: GalaxyData, n: nat, step: StepView<E>)
    requires
        source.gives(data),
    ensures
        walk_goes_on(data, step, walk_next(source, n, step)),
{
    match step {
        StepView::Entry { package, .. } => {
            let reply = (source.entry)(n, package);
            assert(reply is Ok <==> data.entries.contains_key(package));
        },
        StepView::Versions { required, .. } => {
            let reply = (source.versions)(n, required.name);
            assert(reply is Ok <==> data.versions.contains_key(required.name));
        },
        _ => {},
    }
}

proof fn lemma_root_is_reachable(data: GalaxyData, root: PackageView)
    ensures
        reachable(data, root, root),
{
    let chain = seq![root];
    assert(is_chain(data, chain));
    assert(chain[0] == root && chain.last() == root);
}

proof fn lemma_reachable_step(
    data: GalaxyData,
    root: PackageView,
    package: PackageView,
    other: PackageView,
)
    requires
        reachable(data, root, package),
        depends_on(data, package, other),
    ensures
        reachable(data, root, other),
{
    let chain = choose|chain: Seq<PackageView>| #[trigger]
        is_chain(data, chain) && chain[0] == root && chain.last() == package;
    let longer = chain.push(other);
    assert forall|i: int| 0 <= i < longer.len() - 1 implies depends_on(
        data,
        #[trigger] longer[i],
        longer[i + 1],
    ) by {
        if i < chain.len() - 1 {
            assert(longer[i] == chain[i] && longer[i + 1] == chain[i + 1]);
        } else {
            assert(longer[i] == chain.last());
        }
    }
    assert(is_chain(data, longer));
    assert(longer[0] == root && longer.last() == other);
}

/// A set that holds the root and all that its members depend on holds all that
/// is reachable.
proof fn lemma_closed_set_holds_reachable(
    data: GalaxyData,
    root: PackageView,
    members: Set<PackageView>,
    package: PackageView,
)
    requires
        members.contains(root),
        forall|p: PackageView, q: PackageView|
            members.contains(p) && #[trigger] depends_on(data, p, q) ==> members.contains(q),
        reachable(data, root, package),
    ensures
        members.contains(package),
{
    let chain = choose|chain: Seq<PackageView>| #[trigger]
        is_chain(data, chain) && chain[0] == root && chain.last() == package;
    lemma_chain_stays_inside(data, chain, members, chain.len() - 1);
}

proof fn lemma_chain_stays_inside(
    data: GalaxyData,
    chain: Seq<PackageView>,
    members: Set<PackageView>,
    i: int,
)
    requires
        is_chain(data, chain),
        members.contains(chain[0]),
        forall|p: PackageView, q: PackageView|
            members.contains(p) && #[trigger] depends_on(data, p, q) ==> members.contains(q),
        0 <= i < chain.len(),
    ensures
        members.contains(chain[i]),
    decreases i,
{
    if i > 0 {
        lemma_chain_stays_inside(data, chain, members, i - 1);
        assert(depends_on(data, chain[i - 1], chain[i - 1 + 1]));
    }
}

/// A requirement that a reachable release declares.
pub(crate) open spec fn wanted(data: GalaxyData, root: PackageView, required: RequirementView) -> bool {
    exists|p: PackageView| reachable(data, root, p) && #[trigger] declares(data, p, required)
}

/// The metadata of a release can be read, and each requirement in them is open
/// or leads to a visited release.
pub(crate) open spec fn explored(
    data: GalaxyData,
    visited: Set<PackageView>,
    open: Seq<RequirementView>,
    package: PackageView,
) -> bool {
    &&& data.entries.contains_key(package)
    &&& declared_requirements(data.entries[package]) is Ok
    &&& forall|required: RequirementView| #[trigger]
        declares(data, package, required) ==> open.contains(required) || (leads_to(data, required)
            matches Some(q) && visited.contains(q))
}

/// What a walk keeps: it has come only to reachable releases, only what such
/// releases require is open, and all that it has come to is explored but for
/// the release that it waits for.
pub(crate) open spec fn on_track(
    data: GalaxyData,
    root: PackageView,
    walk: WalkView,
    open: Seq<RequirementView>,
    waiting: Option<PackageView>,
) -> bool {
    &&& walk.root == root
    &&& walk.visited.contains(root)
    &&& forall|p: PackageView| walk.visited.contains(p) ==> reachable(data, root, p)
    &&& forall|i: int| 0 <= i < open.len() ==> wanted(data, root, #[trigger] open[i])
    &&& forall|p: PackageView| #[trigger]
        walk.visited.contains(p) && waiting != Some(p) ==> explored(data, walk.visited, open, p)
}

/// The dependencies are all that is reachable but the root, and nothing that is
/// reachable lacks anything.
pub open spec fn is_closure(
    data: GalaxyData,
    root: PackageView,
    dependencies: Set<PackageView>,
) -> bool {
    &&& forall|q: PackageView|
        dependencies.contains(q) <==> reachable(data, root, q) && q != root
    &&& forall|q: PackageView| #[trigger] reachable(data, root, q) ==> complete(data, q)
}

/// Something that is reachable lacks something.
pub open spec fn is_broken(data: GalaxyData, root: PackageView) -> bool {
    exists|q: PackageView| #[trigger] reachable(data, root, q) && !complete(data, q)
}

pub(crate) open spec fn step_on_track<E>(data: GalaxyData, root: PackageView, step: StepView<E>) -> bool {
    match step {
        StepView::Entry { walk, package } => {
            &&& on_track(data, root, walk, walk.pending, Some(package))
            &&& walk.visited.contains(package)
        },
        StepView::Versions { walk, required } => {
            &&& on_track(data, root, walk, seq![required] + walk.pending, None)
            &&& semver_requirement(normalized_requirement(required.requirement)) is Ok
        },
        StepView::Resolved(dependencies) => is_closure(data, root, dependencies),
        StepView::Failed(_) => is_broken(data, root),
    }
}

proof fn lemma_wanted_unresolved_is_broken(
    data: GalaxyData,
    root: PackageView,
    required: RequirementView,
)
    requires
        wanted(data, root, required),
        leads_to(data, required) is None,
    ensures
        is_broken(data, root),
{
    let p = choose|p: PackageView|
        reachable(data, root, p) && #[trigger] declares(data, p, required);
    assert(!complete(data, p));
}

proof fn lemma_walk_on<E>(data: GalaxyData, root: PackageView, walk: WalkView)
    requires
        on_track(data, root, walk, walk.pending, None),
    ensures
        step_on_track(data, root, walk_on::<E>(walk)),
{
    if walk.pending.len() == 0 {
        let dependencies = walk.visited.remove(walk.root);
        assert forall|p: PackageView, q: PackageView|
            walk.visited.contains(p) && #[trigger] depends_on(
                data,
                p,
                q,
            ) implies walk.visited.contains(q) by {
            assert(explored(data, walk.visited, walk.pending, p));
        }
        assert forall|q: PackageView| #[trigger] reachable(
            data,
            root,
            q,
        ) implies walk.visited.contains(q) && complete(data, q) by {
            lemma_closed_set_holds_reachable(data, root, walk.visited, q);
            assert(explored(data, walk.visited, walk.pending, q));
        }
        assert(is_closure(data, root, dependencies));
    } else {
        let required = walk.pending[0];
        assert(seq![required] + walk.pending.drop_first() =~= walk.pending);
        assert(wanted(data, root, required));
        if !(semver_requirement(normalized_requirement(required.requirement)) is Ok) {
            lemma_wanted_unresolved_is_broken(data, root, required);
        }
    }
}

proof fn lemma_step_on_track<E>(
    data: GalaxyData,
    root: PackageView,
    step: StepView<E>,
    next: StepView<E>,
)
    requires
        step_on_track(data, root, step),
        walk_goes_on(data, step, next),
    ensures
        step_on_track(data, root, next),
{
    match step {
        StepView::Entry { walk, package } => {
            if !data.entries.contains_key(package) {
                assert(reachable(data, root, package) && !complete(data, package));
            } else {
                match declared_requirements(data.entries[package]) {
                    Ok(declared) => {
                        let after = WalkView { pending: walk.pending + declared, ..walk };
                        assert forall|i: int| 0 <= i < after.pending.len() implies wanted(
                            data,
                            root,
                            #[trigger] after.pending[i],
                        ) by {
                            if i < walk.pending.len() {
                                assert(after.pending[i] == walk.pending[i]);
                            } else {
                                let required = declared[i - walk.pending.len()];
                                assert(after.pending[i] == required);
                                assert(declares(data, package, required));
                                assert(reachable(data, root, package));
                            }
                        }
                        assert forall|p: PackageView| #[trigger]
                            after.visited.contains(p) implies explored(
                            data,
                            after.visited,
                            after.pending,
                            p,
                        ) by {
                            assert forall|required: RequirementView| #[trigger]
                                declares(data, p, required) implies after.pending.contains(required)
                                || (leads_to(data, required) matches Some(q)
                                && after.visited.contains(q)) by {
                                if p == package {
                                    let k = choose|k: int|
                                        0 <= k < declared.len() && declared[k] == required;
                                    assert(after.pending[walk.pending.len() + k] == required);
                                } else {
                                    assert(explored(data, walk.visited, walk.pending, p));
                                    if walk.pending.contains(required) {
                                        let k = choose|k: int|
                                            0 <= k < walk.pending.len() && walk.pending[k]
                                                == required;
                                        assert(after.pending[k] == required);
                                    }
                                }
                            }
                            if p != package {
                                assert(explored(data, walk.visited, walk.pending, p));
                            }
                        }
                        lemma_walk_on::<E>(data, root, after);
                    },
                    Err(_) => {
                        assert(reachable(data, root, package) && !complete(data, package));
                    },
                }
            }
        },
        StepView::Versions { walk, required } => {
            let open = seq![required] + walk.pending;
            assert(open[0] == required);
            assert(wanted(data, root, required));
            match leads_to(data, required) {
                None => {
                    lemma_wanted_unresolved_is_broken(data, root, required);
                },
                Some(package) => {
                    let asker = choose|p: PackageView|
                        reachable(data, root, p) && #[trigger] declares(data, p, required);
                    assert(depends_on(data, asker, package));
                    lemma_reachable_step(data, root, asker, package);
                    let visited = walk.visited.insert(package);
                    assert forall|p: PackageView| #[trigger]
                        walk.visited.contains(p) implies explored(
                        data,
                        visited,
                        walk.pending,
                        p,
                    ) by {
                        assert(explored(data, walk.visited, open, p));
                        assert forall|r: RequirementView| #[trigger]
                            declares(data, p, r) implies walk.pending.contains(r) || (leads_to(
                            data,
                            r,
                        ) matches Some(q) && visited.contains(q)) by {
                            if open.contains(r) && r != required {
                                let k = choose|k: int| 0 <= k < open.len() && open[k] == r;
                                assert(walk.pending[k - 1] == r);
                            }
                        }
                    }
                    assert forall|i: int| 0 <= i < walk.pending.len() implies wanted(
                        data,
                        root,
                        #[trigger] walk.pending[i],
                    ) by {
                        assert(open[i + 1] == walk.pending[i]);
                    }
                    if walk.visited.contains(package) {
                        assert(visited =~= walk.visited);
                        lemma_walk_on::<E>(data, root, walk);
                    }
                },
            }
        },
        _ => {},
    }
}

/// A walk that is done has found exactly the releases that a chain of
/// dependencies leads to from the root, without the root itself. One that fails
/// does so because something on such a chain is missing, cannot be read, or
/// cannot be resolved.
pub proof fn walk_finds_the_closure<E>(
    source: Source<E>,
    data: GalaxyData,
    root: PackageView,
    n: nat,
)
    requires
        source.gives(data),
    ensures
        match walk_after(source, root, n) {
            StepView::Resolved(dependencies) => is_closure(data, root, dependencies),
            StepView::Failed(_) => is_broken(data, root),
            _ => true,
        },
{
    lemma_walk_on_track(source, data, root, n);
}

proof fn lemma_walk_start_on_track<E>(data: GalaxyData, root: PackageView)
    ensures
        step_on_track(data, root, walk_start::<E>(root)),
{
    lemma_root_is_reachable(data, root);
}

pub(crate) proof fn lemma_walk_on_track<E>(source: Source<E>, data: GalaxyData, root: PackageView, n: nat)
    requires
        source.gives(data),
    ensures
        step_on_track(data, root, walk_after(source, root, n)),
    decreases n,
{
    if n == 0 {
        lemma_walk_start_on_track::<E>(data, root);
    } else {
        let m = (n - 1) as nat;
        let step = walk_after(source, root, m);
        lemma_walk_on_track(source, data, root, m);
        lemma_walk_goes_on(source, data, m, step);
        lemma_step_on_track(data, root, step, walk_next(source, m, step));
    }
}

/// All releases that a chain leads to from the root, the root among them.
pub open spec fn reachable_set(data: GalaxyData, root: PackageView) -> Set<PackageView> {
    Set::new(|q: PackageView| reachable(data, root, q))
}

/// Only so many releases are reachable, or something that is reachable lacks
/// something.
pub open spec fn walkable(data: GalaxyData, root: PackageView) -> bool {
    reachable_set(data, root).finite() || is_broken(data, root)
}

/// Every walk ends, whatever cycles the dependencies form, when only so many
/// releases are reachable, or when something that is reachable lacks something.
pub proof fn walk_ends<E>(source: Source<E>, data: GalaxyData, root: PackageView) -> (n: nat)
    requires
        source.gives(data),
        walkable(data, root),
    ensures
        walk_over(walk_after(source, root, n)),
{
    if is_broken(data, root) {
        lemma_broken_walk_ends(source, data, root)
    } else {
        lemma_finite_walk_ends(source, data, root, 0)
    }
}

/// A bound on how many more reachable releases a walk can come to.
spec fn way_left<E>(data: GalaxyData, root: PackageView, step: StepView<E>) -> nat {
    match step {
        StepView::Entry { walk, .. } => 2 * reachable_set(data, root).difference(
            walk.visited,
        ).len() + 2,
        StepView::Versions { walk, .. } => 2 * reachable_set(data, root).difference(
            walk.visited,
        ).len() + 1,
        _ => 0,
    }
}

proof fn lemma_finite_walk_ends<E>(
    source: Source<E>,
    data: GalaxyData,
    root: PackageView,
    m: nat,
) -> (n: nat)
    requires
        source.gives(data),
        reachable_set(data, root).finite(),
    ensures
        walk_over(walk_after(source, root, n)),
    decreases
            way_left(data, root, walk_after(source, root, m)),
            walk_backlog(walk_after(source, root, m)),
{
    let step = walk_after(source, root, m);
    if walk_over(step) {
        m
    } else {
        let next = walk_after(source, root, m + 1);
        assert(next == walk_next(source, m, step));
        lemma_walk_on_track(source, data, root, m + 1);
        if let (
            StepView::Versions { walk, .. },
            StepView::Entry { walk: after, package },
        ) = (step, next) {
            let all = reachable_set(data, root);
            assert(all.difference(walk.visited).contains(package));
            assert(all.difference(after.visited) =~= all.difference(walk.visited).remove(package));
        }
        lemma_finite_walk_ends(source, data, root, m + 1)
    }
}

/// The requirement stands at a place in the queue of a walk; first is the one
/// that the walk is about to meet.
spec fn is_queued<E>(step: StepView<E>, place: int, required: RequirementView) -> bool {
    match step {
        StepView::Entry { walk, .. } => 0 <= place < walk.pending.len() && walk.pending[place]
            == required,
        StepView::Versions { walk, required: first } => if place == 0 {
            first == required
        } else {
            0 < place <= walk.pending.len() && walk.pending[place - 1] == required
        },
        _ => false,
    }
}

/// The walk asks for versions to meet this requirement.
spec fn is_met<E>(step: StepView<E>, required: RequirementView) -> bool {
    step matches StepView::Versions { required: r, .. } && r == required
}

/// The walk asks for the metadata of this release.
pub open spec fn is_read<E>(step: StepView<E>, package: PackageView) -> bool {
    step matches StepView::Entry { package: p, .. } && p == package
}

/// Every requirement in the queue has its turn, unless the walk ends before.
proof fn lemma_queue_moves<E>(
    source: Source<E>,
    root: PackageView,
    m: nat,
    place: int,
    required: RequirementView,
) -> (n: nat)
    requires
        is_queued(walk_after(source, root, m), place, required),
    ensures
        walk_over(walk_after(source, root, n)) || is_met(walk_after(source, root, n), required),
    decreases place, (walk_after(source, root, m) is Entry) as int,
{
    let step = walk_after(source, root, m);
    let next = walk_after(source, root, m + 1);
    assert(next == walk_next(source, m, step));
    if is_met(step, required) {
        m
    } else if walk_over(next) {
        m + 1
    } else if let StepView::Entry { walk, package } = step {
        let reply = (source.entry)(m, package);
        assert(reply is Ok);
        assert(declared_requirements(reply->Ok_0) is Ok);
        let all = walk.pending + declared_requirements(reply->Ok_0)->Ok_0;
        assert(all[place] == required);
        assert(is_queued(next, place, required));
        lemma_queue_moves(source, root, m + 1, place, required)
    } else {
        lemma_queue_moves(source, root, m + 1, place - 1, required)
    }
}

/// A release that a walk has come to was asked for.
proof fn lemma_visited_was_read<E>(
    source: Source<E>,
    root: PackageView,
    n: nat,
    package: PackageView,
) -> (m: nat)
    requires
        match walk_after(source, root, n) {
            StepView::Entry { walk, .. } => walk.visited.contains(package),
            StepView::Versions { walk, .. } => walk.visited.contains(package),
            _ => false,
        },
    ensures
        is_read(walk_after(source, root, m), package),
    decreases n,
{
    if n == 0 || is_read(walk_after(source, root, n), package) {
        n
    } else {
        lemma_visited_was_read(source, root, (n - 1) as nat, package)
    }
}

/// What a release declares that is asked for has its turn, unless the walk ends
/// before.
proof fn lemma_declared_is_met<E>(
    source: Source<E>,
    data: GalaxyData,
    root: PackageView,
    m: nat,
    package: PackageView,
    required: RequirementView,
) -> (n: nat)
    requires
        source.gives(data),
        is_read(walk_after(source, root, m), package),
        declares(data, package, required),
    ensures
        walk_over(walk_after(source, root, n)) || is_met(walk_after(source, root, n), required),
{
    let step = walk_after(source, root, m);
    let next = walk_after(source, root, m + 1);
    assert(next == walk_next(source, m, step));
    lemma_walk_goes_on(source, data, m, step);
    if walk_over(next) {
        m + 1
    } else {
        let declared = declared_requirements(data.entries[package])->Ok_0;
        let k = choose|k: int| 0 <= k < declared.len() && declared[k] == required;
        let place = step->Entry_walk.pending.len() + k;
        assert((step->Entry_walk.pending + declared)[place] == required);
        assert(is_queued(next, place, required));
        lemma_queue_moves(source, root, m + 1, place, required)
    }
}

/// A walk comes to every release of a chain, unless it ends before.
proof fn lemma_chain_is_read<E>(
    source: Source<E>,
    data: GalaxyData,
    root: PackageView,
    chain: Seq<PackageView>,
    i: int,
) -> (n: nat)
    requires
        source.gives(data),
        is_chain(data, chain),
        chain[0] == root,
        0 <= i < chain.len(),
    ensures
        walk_over(walk_after(source, root, n)) || is_read(walk_after(source, root, n), chain[i]),
    decreases i,
{
    if i == 0 {
        0
    } else {
        let package = chain[i - 1];
        let m = lemma_chain_is_read(source, data, root, chain, i - 1);
        if walk_over(walk_after(source, root, m)) {
            m
        } else {
            assert(depends_on(data, package, chain[i - 1 + 1]));
            let required = choose|required: RequirementView| #[trigger]
                declares(data, package, required) && leads_to(data, required) == Some(chain[i]);
            let k = lemma_declared_is_met(source, data, root, m, package, required);
            let step = walk_after(source, root, k);
            if walk_over(step) {
                k
            } else {
                let next = walk_after(source, root, k + 1);
                assert(next == walk_next(source, k, step));
                lemma_walk_goes_on(source, data, k, step);
                if step->Versions_walk.visited.contains(chain[i]) {
                    lemma_visited_was_read(source, root, k, chain[i])
                } else {
                    k + 1
                }
            }
        }
    }
}

/// A walk that comes to something that lacks something ends there.
proof fn lemma_broken_walk_ends<E>(
    source: Source<E>,
    data: GalaxyData,
    root: PackageView,
) -> (n: nat)
    requires
        source.gives(data),
        is_broken(data, root),
    ensures
        walk_over(walk_after(source, root, n)),
{
    let q = choose|q: PackageView| #[trigger] reachable(data, root, q) && !complete(data, q);
    let chain = choose|chain: Seq<PackageView>| #[trigger]
        is_chain(data, chain) && chain[0] == root && chain.last() == q;
    let m = lemma_chain_is_read(source, data, root, chain, chain.len() - 1);
    let step = walk_after(source, root, m);
    if walk_over(step) {
        m
    } else if !data.entries.contains_key(q) || declared_requirements(data.entries[q]) is Err {
        assert(walk_after(source, root, m + 1) == walk_next(source, m, step));
        lemma_walk_goes_on(source, data, m, step);
        m + 1
    } else {
        let required = choose|required: RequirementView| #[trigger]
            declares(data, q, required) && leads_to(data, required) is None;
        let k = lemma_declared_is_met(source, data, root, m, q, required);
        let met = walk_after(source, root, k);
        if walk_over(met) {
            k
        } else {
            assert(walk_after(source, root, k + 1) == walk_next(source, k, met));
            lemma_walk_on_track(source, data, root, k);
            lemma_walk_goes_on(source, data, k, met);
            k + 1
        }
    }
}

/// A walk has come only to so many releases.
spec fn visits_finitely<E>(step: StepView<E>) -> bool {
    match step {
        StepView::Entry { walk, .. } => walk.visited.finite(),
        StepView::Versions { walk, .. } => walk.visited.finite(),
        StepView::Resolved(dependencies) => dependencies.finite(),
        StepView::Failed(_) => true,
    }
}

proof fn lemma_visits_finitely<E>(source: Source<E>, root: PackageView, n: nat)
    ensures
        visits_finitely(walk_after(source, root, n)),
    decreases n,
{
    if n > 0 {
        lemma_visits_finitely(source, root, (n - 1) as nat);
    }
}

/// A walk that ends shows that only so many releases are reachable, or that
/// something lacks something: where ever more releases are reachable, and none
/// of them lacks anything, it goes on.
pub proof fn walk_ends_only_then<E>(
    source: Source<E>,
    data: GalaxyData,
    root: PackageView,
    n: nat,
)
    requires
        source.gives(data),
        walk_over(walk_after(source, root, n)),
    ensures
        walkable(data, root),
{
    walk_finds_the_closure(source, data, root, n);
    lemma_visits_finitely(source, root, n);
    if let StepView::Resolved(dependencies) = walk_after(source, root, n) {
        lemma_root_is_reachable(data, root);
        assert(reachable_set(data, root) =~= dependencies.insert(root));
    }
}

/// A walk that is over stays as it is.
pub proof fn walk_stays_over<E>(source: Source<E>, root: PackageView, m: nat, n: nat)
    requires
        walk_over(walk_after(source, root, m)),
        m <= n,
    ensures
        walk_after(source, root, n) == walk_after(source, root, m),
    decreases n,
{
    if m < n {
        walk_stays_over(source, root, m, (n - 1) as nat);
    }
}

/// A walk finds the dependencies if and only if nothing that is reachable lacks
/// anything.
pub proof fn walk_succeeds_exactly_when_complete<E>(
    source: Source<E>,
    data: GalaxyData,
    root: PackageView,
    n: nat,
)
    requires
        source.gives(data),
        walk_over(walk_after(source, root, n)),
    ensures
        walk_after(source, root, n) is Resolved <==> forall|q: PackageView| #[trigger]
            reachable(data, root, q) ==> complete(data, q),
{
    walk_finds_the_closure(source, data, root, n);
}

/// How an identification goes on when a source is asked, after so many
/// questions.
pub open spec fn identify_next<E>(
    source: Source<E>,
    n: nat,
    step: IdentifyView<E>,
) -> IdentifyView<E> {
    match question(step) {
        Some(Question::Entry(package)) => match (source.entry)(n, package) {
            Ok(entry) => after_entry(step, entry),
            Err(error) => IdentifyView::Failed(Failure::Source(error)),
        },
        Some(Question::Versions(name)) => match (source.versions)(n, name) {
            Ok(versions) => after_versions(step, versions),
            Err(error) => IdentifyView::Failed(Failure::Source(error)),
        },
        None => step,
    }
}

/// Where an identification stands after so many questions.
pub open spec fn identify_after<E>(
    source: Source<E>,
    name: Seq<char>,
    version: Option<Seq<char>>,
    n: nat,
) -> IdentifyView<E>
    decreases n,
{
    if n == 0 {
        identify_start(name, version)
    } else {
        identify_next(
            source,
            (n - 1) as nat,
            identify_after(source, name, version, (n - 1) as nat),
        )
    }
}

/// The version that an identification starts from.
pub open spec fn start_version(
    data: GalaxyData,
    name: Seq<char>,
    version: Option<Seq<char>>,
) -> Option<Seq<char>> {
    match version {
        Some(_) => version,
        None => if data.versions.contains_key(name) {
            newest(compatible_versions(data.versions[name]))
        } else {
            None
        },
    }
}

/// What an identification of a collection keeps: its walk is one from the
/// version that it starts from.
spec fn identification_on_track<E>(
    data: GalaxyData,
    name: Seq<char>,
    version: Option<Seq<char>>,
    step: IdentifyView<E>,
) -> bool {
    match step {
        IdentifyView::Choosing { name: asked } => asked == name && version is None,
        IdentifyView::Walking { version: v, step } => {
            &&& start_version(data, name, version) == Some(v)
            &&& step_on_track(data, PackageView { name, version: v }, step)
            &&& walk_question(step) is Some
        },
        _ => ends_rightly(data, name, version, step),
    }
}

/// A source that answers from the data gives the answer that the data have, and
/// no other.
proof fn lemma_answers_from_data<E>(
    source: Source<E>,
    data: GalaxyData,
    n: nat,
    step: IdentifyView<E>,
)
    requires
        source.gives(data),
    ensures
        match answered_by(data, step) {
            Some(next) => identify_next(source, n, step) == next,
            None => if question(step) is Some {
                identify_next(source, n, step) matches IdentifyView::Failed(Failure::Source(_))
            } else {
                identify_next(source, n, step) == step
            },
        },
{
    match question(step) {
        Some(Question::Entry(package)) => {
            let reply = (source.entry)(n, package);
            assert(reply is Ok <==> data.entries.contains_key(package));
        },
        Some(Question::Versions(name)) => {
            let reply = (source.versions)(n, name);
            assert(reply is Ok <==> data.versions.contains_key(name));
        },
        None => {},
    }
}

proof fn lemma_identify_next_on_track<E>(
    source: Source<E>,
    data: GalaxyData,
    name: Seq<char>,
    version: Option<Seq<char>>,
    n: nat,
    step: IdentifyView<E>,
)
    requires
        source.gives(data),
        identification_on_track(data, name, version, step),
    ensures
        identification_on_track(data, name, version, identify_next(source, n, step)),
{
    lemma_answers_from_data(source, data, n, step);
    match step {
        IdentifyView::Choosing { .. } => {
            if let Some(v) = start_version(data, name, version) {
                lemma_walk_start_on_track::<E>(data, PackageView { name, version: v });
            }
        },
        IdentifyView::Walking { version: v, step: walked } => {
            let root = PackageView { name, version: v };
            let next = walk_next(source, n, walked);
            lemma_walk_goes_on(source, data, n, walked);
            lemma_step_on_track(data, root, walked, next);
            assert(identify_next(source, n, step) == identified(v, next));
        },
        _ => {},
    }
}

proof fn lemma_identification_on_track<E>(
    source: Source<E>,
    data: GalaxyData,
    name: Seq<char>,
    version: Option<Seq<char>>,
    n: nat,
)
    requires
        source.gives(data),
    ensures
        identification_on_track(data, name, version, identify_after(source, name, version, n)),
    decreases n,
{
    if n == 0 {
        if let Some(v) = version {
            lemma_walk_start_on_track::<E>(data, PackageView { name, version: v });
        }
    } else {
        let m = (n - 1) as nat;
        lemma_identification_on_track(source, data, name, version, m);
        lemma_identify_next_on_track(
            source,
            data,
            name,
            version,
            m,
            identify_after(source, name, version, m),
        );
    }
}

/// How the identification of dependencies must end with a source that answers
/// from the data: done, it has the version that was asked for, or the newest
/// that is listed, and exactly the dependencies that a chain leads to from
/// there. It fails only because there is no version to start from or because
/// something on such a chain is missing, cannot be read, or cannot be resolved.
pub open spec fn ends_rightly<E>(
    data: GalaxyData,
    name: Seq<char>,
    version: Option<Seq<char>>,
    end: IdentifyView<E>,
) -> bool {
    match end {
        IdentifyView::Resolved { version: v, host, dependencies } => {
            &&& start_version(data, name, version) == Some(v)
            &&& host == "galaxy.ansible.com"@
            &&& is_closure(data, PackageView { name, version: v }, dependencies)
        },
        IdentifyView::Failed(_) => start_version(data, name, version) matches Some(v)
            ==> is_broken(data, PackageView { name, version: v }),
        _ => false,
    }
}

/// There is a version to start from, and nothing that is reachable from it lacks
/// anything.
pub open spec fn resolvable(
    data: GalaxyData,
    name: Seq<char>,
    version: Option<Seq<char>>,
) -> bool {
    &&& start_version(data, name, version) matches Some(v)
    &&& forall|q: PackageView| #[trigger]
        reachable(data, PackageView { name, version: v }, q) ==> complete(data, q)
}

/// An identification that is over has ended as it must: with the closure, or
/// because something is missing.
pub proof fn identification_finds_the_closure<E>(
    source: Source<E>,
    data: GalaxyData,
    name: Seq<char>,
    version: Option<Seq<char>>,
    n: nat,
)
    requires
        source.gives(data),
        question(identify_after(source, name, version, n)) is None,
    ensures
        ends_rightly(data, name, version, identify_after(source, name, version, n)),
{
    lemma_identification_on_track(source, data, name, version, n);
}

/// An identification finds the dependencies if and only if there is a version to
/// start from and nothing that is reachable from it lacks anything.
pub proof fn identification_succeeds_exactly_when_complete<E>(
    source: Source<E>,
    data: GalaxyData,
    name: Seq<char>,
    version: Option<Seq<char>>,
    n: nat,
)
    requires
        source.gives(data),
        question(identify_after(source, name, version, n)) is None,
    ensures
        identify_after(source, name, version, n) is Resolved <==> resolvable(data, name, version),
{
    identification_finds_the_closure(source, data, name, version, n);
}

/// Only so many releases are reachable from the version that an identification
/// starts from, or something that is reachable lacks something, or there is no
/// such version.
pub open spec fn identifiable(
    data: GalaxyData,
    name: Seq<char>,
    version: Option<Seq<char>>,
) -> bool {
    start_version(data, name, version) matches Some(v) ==> walkable(
        data,
        PackageView { name, version: v },
    )
}

/// The source after one more question.
pub(crate) open spec fn one_later<E>(source: Source<E>) -> Source<E> {
    Source {
        entry: |n: nat, package: PackageView| (source.entry)(n + 1, package),
        versions: |n: nat, name: Seq<char>| (source.versions)(n + 1, name),
    }
}

/// The source that the walk of an identification asks.
pub(crate) open spec fn walk_source<E>(source: Source<E>, version: Option<Seq<char>>) -> Source<E> {
    if version is Some {
        source
    } else {
        one_later(source)
    }
}

/// Once its version is settled, an identification stands where its walk stands.
pub(crate) proof fn lemma_identification_walks<E>(
    source: Source<E>,
    data: GalaxyData,
    name: Seq<char>,
    version: Option<Seq<char>>,
    n: nat,
)
    requires
        source.gives(data),
    ensures
        walk_source(source, version).gives(data),
        ({
            let at = if version is Some {
                n
            } else {
                n + 1
            };
            match start_version(data, name, version) {
                Some(v) => identify_after(source, name, version, at) == identified(
                    v,
                    walk_after(
                        walk_source(source, version),
                        PackageView { name, version: v },
                        n,
                    ),
                ),
                None => identify_after(source, name, version, at) is Failed,
            }
        }),
    decreases n,
{
    let at = if version is Some {
        n
    } else {
        n + 1
    };
    let asked = walk_source(source, version);
    assert(asked.gives(data)) by {
        if version is None {
            assert forall|m: nat, package: PackageView|
                match #[trigger] (asked.entry)(m, package) {
                    Ok(entry) => data.entries.contains_key(package) && data.entries[package]
                        == entry,
                    Err(_) => !data.entries.contains_key(package),
                } by {
                let reply = (source.entry)(m + 1, package);
            }
            assert forall|m: nat, listed: Seq<char>|
                match #[trigger] (asked.versions)(m, listed) {
                    Ok(versions) => data.versions.contains_key(listed) && data.versions[listed]
                        == versions,
                    Err(_) => !data.versions.contains_key(listed),
                } by {
                let reply = (source.versions)(m + 1, listed);
            }
        }
    }
    if n == 0 {
        if version is None {
            let start = identify_start::<E>(name, version);
            assert(identify_after(source, name, version, 0) == start);
            assert(identify_after(source, name, version, 1) == identify_next(source, 0, start));
            lemma_answers_from_data(source, data, 0, start);
        }
    } else {
        let m = (n - 1) as nat;
        let before = (at - 1) as nat;
        lemma_identification_walks(source, data, name, version, m);
        let step = identify_after(source, name, version, before);
        assert(identify_after(source, name, version, at) == identify_next(source, before, step));
        if let Some(v) = start_version(data, name, version) {
            let root = PackageView { name, version: v };
            let walked = walk_after(asked, root, m);
            assert(walk_after(asked, root, n) == walk_next(asked, m, walked));
            assert(identify_next(source, before, identified(v, walked)) == identified(
                v,
                walk_next(asked, m, walked),
            ));
        }
    }
}

/// Every identification ends, whatever cycles the dependencies form, when only
/// so many releases are reachable from the version that it starts from, when
/// something that is reachable lacks something, or when there is no such
/// version.
pub proof fn identification_ends<E>(
    source: Source<E>,
    data: GalaxyData,
    name: Seq<char>,
    version: Option<Seq<char>>,
) -> (n: nat)
    requires
        source.gives(data),
        identifiable(data, name, version),
    ensures
        question(identify_after(source, name, version, n)) is None,
{
    lemma_identification_walks(source, data, name, version, 0);
    let end = match start_version(data, name, version) {
        Some(v) => walk_ends(
            walk_source(source, version),
            data,
            PackageView { name, version: v },
        ),
        None => 0,
    };
    lemma_identification_walks(source, data, name, version, end);
    if version is Some {
        end
    } else {
        end + 1
    }
}

/// An identification that ends shows that only so many releases are reachable
/// from the version that it starts from, that something lacks something, or that
/// there is no such version.
pub proof fn identification_ends_only_then<E>(
    source: Source<E>,
    data: GalaxyData,
    name: Seq<char>,
    version: Option<Seq<char>>,
    n: nat,
)
    requires
        source.gives(data),
        question(identify_after(source, name, version, n)) is None,
    ensures
        identifiable(data, name, version),
{
    if let Some(v) = start_version(data, name, version) {
        let root = PackageView { name, version: v };
        let m = if version is Some {
            n
        } else {
            (n - 1) as nat
        };
        assert(version is None ==> n > 0);
        lemma_identification_walks(source, data, name, version, m);
        walk_ends_only_then(walk_source(source, version), data, root, m);
    }
}

/// An identification that is over stays as it is.
pub proof fn identification_stays_over<E>(
    source: Source<E>,
    name: Seq<char>,
    version: Option<Seq<char>>,
    m: nat,
    n: nat,
)
    requires
        question(identify_after(source, name, version, m)) is None,
        m <= n,
    ensures
        identify_after(source, name, version, n) == identify_after(source, name, version, m),
    decreases n,
{
    if m < n {
        identification_stays_over(source, name, version, m, (n - 1) as nat);
    }
}

/// What an identification over a cached source asks that source.
pub open spec fn cached_question<E>(step: CachedView<E>) -> Option<Question> {
    match step {
        CachedView::Waiting { step, .. } => question(step),
        CachedView::Over(_) => None,
    }
}

/// How an identification over a cached source goes on when the source is asked,
/// after so many questions.
pub open spec fn cached_next<E>(source: Source<E>, n: nat, step: CachedView<E>) -> CachedView<E> {
    match cached_question(step) {
        Some(Question::Entry(package)) => match (source.entry)(n, package) {
            Ok(entry) => cached_after_entry(step, entry),
            Err(error) => CachedView::Over(IdentifyView::Failed(Failure::Source(error))),
        },
        Some(Question::Versions(name)) => match (source.versions)(n, name) {
            Ok(versions) => cached_after_versions(step, versions),
            Err(error) => CachedView::Over(IdentifyView::Failed(Failure::Source(error))),
        },
        None => step,
    }
}

/// Where an identification over a cached source stands after so many questions.
pub open spec fn cached_after<E>(
    source: Source<E>,
    name: Seq<char>,
    version: Option<Seq<char>>,
    n: nat,
) -> CachedView<E>
    decreases n,
{
    if n == 0 {
        cached(GalaxyData::nothing(), identify_start(name, version))
    } else {
        cached_next(source, (n - 1) as nat, cached_after(source, name, version, (n - 1) as nat))
    }
}

/// The answers that are kept.
spec fn kept<E>(step: CachedView<E>) -> GalaxyData {
    match step {
        CachedView::Waiting { known, .. } => known,
        CachedView::Over(_) => GalaxyData::nothing(),
    }
}

/// The answer to a question is known.
spec fn knows(data: GalaxyData, asked: Question) -> bool {
    match asked {
        Question::Entry(package) => data.entries.contains_key(package),
        Question::Versions(name) => data.versions.contains_key(name),
    }
}

/// A step keeps only so many answers, and asks for nothing that is kept.
spec fn asks_the_unknown<E>(step: CachedView<E>) -> bool {
    match step {
        CachedView::Waiting { known, step } => {
            &&& known.entries.dom().finite()
            &&& question(step) matches Some(asked) && !knows(known, asked)
        },
        CachedView::Over(step) => question(step) is None,
    }
}

proof fn lemma_settled_asks_the_unknown<E>(known: GalaxyData, step: IdentifyView<E>)
    requires
        known.entries.dom().finite(),
    ensures
        answered_by(known, settled(known, step)) is None,
    decreases effort(known, step), backlog(step),
{
    if answered_by(known, step) is Some {
        lemma_answer_makes_progress(known, step);
        lemma_settled_asks_the_unknown(known, answered_by(known, step)->0);
    }
}

proof fn lemma_cached_asks_the_unknown<E>(known: GalaxyData, step: IdentifyView<E>)
    requires
        known.entries.dom().finite(),
    ensures
        asks_the_unknown(cached(known, step)),
        cached(known, step) is Waiting ==> kept(cached(known, step)) == known,
{
    lemma_settled_asks_the_unknown(known, step);
}

/// An answer is kept.
proof fn lemma_answer_is_kept<E>(source: Source<E>, n: nat, step: CachedView<E>)
    requires
        asks_the_unknown(step),
    ensures
        asks_the_unknown(cached_next(source, n, step)),
        cached_next(source, n, step) is Waiting ==> {
            &&& kept(step).part_of(kept(cached_next(source, n, step)))
            &&& cached_question(step) matches Some(asked) && knows(
                kept(cached_next(source, n, step)),
                asked,
            )
        },
{
    if let CachedView::Waiting { known, step: waiting } = step {
        match question(waiting) {
            Some(Question::Entry(package)) => {
                if let Ok(entry) = (source.entry)(n, package) {
                    lemma_cached_asks_the_unknown(
                        known.with_entry(package, entry),
                        after_entry(waiting, entry),
                    );
                }
            },
            Some(Question::Versions(name)) => {
                if let Ok(versions) = (source.versions)(n, name) {
                    lemma_cached_asks_the_unknown(
                        known.with_versions(name, versions),
                        after_versions(waiting, versions),
                    );
                }
            },
            None => {},
        }
    }
}

proof fn lemma_run_asks_the_unknown<E>(
    source: Source<E>,
    name: Seq<char>,
    version: Option<Seq<char>>,
    n: nat,
)
    ensures
        asks_the_unknown(cached_after(source, name, version, n)),
    decreases n,
{
    if n == 0 {
        lemma_cached_asks_the_unknown(
            GalaxyData::nothing(),
            identify_start::<E>(name, version),
        );
    } else {
        let m = (n - 1) as nat;
        lemma_run_asks_the_unknown(source, name, version, m);
        lemma_answer_is_kept(source, m, cached_after(source, name, version, m));
    }
}

/// What was asked before is known.
proof fn lemma_asked_is_known<E>(
    source: Source<E>,
    name: Seq<char>,
    version: Option<Seq<char>>,
    i: nat,
    j: nat,
)
    requires
        i < j,
        cached_question(cached_after(source, name, version, j)) is Some,
    ensures
        cached_question(cached_after(source, name, version, i)) matches Some(asked) && knows(
            kept(cached_after(source, name, version, j)),
            asked,
        ),
    decreases j,
{
    let m = (j - 1) as nat;
    let before = cached_after(source, name, version, m);
    lemma_run_asks_the_unknown(source, name, version, m);
    lemma_answer_is_kept(source, m, before);
    if i < m {
        lemma_asked_is_known(source, name, version, i, m);
    }
}

/// With a cache around it, a source is asked nothing twice, whatever it answers:
/// the metadata of a release and the versions of a collection are each fetched
/// at most once.
pub proof fn nothing_is_asked_twice<E>(
    source: Source<E>,
    name: Seq<char>,
    version: Option<Seq<char>>,
    i: nat,
    j: nat,
)
    requires
        i != j,
        cached_question(cached_after(source, name, version, i)) is Some,
        cached_question(cached_after(source, name, version, j)) is Some,
    ensures
        cached_question(cached_after(source, name, version, i)) != cached_question(
            cached_after(source, name, version, j),
        ),
{
    if i < j {
        lemma_asked_is_known(source, name, version, i, j);
        lemma_run_asks_the_unknown(source, name, version, j);
    } else {
        lemma_asked_is_known(source, name, version, j, i);
        lemma_run_asks_the_unknown(source, name, version, i);
    }
}

/// Two ends that differ at most in what the source said when it failed.
pub open spec fn alike<E>(left: IdentifyView<E>, right: IdentifyView<E>) -> bool {
    ||| left == right
    ||| left matches IdentifyView::Failed(Failure::Source(_)) && right
        matches IdentifyView::Failed(Failure::Source(_))
}

/// Answers that were kept lead an identification to where the source itself
/// would.
proof fn lemma_settled_is_on_the_run<E>(
    source: Source<E>,
    data: GalaxyData,
    name: Seq<char>,
    version: Option<Seq<char>>,
    known: GalaxyData,
    m: nat,
) -> (n: nat)
    requires
        source.gives(data),
        known.part_of(data),
        known.entries.dom().finite(),
    ensures
        n >= m,
        identify_after(source, name, version, n) == settled(
            known,
            identify_after(source, name, version, m),
        ),
    decreases
            effort(known, identify_after(source, name, version, m)),
            backlog(identify_after(source, name, version, m)),
{
    let step = identify_after(source, name, version, m);
    if answered_by(known, step) is Some {
        lemma_answer_makes_progress(known, step);
        lemma_answers_from_data(source, data, m, step);
        assert(answered_by(data, step) == answered_by(known, step));
        assert(identify_after(source, name, version, m + 1) == answered_by(known, step)->0);
        lemma_settled_is_on_the_run(source, data, name, version, known, m + 1)
    } else {
        m
    }
}

/// The step is one of the identification without a cache, after at least so many
/// questions.
spec fn stands_on_the_run<E>(
    source: Source<E>,
    name: Seq<char>,
    version: Option<Seq<char>>,
    least: nat,
    step: CachedView<E>,
) -> bool {
    match step {
        CachedView::Waiting { step, .. } => exists|m: nat|
            m >= least && #[trigger] identify_after(source, name, version, m) == step,
        CachedView::Over(end) => exists|m: nat|
            alike(#[trigger] identify_after(source, name, version, m), end),
    }
}

proof fn lemma_cached_stands<E>(
    source: Source<E>,
    data: GalaxyData,
    name: Seq<char>,
    version: Option<Seq<char>>,
    known: GalaxyData,
    m: nat,
)
    requires
        source.gives(data),
        known.part_of(data),
        known.entries.dom().finite(),
    ensures
        stands_on_the_run(
            source,
            name,
            version,
            m,
            cached(known, identify_after(source, name, version, m)),
        ),
        kept(cached(known, identify_after(source, name, version, m))).part_of(data),
{
    let n = lemma_settled_is_on_the_run(source, data, name, version, known, m);
    assert(alike(
        identify_after(source, name, version, n),
        settled(known, identify_after(source, name, version, m)),
    ));
}

/// With a source that answers from the data, an identification over the cached
/// source keeps only what is in the data, and comes along where one without the
/// cache does.
proof fn lemma_cached_run<E>(
    source: Source<E>,
    data: GalaxyData,
    name: Seq<char>,
    version: Option<Seq<char>>,
    n: nat,
)
    requires
        source.gives(data),
    ensures
        kept(cached_after(source, name, version, n)).part_of(data),
        stands_on_the_run(source, name, version, n, cached_after(source, name, version, n)),
    decreases n,
{
    if n == 0 {
        lemma_cached_stands(source, data, name, version, GalaxyData::nothing(), 0);
    } else {
        let before = cached_after(source, name, version, (n - 1) as nat);
        lemma_cached_run(source, data, name, version, (n - 1) as nat);
        lemma_run_asks_the_unknown(source, name, version, (n - 1) as nat);
        if let CachedView::Waiting { known, step } = before {
            let m = choose|m: nat|
                m >= n - 1 && #[trigger] identify_after(source, name, version, m) == step;
            let next = identify_after(source, name, version, m + 1);
            assert(next == identify_next(source, m, step));
            lemma_answers_from_data(source, data, m, step);
            match question(step) {
                Some(Question::Entry(package)) => {
                    match (source.entry)((n - 1) as nat, package) {
                        Ok(entry) => {
                            assert(next == after_entry(step, entry));
                            lemma_cached_stands(
                                source,
                                data,
                                name,
                                version,
                                known.with_entry(package, entry),
                                m + 1,
                            );
                        },
                        Err(error) => {
                            assert(alike(
                                next,
                                IdentifyView::Failed(Failure::Source(error)),
                            ));
                        },
                    }
                },
                Some(Question::Versions(asked)) => {
                    match (source.versions)((n - 1) as nat, asked) {
                        Ok(versions) => {
                            assert(next == after_versions(step, versions));
                            lemma_cached_stands(
                                source,
                                data,
                                name,
                                version,
                                known.with_versions(asked, versions),
                                m + 1,
                            );
                        },
                        Err(error) => {
                            assert(alike(
                                next,
                                IdentifyView::Failed(Failure::Source(error)),
                            ));
                        },
                    }
                },
                None => {},
            }
        }
    }
}

/// A cache around a source changes nothing in how an identification ends, when
/// the source answers alike whenever it is asked.
pub proof fn caching_changes_no_end<E>(
    source: Source<E>,
    data: GalaxyData,
    name: Seq<char>,
    version: Option<Seq<char>>,
    n: nat,
    m: nat,
)
    requires
        source.gives(data),
        cached_after(source, name, version, n) is Over,
        question(identify_after(source, name, version, m)) is None,
    ensures
        cached_after(source, name, version, n) matches CachedView::Over(end) && alike(
            identify_after(source, name, version, m),
            end,
        ),
{
    lemma_cached_run(source, data, name, version, n);
    lemma_run_asks_the_unknown(source, name, version, n);
    if let CachedView::Over(end) = cached_after(source, name, version, n) {
        let k = choose|k: nat|
            alike(#[trigger] identify_after(source, name, version, k), end);
        if k < m {
            identification_stays_over(source, name, version, k, m);
        } else {
            identification_stays_over(source, name, version, m, k);
        }
    }
}

/// An identification over a cached source that is over has ended as it must:
/// with the closure, or because something is missing.
pub proof fn cached_identification_finds_the_closure<E>(
    source: Source<E>,
    data: GalaxyData,
    name: Seq<char>,
    version: Option<Seq<char>>,
    n: nat,
)
    requires
        source.gives(data),
    ensures
        cached_after(source, name, version, n) matches CachedView::Over(end) ==> ends_rightly(
            data,
            name,
            version,
            end,
        ),
{
    lemma_cached_run(source, data, name, version, n);
    lemma_run_asks_the_unknown(source, name, version, n);
    if let CachedView::Over(end) = cached_after(source, name, version, n) {
        let k = choose|k: nat|
            alike(#[trigger] identify_after(source, name, version, k), end);
        identification_finds_the_closure(source, data, name, version, k);
    }
}

/// An identification over a cached source finds the dependencies if and only if
/// there is a version to start from and nothing that is reachable from it lacks
/// anything.
pub proof fn cached_identification_succeeds_exactly_when_complete<E>(
    source: Source<E>,
    data: GalaxyData,
    name: Seq<char>,
    version: Option<Seq<char>>,
    n: nat,
)
    requires
        source.gives(data),
    ensures
        cached_after(source, name, version, n) matches CachedView::Over(end) ==> (end is Resolved
            <==> resolvable(data, name, version)),
{
    cached_identification_finds_the_closure(source, data, name, version, n);
}

/// Every identification over a cached source ends, whatever cycles the
/// dependencies form, where one without the cache does.
pub proof fn cached_identification_ends<E>(
    source: Source<E>,
    data: GalaxyData,
    name: Seq<char>,
    version: Option<Seq<char>>,
) -> (n: nat)
    requires
        source.gives(data),
        identifiable(data, name, version),
    ensures
        cached_after(source, name, version, n) is Over,
{
    let n = identification_ends(source, data, name, version);
    lemma_cached_run(source, data, name, version, n);
    lemma_run_asks_the_unknown(source, name, version, n);
    if let CachedView::Waiting { step, .. } = cached_after(source, name, version, n) {
        let m = choose|m: nat|
            m >= n && #[trigger] identify_after(source, name, version, m) == step;
        identification_stays_over(source, name, version, n, m);
    }
    n
}

/// An identification over a cached source ends only where one without the cache
/// does.
pub proof fn cached_identification_ends_only_then<E>(
    source: Source<E>,
    data: GalaxyData,
    name: Seq<char>,
    version: Option<Seq<char>>,
    n: nat,
)
    requires
        source.gives(data),
        cached_after(source, name, version, n) is Over,
    ensures
        identifiable(data, name, version),
{
    lemma_cached_run(source, data, name, version, n);
    lemma_run_asks_the_unknown(source, name, version, n);
    if let CachedView::Over(end) = cached_after(source, name, version, n) {
        let k = choose|k: nat|
            alike(#[trigger] identify_after(source, name, version, k), end);
        identification_ends_only_then(source, data, name, version, k);
    }
}

/// What a cached source was told in the course of its first questions.
pub open spec fn told<E>(
    source: Source<E>,
    name: Seq<char>,
    version: Option<Seq<char>>,
    n: nat,
) -> GalaxyData
    decreases n,
{
    if n == 0 {
        GalaxyData::nothing()
    } else {
        let m = (n - 1) as nat;
        let before = told(source, name, version, m);
        match cached_question(cached_after(source, name, version, m)) {
            Some(Question::Entry(package)) => match (source.entry)(m, package) {
                Ok(entry) => before.with_entry(package, entry),
                Err(_) => before,
            },
            Some(Question::Versions(asked)) => match (source.versions)(m, asked) {
                Ok(versions) => before.with_versions(asked, versions),
                Err(_) => before,
            },
            None => before,
        }
    }
}

/// What is told is kept, as long as there is something to ask.
proof fn lemma_told_is_kept<E>(
    source: Source<E>,
    name: Seq<char>,
    version: Option<Seq<char>>,
    n: nat,
)
    ensures
        cached_after(source, name, version, n) is Waiting ==> kept(
            cached_after(source, name, version, n),
        ) == told(source, name, version, n),
    decreases n,
{
    if n > 0 {
        lemma_told_is_kept(source, name, version, (n - 1) as nat);
    }
}

/// What was told is not told otherwise later.
proof fn lemma_told_grows<E>(
    source: Source<E>,
    name: Seq<char>,
    version: Option<Seq<char>>,
    i: nat,
    j: nat,
)
    requires
        i <= j,
    ensures
        told(source, name, version, i).part_of(told(source, name, version, j)),
    decreases j,
{
    if i < j {
        let m = (j - 1) as nat;
        lemma_told_grows(source, name, version, i, m);
        lemma_told_is_kept(source, name, version, m);
        lemma_run_asks_the_unknown(source, name, version, m);
        let (first, middle, last) = (
            told(source, name, version, i),
            told(source, name, version, m),
            told(source, name, version, j),
        );
        assert(middle.part_of(last));
        assert forall|p: PackageView| #[trigger] first.entries.contains_key(
            p,
        ) implies last.entries.contains_key(p) && last.entries[p] == first.entries[p] by {
            assert(middle.entries.contains_key(p));
        }
        assert forall|p: Seq<char>| #[trigger] first.versions.contains_key(
            p,
        ) implies last.versions.contains_key(p) && last.versions[p] == first.versions[p] by {
            assert(middle.versions.contains_key(p));
        }
    }
}

/// Nothing more is told when the identification is over.
proof fn lemma_nothing_more_is_told<E>(
    source: Source<E>,
    name: Seq<char>,
    version: Option<Seq<char>>,
    i: nat,
    j: nat,
)
    requires
        i <= j,
        cached_after(source, name, version, i) is Over,
    ensures
        cached_after(source, name, version, j) is Over,
        told(source, name, version, j) == told(source, name, version, i),
    decreases j,
{
    if i < j {
        lemma_nothing_more_is_told(source, name, version, i, (j - 1) as nat);
    }
}

/// A source that answers from the data, and fails as the given source does.
spec fn steadied<E>(source: Source<E>, data: GalaxyData) -> Source<E> {
    Source {
        entry: |n: nat, package: PackageView|
            if data.entries.contains_key(package) {
                Ok(data.entries[package])
            } else {
                match (source.entry)(n, package) {
                    Ok(_) => Err(vstd::pervasive::arbitrary()),
                    Err(error) => Err(error),
                }
            },
        versions: |n: nat, name: Seq<char>|
            if data.versions.contains_key(name) {
                Ok(data.versions[name])
            } else {
                match (source.versions)(n, name) {
                    Ok(_) => Err(vstd::pervasive::arbitrary()),
                    Err(error) => Err(error),
                }
            },
    }
}

/// To a cached source it makes no difference what an answer would be when asked
/// again.
proof fn lemma_steadied_run<E>(
    source: Source<E>,
    name: Seq<char>,
    version: Option<Seq<char>>,
    n: nat,
    k: nat,
)
    requires
        k <= n,
    ensures
        cached_after(steadied(source, told(source, name, version, n)), name, version, k)
            == cached_after(source, name, version, k),
    decreases k,
{
    if k > 0 {
        let m = (k - 1) as nat;
        let data = told(source, name, version, n);
        let step = cached_after(source, name, version, m);
        lemma_steadied_run(source, name, version, n, m);
        lemma_told_is_kept(source, name, version, m);
        lemma_run_asks_the_unknown(source, name, version, m);
        lemma_told_grows(source, name, version, k, n);
        assert(cached_after(source, name, version, k) == cached_next(source, m, step));
        let now = told(source, name, version, k);
        match cached_question(step) {
            Some(Question::Entry(package)) => {
                match (source.entry)(m, package) {
                    Ok(entry) => {
                        assert(now.entries.contains_key(package) && now.entries[package]
                            == entry);
                    },
                    Err(_) => {
                        lemma_nothing_more_is_told(source, name, version, k, n);
                    },
                }
            },
            Some(Question::Versions(asked)) => {
                match (source.versions)(m, asked) {
                    Ok(versions) => {
                        assert(now.versions.contains_key(asked) && now.versions[asked]
                            == versions);
                    },
                    Err(_) => {
                        lemma_nothing_more_is_told(source, name, version, k, n);
                    },
                }
            },
            None => {},
        }
        assert(cached_next(steadied(source, data), m, step) == cached_next(source, m, step));
    }
}

/// Whatever a source answers, and however it would have answered if asked again,
/// an identification over the cached source ends as it must with what the source
/// told it, and finds the dependencies if and only if nothing is missing there.
pub proof fn cached_identification_rests_on_what_was_told<E>(
    source: Source<E>,
    name: Seq<char>,
    version: Option<Seq<char>>,
    n: nat,
)
    ensures
        cached_after(source, name, version, n) matches CachedView::Over(end) ==> {
            &&& ends_rightly(told(source, name, version, n), name, version, end)
            &&& end is Resolved <==> resolvable(told(source, name, version, n), name, version)
        },
{
    let data = told(source, name, version, n);
    let steady = steadied(source, data);
    lemma_steadied_run(source, name, version, n, n);
    cached_identification_finds_the_closure(steady, data, name, version, n);
}

} // verus!
