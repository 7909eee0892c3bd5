//! Collections, what they require, and what was found for them.

use vstd::prelude::*;

use crate::lexical::{code_points, lemma_code_points_injective, text_less, text_precedes};
use crate::lexical::{lex_less_is_irreflexive, lex_less_is_total, lex_less_is_transitive};

verus! {

/// One release of a collection: its name and its version.
pub struct PackageView {
    pub name: Seq<char>,
    pub version: Seq<char>,
}

/// A collection that is required, and the versions of it that will do.
pub struct RequirementView {
    pub name: Seq<char>,
    pub requirement: Seq<char>,
}

/// One release of a collection.
#[derive(Debug, PartialEq, Eq)]
pub struct PackageKey {
    pub name: String,
    pub version: String,
}

impl View for PackageKey {
    type V = PackageView;

    open spec fn view(&self) -> PackageView {
        PackageView { name: self.name@, version: self.version@ }
    }
}

impl Clone for PackageKey {
    fn clone(&self) -> (r: PackageKey)
        ensures
            r@ == self@,
    {
        PackageKey { name: self.name.clone(), version: self.version.clone() }
    }
}

/// A collection that another one requires, and the versions of it that will do.
#[derive(Debug, PartialEq, Eq)]
pub struct DependencyRequirement {
    pub name: String,
    pub requirement: String,
}

impl View for DependencyRequirement {
    type V = RequirementView;

    open spec fn view(&self) -> RequirementView {
        RequirementView { name: self.name@, requirement: self.requirement@ }
    }
}

/// A dependency that was found, at the version that it was resolved to.
#[derive(Debug, PartialEq, Eq)]
pub struct Dependency {
    pub name: String,
    pub version: String,
}

impl View for Dependency {
    type V = PackageView;

    open spec fn view(&self) -> PackageView {
        PackageView { name: self.name@, version: self.version@ }
    }
}

/// The dependencies of one release of a collection.
#[derive(Debug, PartialEq, Eq)]
pub struct PackageDependencies {
    /// The version of the collection, chosen if none was asked for.
    pub package_version: String,
    /// The host of the registry that was asked.
    pub registry_host_name: String,
    /// The dependencies, each once, in the order of name and version.
    pub dependencies: Vec<Dependency>,
}

/// The releases that a list of keys names.
pub open spec fn packages(keys: Seq<PackageKey>) -> Seq<PackageView> {
    keys.map_values(|key: PackageKey| key@)
}

/// The requirements of a list.
pub open spec fn requirements(list: Seq<DependencyRequirement>) -> Seq<RequirementView> {
    list.map_values(|requirement: DependencyRequirement| requirement@)
}

/// The releases that a list of dependencies names.
pub open spec fn found(list: Seq<Dependency>) -> Seq<PackageView> {
    list.map_values(|dependency: Dependency| dependency@)
}

/// The order of releases: by name, then by version, both as text.
pub open spec fn package_less(a: PackageView, b: PackageView) -> bool {
    text_less(a.name, b.name) || (a.name == b.name && text_less(a.version, b.version))
}

/// The releases stand in order, and none of them twice.
pub open spec fn ascending(list: Seq<PackageView>) -> bool {
    forall|i: int, j: int| 0 <= i < j < list.len() ==> package_less(list[i], list[j])
}

/// No release comes before itself.
pub proof fn package_less_is_irreflexive(a: PackageView)
    ensures
        !package_less(a, a),
{
    lex_less_is_irreflexive(code_points(a.name));
    lex_less_is_irreflexive(code_points(a.version));
}

/// What comes before an earlier release comes before a later one.
pub proof fn package_less_is_transitive(a: PackageView, b: PackageView, c: PackageView)
    requires
        package_less(a, b),
        package_less(b, c),
    ensures
        package_less(a, c),
{
    if text_less(a.name, b.name) && text_less(b.name, c.name) {
        lex_less_is_transitive(code_points(a.name), code_points(b.name), code_points(c.name));
    }
    if text_less(a.version, b.version) && text_less(b.version, c.version) {
        lex_less_is_transitive(
            code_points(a.version),
            code_points(b.version),
            code_points(c.version),
        );
    }
}

/// Of two different releases one comes before the other.
pub proof fn package_less_is_total(a: PackageView, b: PackageView)
    ensures
        package_less(a, b) || a == b || package_less(b, a),
{
    lex_less_is_total(code_points(a.name), code_points(b.name));
    lex_less_is_total(code_points(a.version), code_points(b.version));
    if code_points(a.name) == code_points(b.name) {
        lemma_code_points_injective(a.name, b.name);
        if code_points(a.version) == code_points(b.version) {
            lemma_code_points_injective(a.version, b.version);
        }
    }
}

/// A set of releases can be listed in ascending order in only one way.
pub proof fn ascending_is_unique(a: Seq<PackageView>, b: Seq<PackageView>)
    requires
        ascending(a),
        ascending(b),
        a.to_set() == b.to_set(),
    ensures
        a == b,
    decreases a.len(),
{
    if a.len() == 0 {
        if b.len() > 0 {
            assert(b.to_set().contains(b[0]));
            assert(a.to_set().contains(b[0]));
        }
        assert(a =~= b);
    } else {
        assert(a.to_set().contains(a.last()));
        assert(b.to_set().contains(a.last()));
        assert(b.len() > 0);
        assert(b.to_set().contains(b.last()));
        assert(a.to_set().contains(b.last()));
        let i = choose|i: int| 0 <= i < a.len() && a[i] == b.last();
        let j = choose|j: int| 0 <= j < b.len() && b[j] == a.last();
        if i < a.len() - 1 && j < b.len() - 1 {
            package_less_is_transitive(a.last(), b.last(), a.last());
            package_less_is_irreflexive(a.last());
        }
        assert(a.last() == b.last());
        let top = a.last();
        assert forall|x: PackageView| a.drop_last().to_set().contains(x)
            == b.drop_last().to_set().contains(x) by {
            lemma_drop_last_to_set(a, x);
            lemma_drop_last_to_set(b, x);
        }
        assert(a.drop_last().to_set() =~= b.drop_last().to_set());
        ascending_is_unique(a.drop_last(), b.drop_last());
        assert(a =~= a.drop_last().push(top));
        assert(b =~= b.drop_last().push(top));
    }
}

/// Without its last element, an ascending list holds all others.
proof fn lemma_drop_last_to_set(list: Seq<PackageView>, x: PackageView)
    requires
        ascending(list),
        list.len() > 0,
    ensures
        list.drop_last().to_set().contains(x) == (list.to_set().contains(x) && x != list.last()),
{
    let shorter = list.drop_last();
    if shorter.contains(x) {
        let k = choose|k: int| 0 <= k < shorter.len() && shorter[k] == x;
        assert(list[k] == x);
        package_less_is_irreflexive(x);
    }
    if list.contains(x) && x != list.last() {
        let k = choose|k: int| 0 <= k < list.len() && list[k] == x;
        assert(shorter[k] == x);
    }
}

/// Whether the release of a dependency comes before another release.
fn release_precedes(a: &Dependency, b: &PackageKey) -> (r: bool)
    ensures
        r == package_less(a@, b@),
{
    if a.name == b.name {
        proof {
            lex_less_is_irreflexive(code_points(a.name@));
        }
        text_precedes(a.version.as_str(), b.version.as_str())
    } else {
        text_precedes(a.name.as_str(), b.name.as_str())
    }
}

/// Whether a release is in the list.
pub(crate) fn contains_package(list: &Vec<PackageKey>, key: &PackageKey) -> (r: bool)
    ensures
        r == packages(list@).contains(key@),
{
    let mut i: usize = 0;
    while i < list.len()
        invariant
            i <= list.len(),
            forall|k: int| 0 <= k < i ==> packages(list@)[k] != key@,
        decreases list.len() - i,
    {
        if list[i].name == key.name && list[i].version == key.version {
            assert(packages(list@)[i as int] == key@);
            return true;
        }
        i = i + 1;
    }
    false
}

/// Put a release into an ascending list that does not hold it yet.
pub(crate) fn insert_dependency(list: &mut Vec<Dependency>, key: &PackageKey)
    requires
        ascending(found(old(list)@)),
        !found(old(list)@).contains(key@),
    ensures
        ascending(found(final(list)@)),
        found(final(list)@).to_set() == found(old(list)@).to_set().insert(key@),
{
    let ghost before = found(list@);
    let mut at: usize = 0;
    while at < list.len() && release_precedes(&list[at], key)
        invariant
            before == found(list@),
            at <= list.len(),
            forall|k: int| 0 <= k < at ==> package_less(#[trigger] before[k], key@),
        decreases list.len() - at,
    {
        at = at + 1;
    }
    proof {
        if at < list.len() {
            assert(before[at as int] == list[at as int]@);
            package_less_is_total(before[at as int], key@);
            assert(before.contains(before[at as int]));
            assert(package_less(key@, before[at as int]));
        }
    }
    list.insert(at, Dependency { name: key.name.clone(), version: key.version.clone() });
    proof {
        let after = found(list@);
        assert(after =~= before.insert(at as int, key@));
        assert forall|i: int, j: int| 0 <= i < j < after.len() implies package_less(
            after[i],
            after[j],
        ) by {
            if i == at {
                if j - 1 > at {
                    package_less_is_transitive(key@, before[at as int], before[j - 1]);
                }
            }
        }
        assert forall|x: PackageView| after.to_set().contains(x) == before.to_set().insert(
            key@,
        ).contains(x) by {
            if x == key@ {
                assert(after[at as int] == x);
            }
            if before.contains(x) {
                let k = choose|k: int| 0 <= k < before.len() && before[k] == x;
                if k < at {
                    assert(after[k] == x);
                } else {
                    assert(after[k + 1] == x);
                }
            }
            if after.contains(x) && x != key@ {
                let k = choose|k: int| 0 <= k < after.len() && after[k] == x;
                if k < at {
                    assert(before[k] == x);
                } else {
                    assert(before[k - 1] == x);
                }
            }
        }
        assert(after.to_set() =~= before.to_set().insert(key@));
    }
}

} // verus!
