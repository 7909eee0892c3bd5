//! What a Galaxy source has answered so far.

use vstd::prelude::*;

use crate::metadata::JsonValue;
use crate::package::{PackageKey, PackageView};
use crate::text::same_text;
use crate::version::texts;

verus! {

/// What is known of Galaxy: the metadata of releases and the versions of
/// collections.
pub struct GalaxyData {
    pub entries: Map<PackageView, JsonValue>,
    pub versions: Map<Seq<char>, Seq<Seq<char>>>,
}

impl GalaxyData {
    /// Nothing is known.
    pub open spec fn nothing() -> GalaxyData {
        GalaxyData { entries: Map::empty(), versions: Map::empty() }
    }

    /// The metadata of a release are learnt.
    pub open spec fn with_entry(self, package: PackageView, entry: JsonValue) -> GalaxyData {
        GalaxyData { entries: self.entries.insert(package, entry), ..self }
    }

    /// The versions of a collection are learnt.
    pub open spec fn with_versions(self, name: Seq<char>, versions: Seq<Seq<char>>) -> GalaxyData {
        GalaxyData { versions: self.versions.insert(name, versions), ..self }
    }

    /// What is known here is known there, with the same values.
    pub open spec fn part_of(self, other: GalaxyData) -> bool {
        self.entries.submap_of(other.entries) && self.versions.submap_of(other.versions)
    }
}

/// The answers of a Galaxy source, kept so that nothing is asked twice.
pub struct CachedGalaxySource {
    entries: Vec<(PackageKey, JsonValue)>,
    versions: Vec<(String, Vec<String>)>,
}

/// The entries of a list as a map; a later one takes the place of an earlier
/// one for the same release.
spec fn entry_map(list: Seq<(PackageKey, JsonValue)>) -> Map<PackageView, JsonValue>
    decreases list.len(),
{
    if list.len() == 0 {
        Map::empty()
    } else {
        entry_map(list.drop_last()).insert(list.last().0@, list.last().1)
    }
}

/// The version lists as a map; a later one takes the place of an earlier one
/// for the same collection.
spec fn version_map(list: Seq<(String, Vec<String>)>) -> Map<Seq<char>, Seq<Seq<char>>>
    decreases list.len(),
{
    if list.len() == 0 {
        Map::empty()
    } else {
        version_map(list.drop_last()).insert(list.last().0@, texts(list.last().1@))
    }
}

proof fn lemma_entry_map_finite(list: Seq<(PackageKey, JsonValue)>)
    ensures
        entry_map(list).dom().finite(),
    decreases list.len(),
{
    if list.len() > 0 {
        lemma_entry_map_finite(list.drop_last());
    }
}

impl View for CachedGalaxySource {
    type V = GalaxyData;

    closed spec fn view(&self) -> GalaxyData {
        GalaxyData { entries: entry_map(self.entries@), versions: version_map(self.versions@) }
    }
}

/// A source has answered only so many questions.
pub proof fn lemma_known_entries_finite(cache: CachedGalaxySource)
    ensures
        cache@.entries.dom().finite(),
{
    lemma_entry_map_finite(cache.entries@);
}

impl CachedGalaxySource {
    /// A source that has not been asked yet.
    pub fn new() -> (r: CachedGalaxySource)
        ensures
            r@ == GalaxyData::nothing(),
    {
        CachedGalaxySource { entries: Vec::new(), versions: Vec::new() }
    }

    /// The metadata of a release, if the source has given them.
    pub fn package_entry(&self, package: &PackageKey) -> (r: Option<&JsonValue>)
        ensures
            match r {
                Some(entry) => self@.entries.contains_key(package@) && *entry
                    == self@.entries[package@],
                None => !self@.entries.contains_key(package@),
            },
    {
        let mut i: usize = self.entries.len();
        assert(self.entries@.take(i as int) =~= self.entries@);
        while i > 0
            invariant
                i <= self.entries.len(),
                entry_map(self.entries@).contains_key(package@) == entry_map(
                    self.entries@.take(i as int),
                ).contains_key(package@),
                entry_map(self.entries@).contains_key(package@) ==> entry_map(
                    self.entries@,
                )[package@] == entry_map(self.entries@.take(i as int))[package@],
            decreases i,
        {
            let ghost list = self.entries@.take(i as int);
            assert(list.drop_last() =~= self.entries@.take(i - 1));
            assert(list.last() == self.entries[i - 1]);
            i = i - 1;
            if self.entries[i].0.name == package.name && self.entries[i].0.version
                == package.version {
                return Some(&self.entries[i].1);
            }
        }
        None
    }

    /// The versions of a collection, if the source has listed them.
    pub fn package_versions(&self, package_name: &str) -> (r: Option<&Vec<String>>)
        ensures
            match r {
                Some(versions) => self@.versions.contains_key(package_name@) && texts(versions@)
                    == self@.versions[package_name@],
                None => !self@.versions.contains_key(package_name@),
            },
    {
        let mut i: usize = self.versions.len();
        assert(self.versions@.take(i as int) =~= self.versions@);
        while i > 0
            invariant
                i <= self.versions.len(),
                version_map(self.versions@).contains_key(package_name@) == version_map(
                    self.versions@.take(i as int),
                ).contains_key(package_name@),
                version_map(self.versions@).contains_key(package_name@) ==> version_map(
                    self.versions@,
                )[package_name@] == version_map(self.versions@.take(i as int))[package_name@],
            decreases i,
        {
            let ghost list = self.versions@.take(i as int);
            assert(list.drop_last() =~= self.versions@.take(i - 1));
            assert(list.last() == self.versions[i - 1]);
            i = i - 1;
            if same_text(self.versions[i].0.as_str(), package_name) {
                return Some(&self.versions[i].1);
            }
        }
        None
    }

    /// Keep the metadata that the source gave for a release.
    pub fn keep_entry(&mut self, package: PackageKey, entry: JsonValue)
        ensures
            final(self)@ == old(self)@.with_entry(package@, entry),
    {
        let ghost before = self.entries@;
        self.entries.push((package, entry));
        assert(self.entries@.drop_last() =~= before);
    }

    /// Keep the versions that the source listed for a collection.
    pub fn keep_versions(&mut self, package_name: String, versions: Vec<String>)
        ensures
            final(self)@ == old(self)@.with_versions(package_name@, texts(versions@)),
    {
        let ghost before = self.versions@;
        self.versions.push((package_name, versions));
        assert(self.versions@.drop_last() =~= before);
    }
}

} // verus!
