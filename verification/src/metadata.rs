//! The metadata of a collection release.

use vstd::prelude::*;

use crate::package::{requirements, DependencyRequirement, RequirementView};
use crate::text::same_text;

verus! {

/// A JSON value, as far as the metadata of a release is read: what is neither
/// null, nor a string, nor an object is not told apart.
#[derive(Debug)]
pub enum JsonValue {
    Null,
    Text(String),
    /// The members of an object, in the order in which the object is walked.
    /// Of several members with one key, a lookup finds the first.
    Object(Vec<(String, JsonValue)>),
    Other,
}

/// Why the metadata of a release could not be read.
#[derive(Debug, Clone, Copy, PartialEq, Eq, Structural)]
pub enum MetadataError {
    /// The dependencies section is there and is no object.
    DependenciesNotObject,
    /// A requirement in the dependencies section is no string.
    RequirementNotString,
}

impl MetadataError {
    /// What the error says.
    pub open spec fn says(&self) -> Seq<char> {
        match self {
            MetadataError::DependenciesNotObject =>
                "Failed to parse collection dependencies section as object."@,
            MetadataError::RequirementNotString =>
                "Failed to parse collection dependency requirement as string."@,
        }
    }

    /// The error as text.
    pub fn message(&self) -> (r: String)
        ensures
            r@ == self.says(),
            match self {
                MetadataError::DependenciesNotObject => r@
                    == "Failed to parse collection dependencies section as object."@,
                MetadataError::RequirementNotString => r@
                    == "Failed to parse collection dependency requirement as string."@,
            },
    {
        match self {
            MetadataError::DependenciesNotObject =>
                "Failed to parse collection dependencies section as object.".to_owned(),
            MetadataError::RequirementNotString =>
                "Failed to parse collection dependency requirement as string.".to_owned(),
        }
    }
}

/// The value of the first member with a key.
pub open spec fn member_of(members: Seq<(String, JsonValue)>, key: Seq<char>) -> Option<JsonValue>
    decreases members.len(),
{
    if members.len() == 0 {
        None
    } else if members[0].0@ == key {
        Some(members[0].1)
    } else {
        member_of(members.drop_first(), key)
    }
}

/// The member of an object with a key; null if there is none or the value is no
/// object.
pub open spec fn json_member(value: JsonValue, key: Seq<char>) -> JsonValue {
    match value {
        JsonValue::Object(members) => match member_of(members@, key) {
            Some(member) => member,
            None => JsonValue::Null,
        },
        _ => JsonValue::Null,
    }
}

/// The dependencies section of a release's metadata.
pub open spec fn dependencies_section(entry: JsonValue) -> JsonValue {
    json_member(json_member(entry, "metadata"@), "dependencies"@)
}

/// Every member of the section is a string.
pub open spec fn all_strings(members: Seq<(String, JsonValue)>) -> bool {
    forall|i: int| 0 <= i < members.len() ==> (#[trigger] members[i]).1 is Text
}

/// The requirements that a section of strings declares, in its order.
pub open spec fn section_requirements(members: Seq<(String, JsonValue)>) -> Seq<RequirementView> {
    members.map_values(
        |member: (String, JsonValue)|
            RequirementView { name: member.0@, requirement: member.1->Text_0@ },
    )
}

/// The requirements that a release declares, or why they cannot be read.
pub open spec fn declared_requirements(entry: JsonValue) -> Result<
    Seq<RequirementView>,
    MetadataError,
> {
    match dependencies_section(entry) {
        JsonValue::Null => Ok(seq![]),
        JsonValue::Object(members) => if all_strings(members@) {
            Ok(section_requirements(members@))
        } else {
            Err(MetadataError::RequirementNotString)
        },
        _ => Err(MetadataError::DependenciesNotObject),
    }
}

impl JsonValue {
    /// The member of an object with a key, if the value is an object that has
    /// one.
    pub fn member(&self, key: &str) -> (r: Option<&JsonValue>)
        ensures
            match *self {
                JsonValue::Object(members) => match member_of(members@, key@) {
                    Some(member) => r matches Some(value) && *value == member,
                    None => r is None,
                },
                _ => r is None,
            },
    {
        match self {
            JsonValue::Object(members) => {
                let mut i: usize = 0;
                assert(members@.skip(0) =~= members@);
                while i < members.len()
                    invariant
                        *self == JsonValue::Object(*members),
                        i <= members.len(),
                        member_of(members@, key@) == member_of(members@.skip(i as int), key@),
                    decreases members.len() - i,
                {
                    assert(members@.skip(i as int).drop_first() =~= members@.skip(i + 1));
                    if same_text(members[i].0.as_str(), key) {
                        return Some(&members[i].1);
                    }
                    i = i + 1;
                }
                None
            },
            _ => None,
        }
    }
}

/// Read the dependencies that a release declares in its metadata.
pub fn dependency_requirements(entry: &JsonValue) -> (r: Result<
    Vec<DependencyRequirement>,
    MetadataError,
>)
    ensures
        match declared_requirements(*entry) {
            Ok(declared) => r matches Ok(list) && requirements(list@) == declared,
            Err(error) => r matches Err(e) && e == error,
        },
        match dependencies_section(*entry) {
            JsonValue::Null => r matches Ok(list) && list@.len() == 0,
            JsonValue::Object(members) => match r {
                Ok(list) => {
                    &&& list@.len() == members@.len()
                    &&& forall|i: int|
                        0 <= i < members@.len() ==> {
                            &&& (#[trigger] list@[i]).name@ == members@[i].0@
                            &&& members@[i].1 matches JsonValue::Text(text)
                                && list@[i].requirement@ == text@
                        }
                },
                Err(error) => {
                    &&& error == MetadataError::RequirementNotString
                    &&& exists|i: int|
                        0 <= i < members@.len() && !((#[trigger] members@[i]).1 is Text)
                },
            },
            _ => r matches Err(error) && error == MetadataError::DependenciesNotObject,
        },
{
    let metadata: &JsonValue = match entry.member("metadata") {
        Some(metadata) => metadata,
        None => return Ok(Vec::new()),
    };
    let section: &JsonValue = match metadata.member("dependencies") {
        Some(section) => section,
        None => return Ok(Vec::new()),
    };
    match section {
        JsonValue::Null => Ok(Vec::new()),
        JsonValue::Object(members) => {
            let mut dependencies: Vec<DependencyRequirement> = Vec::new();
            let mut i: usize = 0;
            while i < members.len()
                invariant
                    dependencies_section(*entry) == JsonValue::Object(*members),
                    i <= members.len(),
                    dependencies.len() == i,
                    forall|k: int| 0 <= k < i ==> (#[trigger] members[k]).1 is Text,
                    requirements(dependencies@) == section_requirements(members@).take(i as int),
                decreases members.len() - i,
            {
                let ghost before = requirements(dependencies@);
                match &members[i].1 {
                    JsonValue::Text(requirement) => {
                        dependencies.push(
                            DependencyRequirement {
                                name: members[i].0.clone(),
                                requirement: requirement.clone(),
                            },
                        );
                    },
                    _ => {
                        assert(!(members[i as int].1 is Text));
                        return Err(MetadataError::RequirementNotString);
                    },
                }
                assert(requirements(dependencies@) =~= before.push(
                    section_requirements(members@)[i as int],
                ));
                assert(section_requirements(members@).take(i + 1) =~= section_requirements(
                    members@,
                ).take(i as int).push(section_requirements(members@)[i as int]));
                i = i + 1;
            }
            assert(section_requirements(members@).take(i as int) =~= section_requirements(
                members@,
            ));
            assert forall|k: int| 0 <= k < members@.len() implies {
                &&& (#[trigger] dependencies@[k]).name@ == members@[k].0@
                &&& members@[k].1 matches JsonValue::Text(text) && dependencies@[k].requirement@
                    == text@
            } by {
                assert(requirements(dependencies@)[k] == section_requirements(members@)[k]);
                assert(members[k].1 is Text);
            }
            Ok(dependencies)
        },
        _ => Err(MetadataError::DependenciesNotObject),
    }
}

} // verus!
