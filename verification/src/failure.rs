//! Why the dependencies of a collection could not be resolved.

use vstd::prelude::*;

use crate::metadata::MetadataError;
use crate::package::RequirementView;
use crate::version::{VersionError, VersionFailure};

verus! {

/// Why a resolution failed. `E` is the error of the source that was asked.
#[derive(Debug)]
pub enum ResolveError<E> {
    /// The source did not answer.
    Source(E),
    /// A requirement could not be read, or no version could be chosen for the
    /// collection itself.
    Version(VersionError),
    /// The metadata of a release could not be read.
    Metadata(MetadataError),
    /// No listed version of a dependency meets the requirement.
    Unresolved { name: String, requirement: String, cause: VersionError },
}

/// A [`ResolveError`], with its texts as sequences of characters.
pub enum Failure<E> {
    Source(E),
    Version(VersionFailure),
    Metadata(MetadataError),
    Unresolved { required: RequirementView, cause: VersionFailure },
}

impl<E> View for ResolveError<E> {
    type V = Failure<E>;

    open spec fn view(&self) -> Failure<E> {
        match *self {
            ResolveError::Source(error) => Failure::Source(error),
            ResolveError::Version(error) => Failure::Version(error@),
            ResolveError::Metadata(error) => Failure::Metadata(error),
            ResolveError::Unresolved { name, requirement, cause } => Failure::Unresolved {
                required: RequirementView { name: name@, requirement: requirement@ },
                cause: cause@,
            },
        }
    }
}

impl<E> Failure<E> {
    /// What the failure says, unless it is the source that speaks.
    pub open spec fn says(self) -> Option<Seq<char>> {
        match self {
            Failure::Source(_) => None,
            Failure::Version(error) => Some(error.says()),
            Failure::Metadata(error) => Some(error.says()),
            Failure::Unresolved { required, .. } => Some(
                "Failed to resolve dependency "@ + required.name + " with requirement "@
                    + required.requirement + "."@,
            ),
        }
    }
}

impl<E> ResolveError<E> {
    /// The error as text; nothing where the error is the source's own.
    pub fn message(&self) -> (r: Option<String>)
        ensures
            match self@.says() {
                Some(text) => r matches Some(message) && message@ == text,
                None => r is None,
            },
            match self {
                ResolveError::Source(_) => r is None,
                ResolveError::Version(error) => r matches Some(message) && message@
                    == error@.says(),
                ResolveError::Metadata(error) => r matches Some(message) && message@
                    == error.says(),
                ResolveError::Unresolved { name, requirement, .. } => r matches Some(message)
                    && message@ == "Failed to resolve dependency "@ + name@
                    + " with requirement "@ + requirement@ + "."@,
            },
    {
        match self {
            ResolveError::Source(_) => None,
            ResolveError::Version(error) => Some(error.message()),
            ResolveError::Metadata(error) => Some(error.message()),
            ResolveError::Unresolved { name, requirement, .. } => {
                let mut message: String = "Failed to resolve dependency ".to_owned();
                message.append(name.as_str());
                message.append(" with requirement ");
                message.append(requirement.as_str());
                message.append(".");
                Some(message)
            },
        }
    }
}

} // verus!
