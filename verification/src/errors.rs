//! Error values returned while reading an image reference.

use vstd::prelude::*;

verus! {

/// Why a piece of text was not accepted as an image reference or version.
#[derive(Clone, Copy, Debug, PartialEq, Eq, Structural)]
pub enum ReferenceError {
    /// No path segment is left once empty segments are discarded.
    MissingImageName,
    /// The final segment holds a version and nothing in front of it.
    EmptyImageName,
    /// The repository path is empty.
    EmptyRepositoryName,
    /// The repository path is longer than 127 bytes.
    RepositoryNameTooLong,
    /// A digest lacks the `:` between algorithm and hex value.
    WrongDigestFormat,
    /// A version starts with neither `:` nor `@`.
    UnknownVersionPrefix,
    /// A version is the empty text.
    VersionTooShort,
    /// The regex engine did not accept the path-component pattern.
    Pattern,
}

impl ReferenceError {
    /// The message that goes with the error.
    pub open spec fn text(self) -> Seq<char> {
        match self {
            ReferenceError::MissingImageName => "missing image name"@,
            ReferenceError::EmptyImageName => "empty image name"@,
            ReferenceError::EmptyRepositoryName => "empty repository name"@,
            ReferenceError::RepositoryNameTooLong => "repository name too long"@,
            ReferenceError::WrongDigestFormat => "wrong digest format"@,
            ReferenceError::UnknownVersionPrefix => "unknown version prefix"@,
            ReferenceError::VersionTooShort => "too short"@,
            ReferenceError::Pattern => "path component pattern refused"@,
        }
    }

    /// The message that goes with the error.
    pub fn message(&self) -> (r: &'static str)
        ensures
            r@ == self.text(),
    {
        match self {
            ReferenceError::MissingImageName => "missing image name",
            ReferenceError::EmptyImageName => "empty image name",
            ReferenceError::EmptyRepositoryName => "empty repository name",
            ReferenceError::RepositoryNameTooLong => "repository name too long",
            ReferenceError::WrongDigestFormat => "wrong digest format",
            ReferenceError::UnknownVersionPrefix => "unknown version prefix",
            ReferenceError::VersionTooShort => "too short",
            ReferenceError::Pattern => "path component pattern refused",
        }
    }
}

} // verus!
