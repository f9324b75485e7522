//! Errors of the indexing pipeline.

use vstd::prelude::*;

verus! {

/// Why a descriptor, one of its sections, or a command string was rejected.
#[derive(Clone, Copy, Debug, PartialEq, Eq, Structural)]
pub enum EntryError {
    /// A command string held no extractable program token.
    MalformedExec,
    /// A section supplied no display name.
    MissingName,
    /// A section supplied no command string.
    MissingExec,
    /// The primary section appeared twice.
    PrimaryDefinedTwice,
    /// No primary section was found.
    PrimaryNotFound,
    /// The descriptor text does not parse as sections at all.
    Format,
}

impl EntryError {
    /// A short human-readable description of the error.
    pub fn message(&self) -> (m: &'static str)
        ensures
            m@ == self.spec_message(),
    {
        match self {
            EntryError::MalformedExec => "Command not found",
            EntryError::MissingName => "Name not found",
            EntryError::MissingExec => "Exec not found",
            EntryError::PrimaryDefinedTwice => "Section 'Desktop Entry' defined twice",
            EntryError::PrimaryNotFound => "Section 'Desktop Entry' not found",
            EntryError::Format => "Failed to parse desktop file",
        }
    }

    /// The description returned by [`EntryError::message`].
    pub open spec fn spec_message(self) -> Seq<char> {
        match self {
            EntryError::MalformedExec => "Command not found"@,
            EntryError::MissingName => "Name not found"@,
            EntryError::MissingExec => "Exec not found"@,
            EntryError::PrimaryDefinedTwice => "Section 'Desktop Entry' defined twice"@,
            EntryError::PrimaryNotFound => "Section 'Desktop Entry' not found"@,
            EntryError::Format => "Failed to parse desktop file"@,
        }
    }
}

} // verus!
