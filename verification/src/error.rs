//! The errors of the library.

use vstd::prelude::*;

verus! {

/// Why a command was given up.
#[derive(Clone, Copy, Debug, PartialEq, Eq, Structural)]
pub enum Error {
    /// A repository was not given as `owner/name`.
    InvalidRepoFormat,
    /// No identifier is left for a new row.
    StoreFull,
    /// A row names a repository that the store does not hold.
    UnknownRepository,
    /// A link names an issue or a label that the store does not hold.
    UnknownReference,
    /// A row with the same key is already stored.
    DuplicateKey,
    /// A row carries an identifier that is not greater than those in use.
    IdentifierInUse,
    /// The remote gave an update time that is not an RFC 3339 instant.
    MalformedTimestamp,
    /// A stored time lies outside the dates that can be written.
    TimeOutOfRange,
    /// A stored issue carries a state that is neither open nor closed.
    InvalidIssueState,
    /// A feed document could not be built from the stored values.
    UnbuildableFeed,
}

impl Error {
    /// What is said of the error where a command is given up.
    pub open spec fn text(self) -> Seq<char> {
        match self {
            Error::InvalidRepoFormat => "invalid repo format, expected owner/name"@,
            Error::StoreFull => "no identifier is left in the store"@,
            Error::UnknownRepository => "a row names a repository that is not stored"@,
            Error::UnknownReference => "a link names an issue or a label that is not stored"@,
            Error::DuplicateKey => "a row with the same key is already stored"@,
            Error::IdentifierInUse => "a row carries an identifier that is in use"@,
            Error::MalformedTimestamp => "failed to parse datetime"@,
            Error::TimeOutOfRange => "a stored time cannot be written as a date"@,
            Error::InvalidIssueState => "Inconsistent database, invalid issue state"@,
            Error::UnbuildableFeed => "Failed to build feed"@,
        }
    }

    /// What is said of the error where a command is given up.
    pub fn message(&self) -> (text: String)
        ensures
            text@ == self.text(),
    {
        match self {
            Error::InvalidRepoFormat => "invalid repo format, expected owner/name".to_owned(),
            Error::StoreFull => "no identifier is left in the store".to_owned(),
            Error::UnknownRepository => "a row names a repository that is not stored".to_owned(),
            Error::UnknownReference => "a link names an issue or a label that is not stored".to_owned(),
            Error::DuplicateKey => "a row with the same key is already stored".to_owned(),
            Error::IdentifierInUse => "a row carries an identifier that is in use".to_owned(),
            Error::MalformedTimestamp => "failed to parse datetime".to_owned(),
            Error::TimeOutOfRange => "a stored time cannot be written as a date".to_owned(),
            Error::InvalidIssueState => "Inconsistent database, invalid issue state".to_owned(),
            Error::UnbuildableFeed => "Failed to build feed".to_owned(),
        }
    }
}

} // verus!
