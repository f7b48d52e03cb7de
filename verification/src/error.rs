//! The library's error type.
use vstd::prelude::*;

verus! {

/// `std::io::Error`, carried through unchanged.
#[verifier::external_type_specification]
#[verifier::external_body]
pub struct ExIoError(std::io::Error);

/// `rusqlite::Error`, carried through unchanged.
#[verifier::external_type_specification]
#[verifier::external_body]
pub struct ExSqliteError(rusqlite::Error);

/// What can go wrong in the registry and the commands built on it.
#[derive(Debug)]
pub enum GitregError {
    /// The configuration directory could not be determined.
    NoConfigDir,
    /// A path given by the user does not exist.
    PathNotFound(String),
    /// The database reported an error.
    Database(rusqlite::Error),
    /// An input/output error.
    Io(std::io::Error),
    /// The shell integration is already present in this file.
    AlreadyInitialized(String),
    /// A network request failed.
    Network(String),
    /// The self-upgrade failed.
    Upgrade(String),
    /// The path of the running executable could not be resolved.
    ExePath(std::io::Error),
    /// No repository matches the given target.
    NotFound(String),
    /// A value does not have the expected form.
    InvalidFormat(String),
}

} // verus!
