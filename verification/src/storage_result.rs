//! Error taxonomy of the storage engine.

use vstd::prelude::*;
use vstd::string::StringExecFns;

verus! {

/// What can go wrong while a command executes against the key space.
#[derive(Debug, PartialEq, Eq)]
pub enum StorageError {
    /// The request handed to the engine was not a command invocation.
    IncorrectRequest,
    /// No handler matches the command name; carries the name as sent.
    CommandNotAvailable(String),
    /// The option grammar of a command was violated; carries the offending
    /// arguments joined with single spaces.
    CommandSyntaxError(String),
    /// A handler-internal failure such as an arity violation; carries a
    /// short description.
    CommandInternalError(String),
}

/// The mathematical shape of a storage error.
pub enum StorageErrorData {
    IncorrectRequest,
    CommandNotAvailable(Seq<char>),
    CommandSyntaxError(Seq<char>),
    CommandInternalError(Seq<char>),
}

impl DeepView for StorageError {
    type V = StorageErrorData;

    open spec fn deep_view(&self) -> StorageErrorData {
        match self {
            StorageError::IncorrectRequest => StorageErrorData::IncorrectRequest,
            StorageError::CommandNotAvailable(c) => StorageErrorData::CommandNotAvailable(c@),
            StorageError::CommandSyntaxError(s) => StorageErrorData::CommandSyntaxError(s@),
            StorageError::CommandInternalError(s) => StorageErrorData::CommandInternalError(s@),
        }
    }
}

impl StorageError {
    /// A human-readable description of the error.
    pub fn message(&self) -> (r: String)
        ensures
            r@ == match self.deep_view() {
                StorageErrorData::IncorrectRequest => "The client sent an incorrect request!"@,
                StorageErrorData::CommandNotAvailable(c) => "The requested command "@ + c
                    + " is not available!"@,
                StorageErrorData::CommandSyntaxError(s) => "Syntax error in command arguments: "@
                    + s,
                StorageErrorData::CommandInternalError(s) => "Internal command error: "@ + s,
            },
    {
        match self {
            StorageError::IncorrectRequest => "The client sent an incorrect request!".to_owned(),
            StorageError::CommandNotAvailable(c) => "The requested command ".to_owned().concat(
                c.as_str(),
            ).concat(" is not available!"),
            StorageError::CommandSyntaxError(s) => "Syntax error in command arguments: "
                .to_owned().concat(s.as_str()),
            StorageError::CommandInternalError(s) => "Internal command error: ".to_owned().concat(
                s.as_str(),
            ),
        }
    }
}

/// The result of a storage operation.
pub type StorageResult<T> = Result<T, StorageError>;

} // verus!
