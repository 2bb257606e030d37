//! Replies and errors of the request dispatcher.

use crate::resp::RESP;
use vstd::prelude::*;
use vstd::string::StringExecFns;

verus! {

/// What can go wrong between a parsed request and the storage engine.
#[derive(Debug, PartialEq, Eq, Structural, Clone, Copy)]
pub enum ServerError {
    /// The storage engine refused the command.
    CommandError,
    /// The request was not an array of bulk strings.
    IncorrectData,
    /// The server was built without a storage engine.
    StorageNotInitialised,
}

impl ServerError {
    /// A human-readable description of the error.
    pub fn message(&self) -> (r: String)
        ensures
            r@ == match *self {
                ServerError::CommandError => "Error while processing!"@,
                ServerError::IncorrectData => "Data received from stream is incorrect."@,
                ServerError::StorageNotInitialised => "Storage has not been initialised."@,
            },
    {
        match self {
            ServerError::CommandError => "Error while processing!".to_owned(),
            ServerError::IncorrectData => "Data received from stream is incorrect.".to_owned(),
            ServerError::StorageNotInitialised => "Storage has not been initialised.".to_owned(),
        }
    }
}

/// A successful reply: a protocol value to serialize back to the client.
#[derive(Debug)]
pub enum ServerValue {
    RESP(RESP),
}

/// The result of processing one request.
pub type ServerResult = Result<ServerValue, ServerError>;

/// What the dispatcher sends back on a reply channel.
#[derive(Debug)]
pub enum ServerMessage {
    Data(ServerValue),
    Error(ServerError),
}

} // verus!
