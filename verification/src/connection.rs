//! What a connection handler exchanges with the dispatcher.

use crate::resp::RESP;
use crate::server_result::ServerError;
use vstd::prelude::*;
use vstd::string::StringExecFns;

verus! {

/// What can go wrong on a connection, as reported back to its peer.
#[derive(Debug, PartialEq, Eq, Structural, Clone, Copy)]
pub enum ConnectionError {
    ServerError(ServerError),
}

impl ConnectionError {
    /// A human-readable description of the error.
    pub fn message(&self) -> (r: String)
        ensures
            r@ == match *self {
                ConnectionError::ServerError(e) => "Server error: "@ + match e {
                    ServerError::CommandError => "Error while processing!"@,
                    ServerError::IncorrectData => "Data received from stream is incorrect."@,
                    ServerError::StorageNotInitialised => "Storage has not been initialised."@,
                },
            },
    {
        match self {
            ConnectionError::ServerError(e) => "Server error: ".to_owned().concat(
                e.message().as_str(),
            ),
        }
    }
}

/// What a connection handler submits to the dispatch loop: the protocol
/// value of one request.
#[derive(Debug)]
pub enum ConnectionMessage {
    Request(RESP),
}

} // verus!
