//! An in-memory key-value store speaking the RESP wire protocol.
//!
//! The crate is organised as the protocol stack is: `resp` holds the wire
//! codec (a cursor-based parser and a serializer, proved inverse to each
//! other), `set` the option grammar of the SET command, `storage` the key
//! space and the command handlers with their expiry sweep, and `server`
//! the request dispatcher that owns the storage. `text` holds the shared
//! model of ASCII case folding and decimal integer text.

pub mod connection;
pub mod resp;
pub mod resp_result;
pub mod server;
pub mod server_result;
pub mod set;
pub mod storage;
pub mod storage_result;
pub mod text;
