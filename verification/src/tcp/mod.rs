//! The messages of the TCP master-replica protocol, and the decisions of its server and
//! remote. Transport (TLS sockets, threads, framing) is left to the caller.
use vstd::prelude::*;

pub mod codec;
pub mod remote;
pub mod server;

verus! {

/// The requests sent to a state server. Every `hash` identifies a
/// [`crate::StateMap`]: it is the digest [`crate::StateMap::hash`] gives once frozen.
#[derive(Debug)]
pub enum TcpStateServerRequest {
    /// Asks for the current update id.
    GetUpdateId { hash: [u8; 32] },
    /// Carries a serialised event.
    Event { hash: [u8; 32], evt_data: Vec<u8> },
    /// Asks for a diff between two update ids.
    GetDiff { hash: [u8; 32], from_update_id: u64, upto_update_id: u64 },
    /// Carries the encoded initial entries of a state map, for the server to host it.
    Init { hash: [u8; 32], init_data: Vec<u8> },
}

/// A request with the pre-shared password that authenticates it.
#[derive(Debug)]
pub struct TcpStateServerRequestWrapper {
    pub password: Vec<u8>,
    pub event: TcpStateServerRequest,
}

/// The responses of a state server.
#[derive(Debug)]
pub enum TcpStateServerResponse {
    IncorrectPassword,
    UpdateId { update_id: u64 },
    HashNotFound,
    EventInProcess,
    InitSuccess,
    HashMismatch,
    /// A diff; `encoded_diff` is the encoding of its entries.
    Diff { from_update_id: u64, upto_update_id: u64, is_full: bool, encoded_diff: Vec<u8> },
    InitFailure { error_message: String },
}

} // verus!
