//! The decisions of a remote that talks to a state server: the requests it sends and how
//! it reads the answers.
use vstd::prelude::*;

use crate::diff::{Diff, DiffView};
use crate::entries::{entries_to_map, entries_view, keys_distinct, EntryView};
use crate::statemap::StateMap;
use crate::tcp::codec::{
    bincode_entries_decoding, bincode_entries_encoding, decode_entries, encode_entries,
};
use crate::tcp::{TcpStateServerRequest, TcpStateServerResponse};

verus! {

/// Why an answer of the server was refused.
#[derive(Debug)]
pub enum ReplyError {
    /// The entries of a diff could not be decoded.
    Decode(String),
    /// The server answered something else than was expected.
    Unexpected(TcpStateServerResponse),
}

/// What the answer to an update id probe says of the map.
#[derive(Debug)]
pub enum ProbeOutcome {
    /// The server hosts the map.
    Hosted,
    /// The server does not host the map, which must then be initialised there.
    NeedsInit,
}

/// Reads the answer to an update id probe: an update id means the map is hosted,
/// `HashNotFound` that it must be initialised, and any other answer (such as
/// `IncorrectPassword`) is refused, since the map is then not known to be hosted.
pub fn read_probe(resp: TcpStateServerResponse) -> (r: Result<ProbeOutcome, ReplyError>)
    ensures
        resp is UpdateId ==> r matches Ok(ProbeOutcome::Hosted),
        resp is HashNotFound ==> r matches Ok(ProbeOutcome::NeedsInit),
        !(resp is UpdateId) && !(resp is HashNotFound) ==> (r matches Err(
            ReplyError::Unexpected(x),
        ) && x == resp),
{
    match resp {
        TcpStateServerResponse::UpdateId { .. } => Ok(ProbeOutcome::Hosted),
        TcpStateServerResponse::HashNotFound => Ok(ProbeOutcome::NeedsInit),
        other => Err(ReplyError::Unexpected(other)),
    }
}

/// The request that asks the server to host the frozen `statemap`: its digest, and the
/// encoding of its entries, each key once.
pub fn init_request<R>(statemap: &StateMap<R>) -> (r: Result<TcpStateServerRequest, String>)
    requires
        statemap@.hash is Some,
    ensures
        exists|es: Seq<EntryView>|
            {
                &&& keys_distinct(es)
                &&& entries_to_map(es) == statemap@.data
                &&& match r {
                    Ok(TcpStateServerRequest::Init { hash, init_data }) => Some(hash@)
                        == statemap@.hash && bincode_entries_encoding(es) == Some(init_data@),
                    Ok(_) => false,
                    Err(_) => bincode_entries_encoding(es) is None,
                }
            },
{
    let entries = statemap.entries();
    let ghost es = entries_view(entries@);
    let hash = match statemap.hash() {
        Some(h) => *h,
        None => [0u8; 32],
    };
    let r = match encode_entries(entries) {
        Ok(init_data) => Ok(TcpStateServerRequest::Init { hash, init_data }),
        Err(e) => Err(e),
    };
    assert(keys_distinct(es) && entries_to_map(es) == statemap@.data);
    r
}

/// Accepts the answer to an initialisation request when it is a success.
pub fn confirm_init(resp: TcpStateServerResponse) -> (r: Result<(), ReplyError>)
    ensures
        resp is InitSuccess ==> r is Ok,
        !(resp is InitSuccess) ==> (r matches Err(ReplyError::Unexpected(x)) && x == resp),
{
    match resp {
        TcpStateServerResponse::InitSuccess => Ok(()),
        other => Err(ReplyError::Unexpected(other)),
    }
}

/// Accepts the answer to an event when the server says it is processing it.
pub fn confirm_event(resp: TcpStateServerResponse) -> (r: Result<(), ReplyError>)
    ensures
        resp is EventInProcess ==> r is Ok,
        !(resp is EventInProcess) ==> (r matches Err(ReplyError::Unexpected(x)) && x == resp),
{
    match resp {
        TcpStateServerResponse::EventInProcess => Ok(()),
        other => Err(ReplyError::Unexpected(other)),
    }
}

/// Reads the diff in the answer to a diff request: its entries are decoded, and its update
/// ids and fullness taken as the server gives them. Entries that were encoded by the
/// server are read back as they were.
pub fn diff_from_response(resp: TcpStateServerResponse) -> (r: Result<Diff, ReplyError>)
    ensures
        match resp {
            TcpStateServerResponse::Diff { from_update_id, upto_update_id, is_full, encoded_diff } => {
                match bincode_entries_decoding(encoded_diff@) {
                    Some(es) => r matches Ok(d) && d@ == (DiffView {
                        entries: es,
                        is_full,
                        from_update_id,
                        upto_update_id,
                    }),
                    None => r matches Err(ReplyError::Decode(_)),
                }
            },
            _ => r matches Err(ReplyError::Unexpected(x)) && x == resp,
        },
        forall|es: Seq<EntryView>|
            resp matches TcpStateServerResponse::Diff {
                from_update_id,
                upto_update_id,
                is_full,
                encoded_diff,
            } ==> (#[trigger] bincode_entries_encoding(es) == Some(encoded_diff@) ==> (r matches Ok(d)
                && d@ == (DiffView { entries: es, is_full, from_update_id, upto_update_id }))),
{
    match resp {
        TcpStateServerResponse::Diff { from_update_id, upto_update_id, is_full, encoded_diff } => {
            match decode_entries(encoded_diff.as_slice()) {
                Ok(entries) => Ok(Diff::new(entries, is_full, from_update_id, upto_update_id)),
                Err(e) => Err(ReplyError::Decode(e)),
            }
        },
        other => Err(ReplyError::Unexpected(other)),
    }
}

} // verus!
