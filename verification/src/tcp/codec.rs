//! The binary encoding of diff entries, done by `bincode` with its standard configuration.
use vstd::prelude::*;

use crate::entries::{entries_view, EntryView};

verus! {

/// The `bincode` encoding (standard configuration) of a sequence of entries, or `None`
/// where encoding fails.
pub uninterp spec fn bincode_entries_encoding(entries: Seq<EntryView>) -> Option<Seq<u8>>;

/// The entries that `bincode` (standard configuration) decodes from the start of `bytes`,
/// or `None` where decoding fails.
pub uninterp spec fn bincode_entries_decoding(bytes: Seq<u8>) -> Option<Seq<EntryView>>;

/// Calls `bincode::serde::encode_to_vec` on the entries with `bincode::config::standard()`;
/// an error becomes its message. The contract claims that the outcome is a function of the
/// entries alone.
#[verifier::external_body]
pub(crate) fn encode_entries(entries: &Vec<(Vec<u8>, Vec<u8>)>) -> (r: Result<Vec<u8>, String>)
    ensures
        match r {
            Ok(b) => bincode_entries_encoding(entries_view(entries@)) == Some(b@),
            Err(_) => bincode_entries_encoding(entries_view(entries@)) is None,
        },
{
    match bincode::serde::encode_to_vec(entries, bincode::config::standard()) {
        Ok(b) => Ok(b),
        Err(e) => Err(e.to_string()),
    }
}

/// Calls `bincode::serde::decode_from_slice` for a `Vec<(Vec<u8>, Vec<u8>)>` with
/// `bincode::config::standard()`, keeping the value and dropping the count of bytes read;
/// an error becomes its message. The contract claims that the outcome is a function of the
/// bytes alone, and that bytes which `bincode` encoded from some entries decode back to
/// those entries (its round trip of an encoded value).
#[verifier::external_body]
pub(crate) fn decode_entries(bytes: &[u8]) -> (r: Result<Vec<(Vec<u8>, Vec<u8>)>, String>)
    ensures
        match r {
            Ok(v) => bincode_entries_decoding(bytes@) == Some(entries_view(v@)) && forall|
                es: Seq<EntryView>,
            |
                #[trigger] bincode_entries_encoding(es) == Some(bytes@) ==> entries_view(v@) == es,
            Err(_) => bincode_entries_decoding(bytes@) is None && forall|es: Seq<EntryView>|
                #[trigger] bincode_entries_encoding(es) != Some(bytes@),
        },
{
    match bincode::serde::decode_from_slice::<Vec<(Vec<u8>, Vec<u8>)>, _>(
        bytes,
        bincode::config::standard(),
    ) {
        Ok((v, _)) => Ok(v),
        Err(e) => Err(e.to_string()),
    }
}

} // verus!
