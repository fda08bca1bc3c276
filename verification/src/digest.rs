//! The SHA-256 digest that identifies the initial state of a state map, and the byte
//! stream it is computed over.
use sha2::Digest;
use vstd::prelude::*;

verus! {

/// The SHA-256 digest of `data`, as computed by the `sha2` crate.
pub uninterp spec fn sha256_digest(data: Seq<u8>) -> Seq<u8>;

/// Calls `sha2::Sha256::digest` on `data` and turns the 32-byte output into an array.
/// The contract claims only that the result is the SHA-256 digest of `data`, a value that
/// depends on `data` alone.
#[verifier::external_body]
pub(crate) fn sha256(data: &[u8]) -> (r: [u8; 32])
    ensures
        r@ == sha256_digest(data@),
{
    sha2::Sha256::digest(data).into()
}

/// The 8 big-endian bytes of `n`.
pub open spec fn be_u64(n: u64) -> Seq<u8> {
    seq![
        (n >> 56u64) as u8,
        (n >> 48u64) as u8,
        (n >> 40u64) as u8,
        (n >> 32u64) as u8,
        (n >> 24u64) as u8,
        (n >> 16u64) as u8,
        (n >> 8u64) as u8,
        n as u8,
    ]
}

/// What one key and its value add to the hashed stream: the key's length as 8 big-endian
/// bytes, the key, the value's length as 8 big-endian bytes, the value.
pub open spec fn hash_record(key: Seq<u8>, value: Seq<u8>) -> Seq<u8> {
    be_u64(key.len() as u64) + key + be_u64(value.len() as u64) + value
}

/// The stream hashed for the keys `keys`, in this order, with their values in `data`.
pub open spec fn hash_input(keys: Seq<Seq<u8>>, data: Map<Seq<u8>, Seq<u8>>) -> Seq<u8>
    decreases keys.len(),
{
    if keys.len() == 0 {
        Seq::empty()
    } else {
        hash_input(keys.drop_last(), data) + hash_record(keys.last(), data[keys.last()])
    }
}

/// Appends the 8 big-endian bytes of `n`.
pub(crate) fn push_be_u64(buf: &mut Vec<u8>, n: u64)
    ensures
        final(buf)@ == old(buf)@ + be_u64(n),
{
    buf.push((n >> 56u64) as u8);
    buf.push((n >> 48u64) as u8);
    buf.push((n >> 40u64) as u8);
    buf.push((n >> 32u64) as u8);
    buf.push((n >> 24u64) as u8);
    buf.push((n >> 16u64) as u8);
    buf.push((n >> 8u64) as u8);
    buf.push(n as u8);
    assert(buf@ =~= old(buf)@ + be_u64(n));
}

/// Appends the bytes of `b`.
pub(crate) fn push_bytes(buf: &mut Vec<u8>, b: &[u8])
    ensures
        final(buf)@ == old(buf)@ + b@,
{
    let mut i: usize = 0;
    while i < b.len()
        invariant
            i <= b@.len(),
            buf@ =~= old(buf)@ + b@.take(i as int),
        decreases b@.len() - i,
    {
        buf.push(b[i]);
        assert(b@.take(i + 1) =~= b@.take(i as int).push(b@[i as int]));
        i = i + 1;
    }
    assert(b@.take(b@.len() as int) =~= b@);
}

/// Appends the record of one key and its value.
pub(crate) fn push_record(buf: &mut Vec<u8>, key: &[u8], value: &[u8])
    ensures
        final(buf)@ == old(buf)@ + hash_record(key@, value@),
{
    push_be_u64(buf, key.len() as u64);
    push_bytes(buf, key);
    push_be_u64(buf, value.len() as u64);
    push_bytes(buf, value);
    assert(buf@ =~= old(buf)@ + hash_record(key@, value@));
}

} // verus!
