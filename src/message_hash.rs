use vstd::prelude::*;

use crate::bytes::{be_bytes_i64, extend_bytes, i64_to_be_bytes};

verus! {

/// The unkeyed BLAKE2b digest of `input` with `out_len` bytes of output.
pub uninterp spec fn blake2b_of(out_len: nat, input: Seq<u8>) -> Seq<u8>;

/// Relies on `crypto::blake2b::Blake2b::blake2b`: with an empty key it writes the
/// unkeyed digest of `input`, as long as the output buffer (1 to 64 bytes).
#[verifier::external_body]
pub(crate) fn blake2b(out_len: usize, input: &[u8]) -> (r: Vec<u8>)
    requires
        1 <= out_len <= 64,
    ensures
        r@ == blake2b_of(out_len as nat, input@),
        r@.len() == out_len,
{
    let mut out = vec![0u8; out_len];
    crypto::blake2b::Blake2b::blake2b(&mut out, input, &[]);
    out
}

/// BLAKE2b-512 of `input`.
pub open spec fn blake2b_512(input: Seq<u8>) -> Seq<u8> {
    blake2b_of(64, input)
}

/// The content hash of a message: BLAKE2b-512 over the BLAKE2b-512 of the payload
/// followed by the BLAKE2b-512 of the expiration time's eight big-endian bytes.
pub open spec fn content_hash(payload: Seq<u8>, expiration_time: i64) -> Seq<u8> {
    blake2b_512(blake2b_512(payload) + blake2b_512(be_bytes_i64(expiration_time)))
}

/// Computes the content hash of a message from its payload and expiration time.
/// The nonce takes no part in it.
pub fn message_hash(payload: &[u8], expiration_time: i64) -> (r: Vec<u8>)
    ensures
        r@ == content_hash(payload@, expiration_time),
        r@.len() == 64,
{
    let payload_digest = blake2b(64, payload);
    let time_bytes = i64_to_be_bytes(expiration_time);
    let time_digest = blake2b(64, time_bytes.as_slice());
    let mut joined: Vec<u8> = Vec::new();
    extend_bytes(&mut joined, payload_digest.as_slice());
    extend_bytes(&mut joined, time_digest.as_slice());
    assert(joined@ =~= blake2b_512(payload@) + blake2b_512(be_bytes_i64(expiration_time)));
    blake2b(64, joined.as_slice())
}

/// The content hash depends on the payload and the expiration time alone: two
/// computations over equal inputs give equal bytes.
pub proof fn lemma_hash_deterministic(payload_a: Seq<u8>, time_a: i64, payload_b: Seq<u8>, time_b: i64)
    requires
        payload_a == payload_b,
        time_a == time_b,
    ensures
        content_hash(payload_a, time_a) == content_hash(payload_b, time_b),
{
}

} // verus!
