use vstd::prelude::*;
use vstd::arithmetic::div_mod::{lemma_div_is_ordered, lemma_div_is_ordered_by_denominator};
use vstd::arithmetic::mul::lemma_mul_inequality;

use crate::bytes::{be_bytes_i64, be_u64, extend_bytes, i64_to_be_bytes, u64_from_be_bytes};
use crate::clock::unix_time_now;
use crate::message_hash::{blake2b, blake2b_512, blake2b_of};

verus! {

/// Work factor per byte of payload.
pub const NONCE_TRIALS_PER_BYTE: u64 = 1000;

/// Bytes added to every payload's length when its difficulty is computed.
pub const PAYLOAD_LENGTH_EXTRA_BYTES: u64 = 1000;

/// Divisor that scales the time to live's share of the difficulty.
pub const TIME_TO_LIVE_DENOMINATOR: u64 = 65536;

/// The difficulty denominator `1000 * (L + 1000 + ttl * (L + 1000) / 65536)`, as an
/// unbounded integer.
pub open spec fn target_denominator(payload_length: nat, time_to_live: nat) -> int {
    let padded = payload_length + 1000;
    (1000 * (padded + (time_to_live * padded) / 65536)) as int
}

/// Whether some intermediate of the difficulty computation leaves 64 bits.
pub open spec fn target_overflows(payload_length: nat, time_to_live: nat) -> bool {
    let padded = payload_length + 1000;
    padded > u64::MAX || time_to_live * padded > u64::MAX || padded + (time_to_live * padded)
        / 65536 > u64::MAX || target_denominator(payload_length, time_to_live) > u64::MAX
}

/// The largest acceptable proof-of-work value for a payload of `payload_length` bytes
/// that is to live `time_to_live` seconds: `(2^64 - 1) / denominator`, or zero (the
/// hardest target) where 64-bit arithmetic would overflow.
pub open spec fn expected_target(payload_length: nat, time_to_live: nat) -> u64 {
    if target_overflows(payload_length, time_to_live) {
        0
    } else {
        (u64::MAX as int / target_denominator(payload_length, time_to_live)) as u64
    }
}

/// The target for a payload of `payload_length` bytes that expires at `expiration_time`,
/// judged at `now`: none once the expiration time has been reached.
pub open spec fn target_at(payload_length: nat, expiration_time: i64, now: i64) -> Option<u64> {
    if now >= expiration_time {
        None
    } else {
        Some(expected_target(payload_length, (expiration_time - now) as nat))
    }
}

/// The proof-of-work value of `nonce` for a payload whose BLAKE2b-512 digest is
/// `payload_hash`: the 8-byte BLAKE2b of the digest followed by the nonce's
/// big-endian bytes, read as a big-endian integer.
pub open spec fn current_value(payload_hash: Seq<u8>, nonce: i64) -> u64 {
    be_u64(blake2b_of(8, payload_hash + be_bytes_i64(nonce)))
}

/// Whether `nonce` is a valid proof of work for `payload` expiring at
/// `expiration_time`, judged at `now`: the expiration time lies ahead, the target
/// computation does not overflow, and the value meets the target.
pub open spec fn pow_valid(payload: Seq<u8>, nonce: i64, expiration_time: i64, now: i64) -> bool {
    match target_at(payload.len(), expiration_time, now) {
        None => false,
        Some(target) => !target_overflows(payload.len(), (expiration_time - now) as nat)
            && current_value(blake2b_512(payload), nonce) <= target,
    }
}

/// Computes the target of a payload length and time to live with checked 64-bit
/// arithmetic; an overflow anywhere gives zero.
pub fn get_expected_target(payload_length: u64, time_to_live: u64) -> (r: u64)
    ensures
        r == expected_target(payload_length as nat, time_to_live as nat),
{
    let padded = match payload_length.checked_add(PAYLOAD_LENGTH_EXTRA_BYTES) {
        Some(v) => v,
        None => return 0,
    };
    let scaled = match time_to_live.checked_mul(padded) {
        Some(v) => v,
        None => {
            assert(time_to_live * padded > u64::MAX);
            return 0;
        },
    };
    let sum = match padded.checked_add(scaled / TIME_TO_LIVE_DENOMINATOR) {
        Some(v) => v,
        None => return 0,
    };
    let denominator = match NONCE_TRIALS_PER_BYTE.checked_mul(sum) {
        Some(v) => v,
        None => return 0,
    };
    u64::MAX / denominator
}

/// Computes the proof-of-work value of `nonce` for a payload digest.
pub fn get_current_target(payload_hash: &[u8], nonce: i64) -> (r: u64)
    ensures
        r == current_value(payload_hash@, nonce),
{
    let mut input: Vec<u8> = Vec::new();
    extend_bytes(&mut input, payload_hash);
    let nonce_bytes = i64_to_be_bytes(nonce);
    extend_bytes(&mut input, nonce_bytes.as_slice());
    let digest = blake2b(8, input.as_slice());
    u64_from_be_bytes(digest.as_slice())
}

/// Computes the target of a payload expiring at `expiration_time`, judged at `now`:
/// `None` once the expiration time has been reached.
pub fn expected_target_at(payload: &[u8], expiration_time: i64, now: i64) -> (r: Option<u64>)
    ensures
        r == target_at(payload@.len(), expiration_time, now),
{
    if now >= expiration_time {
        return None;
    }
    let time_to_live: u64 = (expiration_time as i128 - now as i128) as u64;
    Some(get_expected_target(payload.len() as u64, time_to_live))
}

/// Computes the target of a payload expiring at `expiration_time`, judged at the
/// current time: `None` once the expiration time has been reached.
pub fn get_expected_target2(payload: &[u8], expiration_time: i64) -> (r: Option<u64>)
    ensures
        exists|now: i64| r == target_at(payload@.len(), expiration_time, now),
{
    let now = unix_time_now();
    expected_target_at(payload, expiration_time, now)
}

/// Decides whether `nonce` is a valid proof of work for `payload` expiring at
/// `expiration_time`, judged at `now`.
pub fn verify_at(payload: &[u8], nonce: i64, expiration_time: i64, now: i64) -> (r: bool)
    ensures
        r == pow_valid(payload@, nonce, expiration_time, now),
        target_at(payload@.len(), expiration_time, now) matches Some(_) && target_overflows(
            payload@.len(),
            (expiration_time - now) as nat,
        ) ==> !r,
{
    let expected = match expected_target_at(payload, expiration_time, now) {
        Some(target) => target,
        None => return false,
    };
    proof {
        lemma_target_nonzero_unless_overflow(payload@.len(), (expiration_time - now) as nat);
    }
    if expected == 0 {
        return false;
    }
    let payload_hash = blake2b(64, payload);
    get_current_target(payload_hash.as_slice(), nonce) <= expected
}

/// A target computed without overflow is at least one, so zero marks an overflow.
proof fn lemma_target_nonzero_unless_overflow(payload_length: nat, time_to_live: nat)
    ensures
        (expected_target(payload_length, time_to_live) == 0) == target_overflows(payload_length, time_to_live),
{
    if !target_overflows(payload_length, time_to_live) {
        let d = target_denominator(payload_length, time_to_live);
        assert(1000 <= d <= u64::MAX);
        lemma_div_is_ordered_by_denominator(u64::MAX as int, d, u64::MAX as int);
    }
}

/// Decides whether `nonce` is a valid proof of work for `payload` expiring at
/// `expiration_time`, judged at the current time.
pub fn verify(payload: &[u8], nonce: i64, expiration_time: i64) -> (r: bool)
    ensures
        exists|now: i64| r == pow_valid(payload@, nonce, expiration_time, now),
{
    let now = unix_time_now();
    verify_at(payload, nonce, expiration_time, now)
}

/// Relies on `rand::random::<i64>`: a value drawn from the thread-local generator.
/// Nothing is promised of it.
#[verifier::external_body]
fn random_nonce() -> (r: i64) {
    rand::random::<i64>()
}

/// Whether `nonce` meets `target` for a payload digest.
pub fn nonce_meets_target(payload_hash: &[u8], nonce: i64, target: u64) -> (r: bool)
    ensures
        r == (current_value(payload_hash@, nonce) <= target),
{
    get_current_target(payload_hash, nonce) <= target
}

/// Draws up to `attempts` random nonces and returns the first that meets `target`
/// for a payload digest, or `None` when none of them did. A worker repeats this
/// until it succeeds or its search is cancelled.
pub fn search_nonce(payload_hash: &[u8], target: u64, attempts: u64) -> (r: Option<i64>)
    ensures
        r matches Some(nonce) ==> current_value(payload_hash@, nonce) <= target,
{
    let mut i: u64 = 0;
    while i < attempts
        invariant
            i <= attempts,
        decreases attempts - i,
    {
        let nonce = random_nonce();
        if nonce_meets_target(payload_hash, nonce, target) {
            return Some(nonce);
        }
        i = i + 1;
    }
    None
}

/// The digest that a proof-of-work search for `payload` works on.
pub fn payload_digest(payload: &[u8]) -> (r: Vec<u8>)
    ensures
        r@ == blake2b_512(payload@),
        r@.len() == 64,
{
    blake2b(64, payload)
}

/// A longer time to live never makes the target easier: the target is antitone in
/// the time to live.
pub proof fn lemma_target_antitone(payload_length: nat, ttl_short: nat, ttl_long: nat)
    requires
        ttl_short <= ttl_long,
    ensures
        expected_target(payload_length, ttl_long) <= expected_target(payload_length, ttl_short),
{
    let padded = payload_length + 1000;
    if !target_overflows(payload_length, ttl_long) {
        lemma_mul_inequality(ttl_short as int, ttl_long as int, padded as int);
        assert(ttl_short * padded <= ttl_long * padded);
        lemma_div_is_ordered((ttl_short * padded) as int, (ttl_long * padded) as int, 65536);
        let d_short = target_denominator(payload_length, ttl_short);
        let d_long = target_denominator(payload_length, ttl_long);
        assert(d_short <= d_long);
        assert(d_short >= 1000);
        lemma_div_is_ordered_by_denominator(u64::MAX as int, d_short, d_long);
        assert(!target_overflows(payload_length, ttl_short));
    }
}

/// A nonce found for the target of a payload computed at `proved_at` passes
/// verification at any later time `verified_at` before the expiration time, as long
/// as that target did not overflow.
pub proof fn lemma_pow_symmetry(
    payload: Seq<u8>,
    nonce: i64,
    expiration_time: i64,
    proved_at: i64,
    verified_at: i64,
)
    requires
        proved_at <= verified_at < expiration_time,
        !target_overflows(payload.len(), (expiration_time - proved_at) as nat),
        current_value(blake2b_512(payload), nonce) <= expected_target(
            payload.len(),
            (expiration_time - proved_at) as nat,
        ),
    ensures
        pow_valid(payload, nonce, expiration_time, verified_at),
{
    lemma_target_antitone(
        payload.len(),
        (expiration_time - verified_at) as nat,
        (expiration_time - proved_at) as nat,
    );
    lemma_target_nonzero_unless_overflow(payload.len(), (expiration_time - proved_at) as nat);
    lemma_target_nonzero_unless_overflow(payload.len(), (expiration_time - verified_at) as nat);
}

} // verus!
