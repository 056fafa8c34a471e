//! The randomness oracle's computation: a round's number is the first four
//! bytes of the HMAC-SHA-256 of the round identifier under a secret key,
//! packaged as a canonical payload and signed. A request for a round whose
//! time has not yet arrived is refused, so no future outcome can leak.

use crate::crypto::{
    ecdsa_key_valid, ecdsa_sig_of, ecdsa_sign, ecdsa_sign_some, hex_chars, hex_encode,
    hmac_sha256, hmac_sha256_of,
};
use crate::draw::{encode_payload, payload_bytes, Draw, RngResult};
use crate::time_bucket::round_end_seconds;
use vstd::prelude::*;

verus! {

/// The big-endian byte encoding of a round identifier, as fed to the HMAC.
pub open spec fn u64_be_bytes(t: u64) -> Seq<u8> {
    seq![
        (t as int / 0x100000000000000 % 256) as u8,
        (t as int / 0x1000000000000 % 256) as u8,
        (t as int / 0x10000000000 % 256) as u8,
        (t as int / 0x100000000 % 256) as u8,
        (t as int / 0x1000000 % 256) as u8,
        (t as int / 0x10000 % 256) as u8,
        (t as int / 0x100 % 256) as u8,
        (t as int % 256) as u8,
    ]
}

/// Encodes a round identifier as eight big-endian bytes.
pub fn encode_u64_be(t: u64) -> (r: Vec<u8>)
    ensures
        r@ == u64_be_bytes(t),
{
    let mut out: Vec<u8> = Vec::new();
    out.push((t / 0x100000000000000 % 256) as u8);
    out.push((t / 0x1000000000000 % 256) as u8);
    out.push((t / 0x10000000000 % 256) as u8);
    out.push((t / 0x100000000 % 256) as u8);
    out.push((t / 0x1000000 % 256) as u8);
    out.push((t / 0x10000 % 256) as u8);
    out.push((t / 0x100 % 256) as u8);
    out.push((t % 256) as u8);
    assert(out@ =~= u64_be_bytes(t));
    out
}

/// The big-endian 32-bit value of the first four bytes of a digest.
pub open spec fn u32_be_of(b: Seq<u8>) -> int
    recommends
        b.len() >= 4,
{
    b[0] * 0x1000000 + b[1] * 0x10000 + b[2] * 0x100 + b[3]
}

/// Reads the first four bytes of a digest as one big-endian number.
pub fn number_from_digest(d: &Vec<u8>) -> (r: u32)
    requires
        d@.len() >= 4,
    ensures
        r as int == u32_be_of(d@),
{
    (d[0] as u32) * 0x1000000 + (d[1] as u32) * 0x10000 + (d[2] as u32) * 0x100 + (d[3] as u32)
}

/// The number the oracle draws for a round under an HMAC key: a function
/// of the key and the round alone.
pub open spec fn oracle_number_of(hmac_key: Seq<u8>, timestamp: u64) -> int {
    u32_be_of(hmac_sha256_of(hmac_key, u64_be_bytes(timestamp)))
}

/// Whether a request for a round may be served at `now_seconds`: only
/// rounds whose minute has arrived.
pub open spec fn request_allowed(timestamp: u64, now_seconds: u64) -> bool {
    timestamp <= now_seconds as int / 60
}

/// Errors of the oracle's number generation.
#[derive(Debug, Clone, Copy, PartialEq, Eq, Structural)]
pub enum OracleError {
    /// The requested round's time has not arrived: refused, so that no
    /// future outcome can be learned early.
    FutureRound,
    /// The signing key was rejected, or signing the payload hit RFC
    /// 6979's degenerate case.
    KeyRejected,
}

/// Produces the signed number for a round, as served at `now_seconds`: the
/// anti-precognition guard, then the HMAC-derived number, the canonical
/// payload, and its signature.
pub fn generate_signed_number(
    hmac_key: &Vec<u8>,
    signing_key: &Vec<u8>,
    timestamp: u64,
    now_seconds: u64,
) -> (r: Result<Draw, OracleError>)
    ensures
        !request_allowed(timestamp, now_seconds) <==> r == Err::<Draw, OracleError>(
            OracleError::FutureRound,
        ),
        r is Err ==> r == Err::<Draw, OracleError>(OracleError::FutureRound) || r == Err::<
            Draw,
            OracleError,
        >(OracleError::KeyRejected),
        request_allowed(timestamp, now_seconds) ==> (r is Ok <==> ecdsa_key_valid(signing_key@)
            && ecdsa_sign_some(
            signing_key@,
            payload_bytes((oracle_number_of(hmac_key@, timestamp)) as u32, timestamp),
        )),
        r is Ok ==> ({
            let d = r.unwrap();
            &&& ecdsa_key_valid(signing_key@)
            &&& d.result.timestamp == timestamp
            &&& d.result.number as int == oracle_number_of(hmac_key@, timestamp)
            &&& d.serialized@ == payload_bytes(d.result.number, timestamp)
            &&& d.signature@ == ecdsa_sig_of(signing_key@, d.serialized@)
        }),
{
    if timestamp > now_seconds / 60 {
        return Err(OracleError::FutureRound);
    }
    let input = encode_u64_be(timestamp);
    let digest = hmac_sha256(hmac_key, &input);
    let number = number_from_digest(&digest);
    assert(number == (oracle_number_of(hmac_key@, timestamp)) as u32);
    let serialized = encode_payload(number, timestamp);
    match ecdsa_sign(signing_key, &serialized) {
        Some(signature) => Ok(
            Draw { result: RngResult { number, timestamp }, serialized, signature },
        ),
        None => Err(OracleError::KeyRejected),
    }
}

/// The oracle's public key in compressed SEC1 bytes: what the game is
/// configured with, and what draws verify against. `None` for an invalid
/// signing key.
pub fn oracle_public_key(signing_key: &Vec<u8>) -> (r: Option<Vec<u8>>)
    ensures
        r is Some <==> ecdsa_key_valid(signing_key@),
        r is Some ==> r.unwrap()@ == crate::crypto::ecdsa_pub_of(signing_key@)
            && r.unwrap()@.len() == 33,
{
    crate::crypto::ecdsa_public_key(signing_key)
}

/// The oracle's public key, hex-encoded for its callers to compare against
/// their configured key.
pub fn public_key_hex(pubkey: &Vec<u8>) -> (r: String)
    ensures
        r@ == hex_chars(pubkey@),
{
    hex_encode(pubkey)
}

/// Anti-precognition: a request for a round whose end time is strictly in
/// the future is always refused.
pub proof fn lemma_no_precognition(timestamp: u64, now_seconds: u64)
    requires
        round_end_seconds(timestamp as int) > now_seconds,
    ensures
        !request_allowed(timestamp, now_seconds),
{
    let w = 60;
    assert(timestamp * w > now_seconds);
    if timestamp <= now_seconds as int / w {
        assert(timestamp * w <= (now_seconds as int / w) * w) by (nonlinear_arith)
            requires
                timestamp <= now_seconds as int / w,
                w == 60,
        ;
        assert((now_seconds as int / w) * w <= now_seconds) by (nonlinear_arith)
            requires
                w == 60,
                now_seconds >= 0,
        ;
    }
}

/// The guard is exact: a round is served exactly when its end time has
/// passed (its final minute is over).
pub proof fn lemma_guard_exact(timestamp: u64, now_seconds: u64)
    ensures
        request_allowed(timestamp, now_seconds) <==> round_end_seconds(timestamp as int)
            <= now_seconds,
{
    let w = 60;
    if request_allowed(timestamp, now_seconds) {
        assert(timestamp * w <= (now_seconds as int / w) * w) by (nonlinear_arith)
            requires
                timestamp <= now_seconds as int / w,
                w == 60,
        ;
        assert((now_seconds as int / w) * w <= now_seconds) by (nonlinear_arith)
            requires
                w == 60,
                now_seconds >= 0,
        ;
    }
    if round_end_seconds(timestamp as int) <= now_seconds {
        assert(timestamp <= now_seconds as int / w) by (nonlinear_arith)
            requires
                timestamp * w <= now_seconds,
                w == 60,
                now_seconds >= 0,
        ;
    }
}

} // verus!
