//! The oracle's signed draw and its verification gate. The oracle signs the
//! canonical payload `{"number":N,"timestamp":T}`; a draw is accepted for a
//! round only when the claimed payload re-encodes to exactly the signed
//! bytes, the signature verifies against the expected oracle key, and the
//! payload's timestamp is the round being settled. Any mismatch is a hard
//! rejection, never coerced.

use crate::crypto::{ecdsa_verify, ecdsa_verify_ok};
use crate::numstr::{dec_str, push_u64_dec};
use vstd::prelude::*;

verus! {

/// The oracle's claimed result: the drawn number and the round it is for.
#[derive(Debug, Clone, Copy, PartialEq, Eq, Structural)]
pub struct RngResult {
    /// The drawn number; taken modulo 256 before use.
    pub number: u32,
    /// The round the number was drawn for.
    pub timestamp: u64,
}

/// A draw as received from the oracle: the claimed result, the exact bytes
/// that were signed, and the signature.
#[derive(Debug, Clone)]
pub struct Draw {
    /// The claimed result.
    pub result: RngResult,
    /// The canonical payload bytes the oracle signed.
    pub serialized: Vec<u8>,
    /// The ECDSA signature over `serialized`.
    pub signature: Vec<u8>,
}

/// The byte run `{"number":`.
pub open spec fn lit_number_head() -> Seq<u8> {
    seq![123, 34, 110, 117, 109, 98, 101, 114, 34, 58]
}

/// The byte run `,"timestamp":`.
pub open spec fn lit_timestamp_key() -> Seq<u8> {
    seq![44, 34, 116, 105, 109, 101, 115, 116, 97, 109, 112, 34, 58]
}

/// The canonical payload the oracle signs for a result: the one byte
/// encoding that validates its signature.
pub open spec fn payload_bytes(number: u32, timestamp: u64) -> Seq<u8> {
    lit_number_head() + dec_str(number as nat) + lit_timestamp_key() + dec_str(timestamp as nat)
        + seq![125]
}

/// Encodes the canonical payload of a result.
pub fn encode_payload(number: u32, timestamp: u64) -> (r: Vec<u8>)
    ensures
        r@ == payload_bytes(number, timestamp),
{
    let mut out: Vec<u8> = Vec::new();
    out.push(123);
    out.push(34);
    out.push(110);
    out.push(117);
    out.push(109);
    out.push(98);
    out.push(101);
    out.push(114);
    out.push(34);
    out.push(58);
    assert(out@ =~= lit_number_head());
    push_u64_dec(&mut out, number as u64);
    out.push(44);
    out.push(34);
    out.push(116);
    out.push(105);
    out.push(109);
    out.push(101);
    out.push(115);
    out.push(116);
    out.push(97);
    out.push(109);
    out.push(112);
    out.push(34);
    out.push(58);
    push_u64_dec(&mut out, timestamp);
    out.push(125);
    assert(out@ =~= payload_bytes(number, timestamp));
    out
}

/// When a draw is accepted for settling `round`: the claimed result
/// re-encodes to exactly the signed bytes, the signature verifies against
/// the expected oracle key, and the claimed round is the round being
/// settled.
pub open spec fn draw_accepted(
    result: RngResult,
    serialized: Seq<u8>,
    signature: Seq<u8>,
    oracle_key: Seq<u8>,
    round: u64,
) -> bool {
    &&& serialized == payload_bytes(result.number, result.timestamp)
    &&& ecdsa_verify_ok(oracle_key, serialized, signature)
    &&& result.timestamp == round
}

/// Validates a candidate draw for settling `round` against the expected
/// oracle public key (SEC1 bytes): true exactly when the draw is accepted.
pub fn verify_draw(draw: &Draw, oracle_key: &Vec<u8>, round: u64) -> (r: bool)
    ensures
        r == draw_accepted(draw.result, draw.serialized@, draw.signature@, oracle_key@, round),
{
    if draw.result.timestamp != round {
        return false;
    }
    let canonical = encode_payload(draw.result.number, draw.result.timestamp);
    if !bytes_eq(&canonical, &draw.serialized) {
        return false;
    }
    ecdsa_verify(oracle_key, &draw.serialized, &draw.signature)
}

/// Byte-for-byte equality of two byte strings.
fn bytes_eq(a: &Vec<u8>, b: &Vec<u8>) -> (r: bool)
    ensures
        r == (a@ == b@),
{
    if a.len() != b.len() {
        return false;
    }
    let n = a.len();
    for i in 0..n
        invariant
            n == a@.len() == b@.len(),
            forall|t: int| 0 <= t < i ==> a@[t] == b@[t],
    {
        if a[i] != b[i] {
            return false;
        }
    }
    assert(a@ =~= b@);
    true
}

/// The signature gate: a draw with a tampered payload, a mismatched round,
/// or a signature that does not verify against the oracle key is never
/// accepted, whatever the round's wagers hold.
pub proof fn lemma_signature_gate(
    result: RngResult,
    serialized: Seq<u8>,
    signature: Seq<u8>,
    oracle_key: Seq<u8>,
    round: u64,
)
    requires
        serialized != payload_bytes(result.number, result.timestamp) || !ecdsa_verify_ok(
            oracle_key,
            serialized,
            signature,
        ) || result.timestamp != round,
    ensures
        !draw_accepted(result, serialized, signature, oracle_key, round),
{
}

} // verus!
