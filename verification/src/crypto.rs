//! Trusted bindings to the outside cryptography crates: HMAC-SHA-256 for
//! deriving a round's number from a secret, ECDSA over secp256k1 for
//! signing and verifying the oracle's payloads, and hex for presenting key
//! bytes. Each binding's contract states only what the crates' sources
//! show; results that would take pages to state are given names that the
//! rest of the library reasons with.

use vstd::prelude::*;

verus! {

/// The lowercase hex digit of a value below sixteen.
pub open spec fn hex_digit(n: int) -> char {
    if n == 0 {
        '0'
    } else if n == 1 {
        '1'
    } else if n == 2 {
        '2'
    } else if n == 3 {
        '3'
    } else if n == 4 {
        '4'
    } else if n == 5 {
        '5'
    } else if n == 6 {
        '6'
    } else if n == 7 {
        '7'
    } else if n == 8 {
        '8'
    } else if n == 9 {
        '9'
    } else if n == 10 {
        'a'
    } else if n == 11 {
        'b'
    } else if n == 12 {
        'c'
    } else if n == 13 {
        'd'
    } else if n == 14 {
        'e'
    } else {
        'f'
    }
}

/// The lowercase hex encoding of a byte string: two digits per byte, high
/// nibble first, bytes in order.
pub open spec fn hex_chars(b: Seq<u8>) -> Seq<char> {
    Seq::new(
        b.len() * 2,
        |i: int|
            if i % 2 == 0 {
                hex_digit(b[i / 2] as int / 16)
            } else {
                hex_digit(b[i / 2] as int % 16)
            },
    )
}

/// Relies on hex::encode: the lowercase hex string of the bytes, two
/// digits per byte, in order.
#[verifier::external_body]
pub(crate) fn hex_encode(b: &Vec<u8>) -> (r: String)
    ensures
        r@ == hex_chars(b@),
{
    hex::encode(b.as_slice())
}

/// The HMAC-SHA-256 digest of a message under a key: a function of the two
/// byte strings alone, the same in every process and on every machine.
pub uninterp spec fn hmac_sha256_of(key: Seq<u8>, msg: Seq<u8>) -> Seq<u8>;

/// Relies on hmac's Hmac over SHA-256 (the sha2 that k256 re-exports):
/// `new_from_slice` accepts a key of any length, and the digest is a
/// deterministic function of key and message, 32 bytes long.
#[verifier::external_body]
pub(crate) fn hmac_sha256(key: &Vec<u8>, msg: &Vec<u8>) -> (r: Vec<u8>)
    ensures
        r@ == hmac_sha256_of(key@, msg@),
        r@.len() == 32,
{
    let mut mac = <hmac::Hmac<k256::sha2::Sha256> as hmac::Mac>::new_from_slice(key.as_slice())
        .expect("HMAC accepts keys of any length");
    hmac::Mac::update(&mut mac, msg.as_slice());
    hmac::Mac::finalize(mac).into_bytes().to_vec()
}

/// Whether a byte string is accepted as a secp256k1 signing key: what
/// `SigningKey::from_slice` accepts (a non-zero scalar, with short inputs
/// zero-padded), a function of the bytes alone.
pub uninterp spec fn ecdsa_key_valid(key: Seq<u8>) -> bool;

/// Whether RFC 6979 signing of a message under a valid key yields a
/// signature: its one failure (an ephemeral scalar whose `r` or `s` is
/// zero) is a function of key and message alone, since the ephemeral
/// scalar is derived deterministically from both.
pub uninterp spec fn ecdsa_sign_some(key: Seq<u8>, msg: Seq<u8>) -> bool;

/// The RFC 6979 deterministic ECDSA signature of a message under a valid
/// signing key: a function of key and message alone, 64 bytes (`r` then
/// `s`, big endian).
pub uninterp spec fn ecdsa_sig_of(key: Seq<u8>, msg: Seq<u8>) -> Seq<u8>;

/// The compressed SEC1 encoding of the public key of a valid signing key:
/// a function of the key bytes alone, 33 bytes.
pub uninterp spec fn ecdsa_pub_of(key: Seq<u8>) -> Seq<u8>;

/// Whether a signature verifies against a SEC1 public key and a message:
/// what `VerifyingKey::from_sec1_bytes`, `Signature::from_slice` and
/// `verify` together accept, a function of the three byte strings alone.
pub uninterp spec fn ecdsa_verify_ok(pubkey: Seq<u8>, msg: Seq<u8>, sig: Seq<u8>) -> bool;

/// Relies on k256's ecdsa::SigningKey::from_slice and Signer::try_sign:
/// signing is deterministic (RFC 6979 with no added entropy), so both the
/// signature and whether signing succeeds are functions of key and message
/// alone; `from_slice` rejects exactly the byte strings that are not valid
/// keys.
#[verifier::external_body]
pub(crate) fn ecdsa_sign(key: &Vec<u8>, msg: &Vec<u8>) -> (r: Option<Vec<u8>>)
    ensures
        r is Some <==> (ecdsa_key_valid(key@) && ecdsa_sign_some(key@, msg@)),
        r is Some ==> r.unwrap()@ == ecdsa_sig_of(key@, msg@) && r.unwrap()@.len() == 64,
{
    let k = k256::ecdsa::SigningKey::from_slice(key.as_slice()).ok()?;
    let sig: k256::ecdsa::Signature = k256::ecdsa::signature::Signer::try_sign(
        &k,
        msg.as_slice(),
    ).ok()?;
    Some(sig.to_bytes().to_vec())
}

/// Relies on k256's ecdsa::SigningKey::from_slice, `verifying_key` and
/// `to_sec1_bytes`: the public key of a valid signing key, in compressed
/// SEC1 form (k256 compresses points), 33 bytes.
#[verifier::external_body]
pub(crate) fn ecdsa_public_key(key: &Vec<u8>) -> (r: Option<Vec<u8>>)
    ensures
        r is Some <==> ecdsa_key_valid(key@),
        r is Some ==> r.unwrap()@ == ecdsa_pub_of(key@) && r.unwrap()@.len() == 33,
{
    let k = k256::ecdsa::SigningKey::from_slice(key.as_slice()).ok()?;
    Some(k.verifying_key().to_sec1_bytes().to_vec())
}

/// Relies on k256's ecdsa::VerifyingKey::from_sec1_bytes,
/// Signature::from_slice and Verifier::verify: whether the signature
/// verifies, a deterministic function of the three byte strings; a public
/// key or signature that does not parse verifies nothing.
#[verifier::external_body]
pub(crate) fn ecdsa_verify(pubkey: &Vec<u8>, msg: &Vec<u8>, sig: &Vec<u8>) -> (r: bool)
    ensures
        r == ecdsa_verify_ok(pubkey@, msg@, sig@),
{
    let vk = match k256::ecdsa::VerifyingKey::from_sec1_bytes(pubkey.as_slice()) {
        Ok(vk) => vk,
        Err(_) => return false,
    };
    let sg = match k256::ecdsa::Signature::from_slice(sig.as_slice()) {
        Ok(sg) => sg,
        Err(_) => return false,
    };
    k256::ecdsa::signature::Verifier::verify(&vk, msg.as_slice(), &sg).is_ok()
}

} // verus!
