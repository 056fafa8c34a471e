//! The randomness oracle and the draw gate, exercised against the real
//! cryptography crates: HMAC-derived numbers, deterministic signatures,
//! verification, and the anti-precognition guard.

use guess_game::draw::{verify_draw, Draw, RngResult};
use guess_game::oracle::{
    generate_signed_number, oracle_public_key, public_key_hex, OracleError,
};
use hmac::Mac;

fn signing_key() -> Vec<u8> {
    let mut k = vec![0u8; 32];
    k[31] = 1;
    k
}

fn hmac_key() -> Vec<u8> {
    b"an hmac secret".to_vec()
}

#[test]
fn generated_draw_verifies_for_its_round() {
    let sk = signing_key();
    let pk = oracle_public_key(&sk).unwrap();
    assert_eq!(pk.len(), 33);
    let draw = generate_signed_number(&hmac_key(), &sk, 100, 6000).unwrap();
    assert_eq!(draw.result.timestamp, 100);
    assert!(verify_draw(&draw, &pk, 100));
}

#[test]
fn tampered_payload_round_or_signature_never_verifies() {
    let sk = signing_key();
    let pk = oracle_public_key(&sk).unwrap();
    let draw = generate_signed_number(&hmac_key(), &sk, 100, 6000).unwrap();
    // Mismatched round.
    assert!(!verify_draw(&draw, &pk, 101));
    // Tampered payload bytes.
    let mut tampered = Draw {
        result: draw.result,
        serialized: draw.serialized.clone(),
        signature: draw.signature.clone(),
    };
    let last = tampered.serialized.len() - 2;
    tampered.serialized[last] = tampered.serialized[last].wrapping_add(1);
    assert!(!verify_draw(&tampered, &pk, 100));
    // Tampered claimed number: re-encoding no longer matches the signature.
    let forged = Draw {
        result: RngResult {
            number: draw.result.number.wrapping_add(1),
            timestamp: 100,
        },
        serialized: guess_game::draw::encode_payload(draw.result.number.wrapping_add(1), 100),
        signature: draw.signature.clone(),
    };
    assert!(!verify_draw(&forged, &pk, 100));
    // Tampered signature.
    let mut badsig = Draw {
        result: draw.result,
        serialized: draw.serialized.clone(),
        signature: draw.signature.clone(),
    };
    badsig.signature[0] = badsig.signature[0].wrapping_add(1);
    assert!(!verify_draw(&badsig, &pk, 100));
    // Wrong public key.
    let mut other = signing_key();
    other[31] = 2;
    let other_pk = oracle_public_key(&other).unwrap();
    assert!(!verify_draw(&draw, &other_pk, 100));
}

#[test]
fn future_round_is_always_refused() {
    let sk = signing_key();
    // Round 100 ends at second 6000; until then the request fails.
    for now in [0u64, 59, 5940, 5999] {
        assert!(matches!(
            generate_signed_number(&hmac_key(), &sk, 100, now),
            Err(OracleError::FutureRound)
        ));
    }
    assert!(generate_signed_number(&hmac_key(), &sk, 100, 6000).is_ok());
}

#[test]
fn invalid_signing_key_is_rejected() {
    let zero_key = vec![0u8; 32];
    assert!(matches!(
        generate_signed_number(&hmac_key(), &zero_key, 100, 6000),
        Err(OracleError::KeyRejected)
    ));
}

#[test]
fn number_is_the_hmac_prefix() {
    let draw = generate_signed_number(&hmac_key(), &signing_key(), 100, 6000).unwrap();
    let mut mac =
        <hmac::Hmac<k256::sha2::Sha256> as hmac::Mac>::new_from_slice(&hmac_key()).unwrap();
    mac.update(&100u64.to_be_bytes());
    let digest = mac.finalize().into_bytes();
    let expected = u32::from_be_bytes([digest[0], digest[1], digest[2], digest[3]]);
    assert_eq!(draw.result.number, expected);
}

#[test]
fn generation_is_deterministic() {
    let a = generate_signed_number(&hmac_key(), &signing_key(), 100, 6000).unwrap();
    let b = generate_signed_number(&hmac_key(), &signing_key(), 100, 7000).unwrap();
    assert_eq!(a.result.number, b.result.number);
    assert_eq!(a.serialized, b.serialized);
    assert_eq!(a.signature, b.signature);
}

#[test]
fn payload_is_canonical_json() {
    let draw = generate_signed_number(&hmac_key(), &signing_key(), 100, 6000).unwrap();
    let expected = format!(
        "{{\"number\":{},\"timestamp\":100}}",
        draw.result.number
    );
    assert_eq!(draw.serialized, expected.into_bytes());
}

#[test]
fn public_key_hex_matches_hex_crate() {
    let sk = signing_key();
    let pk = oracle_public_key(&sk).unwrap();
    assert_eq!(public_key_hex(&pk), hex::encode(&pk));
    assert_eq!(public_key_hex(&vec![0x02, 0xab]), "02ab");
}
