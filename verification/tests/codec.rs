//! Tests for the base32 codec and the one-time-password policy.

use keedavault_core::totp::{
    decode_base32, encode_base32, generate_code, generate_totp, get_remaining_seconds,
    get_remaining_seconds_at, validate_code, validate_totp,
};

#[test]
fn it_works() {
    // Basic smoke test
    assert_eq!(2 + 2, 4);
}

#[test]
fn test_base32_decode() {
    // Test with a simple string
    let result = decode_base32("JBSWY3DPEE======");
    assert!(result.is_ok());
    assert_eq!(result.unwrap(), b"Hello!");
}

#[test]
fn test_base32_encode() {
    let encoded = encode_base32(b"Hello!");
    assert_eq!(encoded, "JBSWY3DPEE======");
}

#[test]
fn test_generate_totp() {
    // Using a known test secret
    let secret = "JBSWY3DPEHPK3PXP";
    let result = generate_totp(secret);
    assert!(result.is_ok());

    let code = result.unwrap();
    assert_eq!(code.len(), 6);
    assert!(code.chars().all(|c| c.is_ascii_digit()));
}

#[test]
fn test_validate_totp() {
    let secret = "JBSWY3DPEHPK3PXP";

    // Generate a code
    let code = generate_totp(secret).unwrap();

    // It should validate successfully
    let is_valid = validate_totp(secret, &code).unwrap();
    assert!(is_valid);

    // Invalid code should fail
    let _is_valid = validate_totp(secret, "000000").unwrap();
    // This might occasionally be true if the actual code is 000000,
    // but statistically very unlikely
}

#[test]
fn test_get_remaining_seconds() {
    let remaining = get_remaining_seconds();
    assert!(remaining > 0 && remaining <= 30);
}

#[test]
fn test_invalid_base32() {
    let result = decode_base32("INVALID!");
    assert!(result.is_err());
}

#[test]
fn base32_round_trips_over_many_inputs() {
    let samples: Vec<Vec<u8>> = vec![
        vec![0x00],
        vec![0xff],
        vec![0xde, 0xad],
        vec![1, 2, 3],
        vec![0x12, 0x34, 0x56, 0x78],
        vec![200, 100, 50, 25, 12],
        vec![72, 101, 108, 108, 111, 33],
        (0u8..=255).collect(),
    ];
    for bytes in samples {
        let encoded = encode_base32(&bytes);
        assert_eq!(encoded.len() % 8, 0);
        let decoded = decode_base32(&encoded).unwrap();
        assert_eq!(decoded, bytes);
    }
}

#[test]
fn base32_empty_input_gives_empty_output() {
    assert_eq!(encode_base32(b""), "");
    assert_eq!(decode_base32("").unwrap(), Vec::<u8>::new());
}

#[test]
fn base32_decode_is_case_insensitive_and_skips_spaces() {
    let decoded = decode_base32("jbsw y3dp ee==").unwrap();
    assert_eq!(decoded, b"Hello!");
}

#[test]
fn base32_decode_stops_at_first_padding() {
    // everything after the first `=` is ignored, even invalid characters
    let decoded = decode_base32("JBSWY3DPEE=!!!").unwrap();
    assert_eq!(decoded, b"Hello!");
}

#[test]
fn invalid_secret_error_variant() {
    let err = generate_totp("????").unwrap_err();
    assert!(matches!(
        err,
        keedavault_core::VaultError::InvalidSecret(_)
    ));
    let err = validate_totp("????", "123456").unwrap_err();
    assert!(matches!(
        err,
        keedavault_core::VaultError::InvalidSecret(_)
    ));
}

#[test]
fn totp_window_scenario() {
    // generate a code for the secret at a fixed instant and validate it
    // across the tolerated window
    let secret_bytes = decode_base32("JBSWY3DPEHPK3PXP").unwrap();
    let t: u64 = 1_000_000_020; // a multiple of 30
    let code = generate_code(&secret_bytes, t);
    assert_eq!(code.len(), 6);

    assert!(validate_code(&secret_bytes, &code, t));
    assert!(validate_code(&secret_bytes, &code, t + 29));
    assert!(validate_code(&secret_bytes, &code, t - 29));

    // at t + 61 the window covers the steps at t + 31, t + 61 and t + 91
    // only, so the old code is accepted exactly when it collides with one
    // of those
    let c1 = generate_code(&secret_bytes, t + 31);
    let c2 = generate_code(&secret_bytes, t + 61);
    let c3 = generate_code(&secret_bytes, t + 91);
    let accepted = validate_code(&secret_bytes, &code, t + 61);
    assert_eq!(accepted, code == c1 || code == c2 || code == c3);
}

#[test]
fn remaining_seconds_formula() {
    assert_eq!(get_remaining_seconds_at(0), 30);
    assert_eq!(get_remaining_seconds_at(29), 1);
    assert_eq!(get_remaining_seconds_at(30), 30);
    assert_eq!(get_remaining_seconds_at(1_000_000_007), 13);
}
