use jwt_cracker::mac::{check_signature, code_equals};

const SIGNING_INPUT: &[u8] = b"eyJhbGciOiJIUzI1NiIsInR5cCI6IkpXVCJ9.eyJzdWIiOiIxMjM0NTY3ODkwIn0";

const SIGNATURE: [u8; 32] = [
    70, 175, 8, 198, 167, 151, 237, 224, 58, 26, 6, 49, 149, 193, 221, 60, 85, 81, 52, 81, 89,
    115, 154, 196, 35, 115, 16, 77, 150, 91, 43, 114,
];

#[test]
fn the_signing_secret_verifies() {
    assert!(check_signature("secret", SIGNING_INPUT, &SIGNATURE));
}

#[test]
fn another_secret_does_not_verify() {
    assert!(!check_signature("wrongpass", SIGNING_INPUT, &SIGNATURE));
    assert!(!check_signature("Secret", SIGNING_INPUT, &SIGNATURE));
    assert!(!check_signature("", SIGNING_INPUT, &SIGNATURE));
}

#[test]
fn another_signing_input_does_not_verify() {
    let other = b"eyJhbGciOiJIUzI1NiIsInR5cCI6IkpXVCJ9.eyJzdWIiOiIxMjM0NTY3ODkwIn1";
    assert!(!check_signature("secret", other, &SIGNATURE));
}

#[test]
fn a_signature_of_another_length_does_not_verify() {
    assert!(!check_signature("secret", SIGNING_INPUT, &SIGNATURE[..31]));
    let mut longer = SIGNATURE.to_vec();
    longer.push(0);
    assert!(!check_signature("secret", SIGNING_INPUT, &longer));
    assert!(!check_signature("secret", SIGNING_INPUT, &[]));
}

#[test]
fn a_signature_with_one_byte_changed_does_not_verify() {
    for position in 0..SIGNATURE.len() {
        let mut changed = SIGNATURE;
        changed[position] ^= 0x80;
        assert!(!check_signature("secret", SIGNING_INPUT, &changed));
    }
}

#[test]
fn the_code_of_a_published_vector_verifies() {
    // HMAC-SHA256, key "Jefe", data "what do ya want for nothing?"
    let code: [u8; 32] = [
        91, 220, 193, 70, 191, 96, 117, 78, 106, 4, 36, 38, 8, 149, 117, 199, 90, 0, 63, 8, 157,
        39, 57, 131, 157, 236, 88, 185, 100, 236, 56, 67,
    ];
    assert!(check_signature("Jefe", b"what do ya want for nothing?", &code));
    assert!(!check_signature("Jefe", b"what do ya want for nothing", &code));
    // a verifier that compared the key or the message with the code would
    // accept these
    assert!(!check_signature("Jefe", b"what do ya want for nothing?", b"Jefe"));
    assert!(!check_signature(
        "Jefe",
        b"what do ya want for nothing?",
        b"what do ya want for nothing?"
    ));
}

#[test]
fn the_empty_secret_over_the_empty_input_has_its_code() {
    let code: [u8; 32] = [
        182, 19, 103, 154, 8, 20, 217, 236, 119, 47, 149, 215, 120, 195, 95, 197, 255, 22, 151,
        196, 147, 113, 86, 83, 198, 199, 18, 20, 66, 146, 197, 173,
    ];
    assert!(check_signature("", b"", &code));
    assert!(!check_signature("", b"", b""));
}

#[test]
fn a_secret_of_more_than_one_block_verifies() {
    // a key longer than the hash's block of 64 bytes is hashed first
    let secret = "a".repeat(200);
    let code: [u8; 32] = [
        202, 252, 180, 178, 185, 107, 216, 201, 201, 193, 181, 20, 118, 120, 96, 34, 235, 251,
        251, 113, 149, 29, 199, 192, 109, 76, 0, 239, 79, 18, 72, 94,
    ];
    assert!(check_signature(&secret, SIGNING_INPUT, &code));
    assert!(!check_signature(&"a".repeat(199), SIGNING_INPUT, &code));
}

#[test]
fn secrets_that_differ_in_trailing_zero_bytes_share_their_code() {
    // the code of "a" over the signing input
    let code: [u8; 32] = [
        57, 137, 28, 95, 79, 236, 203, 146, 75, 90, 129, 14, 173, 89, 51, 106, 55, 75, 32, 30,
        118, 171, 94, 121, 208, 158, 53, 213, 124, 193, 128, 25,
    ];
    assert!(check_signature("a", SIGNING_INPUT, &code));
    assert!(check_signature("a\0", SIGNING_INPUT, &code));
    assert!(!check_signature("b", SIGNING_INPUT, &code));
}

#[test]
fn equal_codes_compare_equal() {
    assert!(code_equals(&[], &[]));
    assert!(code_equals(&[1, 2, 3], &[1, 2, 3]));
    assert!(code_equals(&SIGNATURE, &SIGNATURE));
}

#[test]
fn codes_that_differ_compare_unequal() {
    assert!(!code_equals(&[1, 2, 3], &[1, 2, 4]));
    assert!(!code_equals(&[1, 2, 3], &[0, 2, 3]));
    assert!(!code_equals(&[1, 2, 3], &[1, 2]));
    assert!(!code_equals(&[1, 2], &[1, 2, 3]));
    assert!(!code_equals(&[], &[0]));
    assert!(!code_equals(&[0x0f], &[0xf0]));
    assert!(!code_equals(&[0, 0, 1, 0], &[0, 0, 0, 0]));
}
