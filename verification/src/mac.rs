//! The signature verifier: HMAC-SHA256 of a signing input under a candidate
//! secret, compared with the signature that the token carries.
use hmac::{Hmac, Mac};
use sha2::Sha256;
use vstd::prelude::*;
use vstd::string::StringSliceAdditionalSpecFns;

verus! {

/// The HMAC-SHA256 authentication code of `message` under `key`, as the
/// `hmac` and `sha2` crates compute it. The code is a function of the two
/// byte strings alone; nothing else is assumed of it.
pub uninterp spec fn hmac_sha256(key: Seq<u8>, message: Seq<u8>) -> Seq<u8>;

/// Calls `Hmac::<Sha256>::new_from_slice`, `Mac::update` and
/// `Mac::finalize` and hands back the bytes of the code.
///
/// Trusted: the bytes returned are `hmac_sha256` of the two arguments.
/// HMAC derives its block-sized key from a slice of any length, so key
/// construction has no failing path for this type.
#[verifier::external_body]
fn hmac_sha256_code(key: &[u8], message: &[u8]) -> (code: Vec<u8>)
    ensures
        code@ == hmac_sha256(key@, message@),
{
    let mut mac = Hmac::<Sha256>::new_from_slice(key).expect("HMAC takes a key of any length");
    mac.update(message);
    mac.finalize().into_bytes().to_vec()
}

/// Whether `secret` signs `signing_input` to exactly `expected`: the codes
/// agree in length and in every byte.
pub open spec fn signature_matches(
    secret: Seq<u8>,
    signing_input: Seq<u8>,
    expected: Seq<u8>,
) -> bool {
    hmac_sha256(secret, signing_input) == expected
}

/// Compares a computed code with the expected signature.
///
/// The running time depends on the two lengths only: when they agree every
/// byte pair is folded into one accumulator, and nothing is decided before
/// the last pair.
pub fn code_equals(code: &[u8], expected: &[u8]) -> (same: bool)
    ensures
        same == (code@ == expected@),
{
    if code.len() != expected.len() {
        return false;
    }
    let mut difference: u8 = 0;
    let mut i: usize = 0;
    while i < code.len()
        invariant
            i <= code.len(),
            code.len() == expected.len(),
            difference == 0 <==> code@.take(i as int) =~= expected@.take(i as int),
        decreases code.len() - i,
    {
        let x: u8 = code[i];
        let y: u8 = expected[i];
        let previous: u8 = difference;
        difference = previous | (x ^ y);
        proof {
            assert((previous | (x ^ y)) == 0 <==> (previous == 0 && x == y)) by (bit_vector);
            assert(code@.take(i + 1) =~= code@.take(i as int).push(x));
            assert(expected@.take(i + 1) =~= expected@.take(i as int).push(y));
            if code@.take(i + 1) =~= expected@.take(i + 1) {
                assert(code@.take(i as int) =~= code@.take(i + 1).drop_last());
                assert(expected@.take(i as int) =~= expected@.take(i + 1).drop_last());
                assert(x == code@.take(i + 1).last());
                assert(y == expected@.take(i + 1).last());
            }
        }
        i += 1;
    }
    proof {
        assert(code@.take(i as int) =~= code@);
        assert(expected@.take(i as int) =~= expected@);
    }
    difference == 0
}

/// Tests one candidate: `true` exactly when HMAC-SHA256 keyed by the bytes
/// of `secret` over `header_payload` equals `valid_signature`.
pub fn check_signature(secret: &str, header_payload: &[u8], valid_signature: &[u8]) -> (ok: bool)
    ensures
        ok == signature_matches(secret.spec_bytes(), header_payload@, valid_signature@),
{
    let code = hmac_sha256_code(secret.as_bytes(), header_payload);
    code_equals(code.as_slice(), valid_signature)
}

/// A secret verifies against the code that it produces itself.
pub proof fn lemma_own_code_verifies(secret: Seq<u8>, signing_input: Seq<u8>)
    ensures
        signature_matches(secret, signing_input, hmac_sha256(secret, signing_input)),
{
}

/// A secret does not verify against the code of a different secret, unless
/// the two secrets collide on this signing input.
pub proof fn lemma_other_code_rejected(first: Seq<u8>, second: Seq<u8>, signing_input: Seq<u8>)
    requires
        first != second,
        hmac_sha256(first, signing_input) != hmac_sha256(second, signing_input),
    ensures
        !signature_matches(first, signing_input, hmac_sha256(second, signing_input)),
{
}

} // verus!
