//! Decoding of the unpadded URL-safe base64 in which a compact token
//! carries its segments.
use base64::engine::general_purpose::URL_SAFE_NO_PAD;
use base64::Engine;
use vstd::prelude::*;

verus! {

/// The error of the `base64` crate's decoder, carried through unread.
#[verifier::external_type_specification]
#[verifier::external_body]
pub struct ExDecodeError(base64::DecodeError);

/// What the `base64` crate's `URL_SAFE_NO_PAD` engine decodes `text` to:
/// the bytes, or `None` where it rejects the text. The engine is a
/// constant, so the outcome is a function of the text alone.
pub uninterp spec fn url_safe_decoding(text: Seq<char>) -> Option<Seq<u8>>;

/// Calls `Engine::decode` on the `URL_SAFE_NO_PAD` engine.
///
/// Trusted: the call succeeds exactly where `url_safe_decoding` is `Some`,
/// and then returns those bytes.
#[verifier::external_body]
fn url_safe_decode(text: &str) -> (decoded: Result<Vec<u8>, base64::DecodeError>)
    ensures
        match decoded {
            Ok(bytes) => url_safe_decoding(text@) == Some(bytes@),
            Err(_) => url_safe_decoding(text@) is None,
        },
{
    URL_SAFE_NO_PAD.decode(text)
}

/// Decodes one segment of a token, dropping the decoder's diagnosis of a
/// rejected text: the token is malformed whatever the reason.
pub fn decode_segment(text: &str) -> (bytes: Option<Vec<u8>>)
    ensures
        match bytes {
            Some(b) => url_safe_decoding(text@) == Some(b@),
            None => url_safe_decoding(text@) is None,
        },
{
    match url_safe_decode(text) {
        Ok(b) => Some(b),
        Err(_) => None,
    }
}

} // verus!
