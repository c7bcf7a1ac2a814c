//! The compact token: three dot-separated segments, of which the first
//! encodes a JSON header and the third the signature.
//!
//! Reading the header's JSON is left to the caller; this module frames the
//! token, hands out the header's bytes and checks the header's fields.
use crate::encoding::{decode_segment, url_safe_decoding};
use crate::error::ConfigError;
use vstd::prelude::*;
use vstd::std_specs::iter::IteratorSpec;
use vstd::string::{StrSliceExecFns, StringExecFns};

verus! {

/// The two fields of a token's header that decide whether it can be
/// searched.
#[derive(Clone, Debug, PartialEq, Eq)]
pub struct Header {
    pub typ: String,
    pub alg: String,
}

/// A validated token. The header and payload segments are kept as they
/// stood in the source text; the signature is decoded.
#[derive(Clone, Debug, PartialEq, Eq)]
pub struct Token {
    pub header: String,
    pub payload: String,
    pub signature: Vec<u8>,
}

/// The pieces of `text` between its dots, in order. A text without a dot is
/// its own single segment, and the empty text has one empty segment.
pub open spec fn segments(text: Seq<char>) -> Seq<Seq<char>>
    decreases text.len(),
{
    if text.len() == 0 {
        seq![Seq::<char>::empty()]
    } else {
        let before = segments(text.drop_last());
        if text.last() == '.' {
            before.push(Seq::<char>::empty())
        } else {
            before.drop_last().push(before.last().push(text.last()))
        }
    }
}

/// The segments put together again, with a dot between neighbours.
pub open spec fn joined(parts: Seq<Seq<char>>) -> Seq<char>
    decreases parts.len(),
{
    if parts.len() == 0 {
        Seq::<char>::empty()
    } else if parts.len() == 1 {
        parts[0]
    } else {
        joined(parts.drop_last()) + seq!['.'] + parts.last()
    }
}

/// Splitting loses nothing: there is at least one segment, no segment
/// holds a dot, and the segments joined by dots are the text.
pub proof fn lemma_segments_rejoin(text: Seq<char>)
    ensures
        segments(text).len() >= 1,
        joined(segments(text)) == text,
        forall|k: int, i: int|
            0 <= k < segments(text).len() && 0 <= i < segments(text)[k].len() ==> segments(
                text,
            )[k][i] != '.',
    decreases text.len(),
{
    if text.len() == 0 {
        assert(joined(segments(text)) =~= text);
    } else {
        let front = text.drop_last();
        let before = segments(front);
        let parts = segments(text);
        lemma_segments_rejoin(front);
        if text.last() == '.' {
            assert(parts.drop_last() =~= before);
            assert(joined(parts) =~= text);
        } else {
            let grown = before.last().push(text.last());
            assert(text =~= front.push(text.last()));
            assert(parts.last() == grown);
            if before.len() == 1 {
                assert(joined(before) == before[0]);
                assert(joined(parts) == parts[0]);
            } else {
                assert(parts.drop_last() =~= before.drop_last());
                assert(joined(before) == joined(before.drop_last()) + seq!['.'] + before.last());
                assert(joined(parts) == joined(parts.drop_last()) + seq!['.'] + grown);
                assert(joined(parts) =~= joined(before).push(text.last()));
            }
            assert forall|k: int, i: int|
                0 <= k < parts.len() && 0 <= i < parts[k].len() implies parts[k][i] != '.' by {
                if k < parts.len() - 1 {
                    assert(parts[k] == before[k]);
                } else if i < before.last().len() {
                    assert(parts[k][i] == before[k][i]);
                }
            }
        }
    }
}

/// A text of three segments is its segments with two dots between them.
pub proof fn lemma_three_segments(text: Seq<char>)
    requires
        segments(text).len() == 3,
    ensures
        text == segments(text)[0] + seq!['.'] + segments(text)[1] + seq!['.'] + segments(text)[2],
{
    let parts = segments(text);
    lemma_segments_rejoin(text);
    let two = parts.drop_last();
    assert(two.drop_last().len() == 1);
    assert(joined(two.drop_last()) == parts[0]);
    assert(joined(two) == parts[0] + seq!['.'] + parts[1]);
    assert(joined(parts) == joined(two) + seq!['.'] + parts[2]);
}

/// The three segments of a well-framed token.
pub struct Segments {
    pub header: String,
    pub payload: String,
    pub signature: String,
}

/// Splits a token at its dots, if there are exactly two of them.
pub fn split_token(token: &str) -> (parts: Option<Segments>)
    ensures
        match parts {
            Some(p) => segments(token@) == seq![p.header@, p.payload@, p.signature@],
            None => segments(token@).len() != 3,
        },
{
    let len: usize = token.unicode_len();
    let mut dots: usize = 0;
    let mut first: usize = 0;
    let mut second: usize = 0;
    let mut i: usize = 0;
    proof {
        assert(token@.take(0) =~= Seq::<char>::empty());
        assert(token@.subrange(0, 0) =~= Seq::<char>::empty());
    }
    for c in it: token.chars()
        invariant
            it.seq() == token@,
            len == token@.len(),
            i == it.index(),
            i <= len,
            dots <= i,
            segments(token@.take(i as int)).len() == dots + 1,
            dots == 0 ==> segments(token@.take(i as int))[0] == token@.subrange(0, i as int),
            dots >= 1 ==> first < i && segments(token@.take(i as int))[0] == token@.subrange(
                0,
                first as int,
            ),
            dots == 1 ==> segments(token@.take(i as int))[1] == token@.subrange(
                first + 1,
                i as int,
            ),
            dots >= 2 ==> first < second < i && segments(token@.take(i as int))[1]
                == token@.subrange(first + 1, second as int),
            dots == 2 ==> segments(token@.take(i as int))[2] == token@.subrange(
                second + 1,
                i as int,
            ),
    {
        proof {
            let before = token@.take(i as int);
            let after = token@.take(i + 1);
            assert(after.drop_last() =~= before);
            assert(after.last() == c);
            if c == '.' {
                assert(token@.subrange(i + 1, i + 1) =~= Seq::<char>::empty());
            } else {
                assert(token@.subrange(0, i + 1) =~= token@.subrange(0, i as int).push(c));
                if dots >= 1 {
                    assert(token@.subrange(first + 1, i + 1) =~= token@.subrange(
                        first + 1,
                        i as int,
                    ).push(c));
                }
                if dots >= 2 {
                    assert(token@.subrange(second + 1, i + 1) =~= token@.subrange(
                        second + 1,
                        i as int,
                    ).push(c));
                }
            }
        }
        if c == '.' {
            if dots == 0 {
                first = i;
            } else if dots == 1 {
                second = i;
            }
            dots = dots + 1;
        }
        i = i + 1;
    }
    proof {
        assert(token@.take(i as int) =~= token@);
    }
    if dots != 2 {
        return None;
    }
    let header = String::from_str(token.substring_char(0, first));
    let payload = String::from_str(token.substring_char(first + 1, second));
    let signature = String::from_str(token.substring_char(second + 1, len));
    proof {
        assert(segments(token@) =~= seq![header@, payload@, signature@]);
    }
    Some(Segments { header, payload, signature })
}

/// Whether `text` reads exactly as `literal`.
fn text_is(text: &String, literal: &str) -> (same: bool)
    ensures
        same == (text@ == literal@),
{
    let wanted = String::from_str(literal);
    *text == wanted
}

/// The first reason, if any, for which a token text with the given header
/// fields is refused. The checks run in the order of the token's own layout:
/// framing, header encoding, header fields, signature encoding.
pub open spec fn token_error(text: Seq<char>, typ: Seq<char>, alg: Seq<char>) -> Option<
    ConfigError,
> {
    let parts = segments(text);
    if parts.len() != 3 {
        Some(ConfigError::MalformedToken)
    } else if url_safe_decoding(parts[0]) is None {
        Some(ConfigError::HeaderEncoding)
    } else if typ != "JWT"@ {
        Some(ConfigError::UnsupportedType)
    } else if alg != "HS256"@ {
        Some(ConfigError::UnsupportedAlgorithm)
    } else if url_safe_decoding(parts[2]) is None {
        Some(ConfigError::SignatureEncoding)
    } else {
        None
    }
}

/// The bytes of the header's JSON: the decoding of the first segment.
///
/// Fails with `MalformedToken` unless the token has exactly three
/// segments, and with `HeaderEncoding` where the first does not decode.
pub fn header_json(token: &str) -> (json: Result<Vec<u8>, ConfigError>)
    ensures
        match json {
            Ok(bytes) => segments(token@).len() == 3 && url_safe_decoding(segments(token@)[0])
                == Some(bytes@),
            Err(e) => if segments(token@).len() != 3 {
                e == ConfigError::MalformedToken
            } else {
                e == ConfigError::HeaderEncoding && url_safe_decoding(segments(token@)[0]) is None
            },
        },
{
    match split_token(token) {
        None => Err(ConfigError::MalformedToken),
        Some(parts) => match decode_segment(parts.header.as_str()) {
            None => Err(ConfigError::HeaderEncoding),
            Some(bytes) => Ok(bytes),
        },
    }
}

/// Checks the fields of a decoded header: `typ` must be `JWT` and `alg`
/// must be `HS256`; the type is looked at first.
pub fn check_header(header: &Header) -> (verdict: Result<(), ConfigError>)
    ensures
        match verdict {
            Ok(_) => header.typ@ == "JWT"@ && header.alg@ == "HS256"@,
            Err(e) => if header.typ@ != "JWT"@ {
                e == ConfigError::UnsupportedType
            } else {
                e == ConfigError::UnsupportedAlgorithm && header.alg@ != "HS256"@
            },
        },
{
    if !text_is(&header.typ, "JWT") {
        Err(ConfigError::UnsupportedType)
    } else if !text_is(&header.alg, "HS256") {
        Err(ConfigError::UnsupportedAlgorithm)
    } else {
        Ok(())
    }
}

/// Builds the token from its text and from the header that was read out of
/// `header_json(token)`.
///
/// Succeeds exactly when `token_error` finds no fault; otherwise the error
/// is the first fault in its order. On success the header and payload are
/// the first two segments, untouched, and the signature is the decoding of
/// the third.
pub fn parse_token(token: &str, header: &Header) -> (parsed: Result<Token, ConfigError>)
    ensures
        match parsed {
            Ok(t) => {
                &&& token_error(token@, header.typ@, header.alg@) is None
                &&& t.header@ == segments(token@)[0]
                &&& t.payload@ == segments(token@)[1]
                &&& url_safe_decoding(segments(token@)[2]) == Some(t.signature@)
            },
            Err(e) => token_error(token@, header.typ@, header.alg@) == Some(e),
        },
{
    let parts = match split_token(token) {
        None => { return Err(ConfigError::MalformedToken); },
        Some(parts) => parts,
    };
    if decode_segment(parts.header.as_str()).is_none() {
        return Err(ConfigError::HeaderEncoding);
    }
    match check_header(header) {
        Err(e) => { return Err(e); },
        Ok(_) => {},
    }
    let signature = match decode_segment(parts.signature.as_str()) {
        None => { return Err(ConfigError::SignatureEncoding); },
        Some(bytes) => bytes,
    };
    Ok(Token { header: parts.header, payload: parts.payload, signature })
}

impl Token {
    /// The text that was signed: header, a dot, payload.
    pub open spec fn signing_text(&self) -> Seq<char> {
        self.header@ + seq!['.'] + self.payload@
    }

    /// Joins the header and payload segments into the signing input.
    pub fn signing_input(&self) -> (input: String)
        ensures
            input@ == self.signing_text(),
    {
        proof {
            reveal_strlit(".");
            assert("."@ =~= seq!['.']);
        }
        let mut input = self.header.clone();
        input.append(".");
        input.append(self.payload.as_str());
        input
    }
}

} // verus!
