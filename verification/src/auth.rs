//! Parsing of the `Basic` proxy-authorization credential.
//!
//! Only `Basic <base64>` is accepted; the decoded text is split at its first
//! colon and both parts must be non-empty. Base64 and UTF-8 decoding are done
//! by outside code whose results are named, not restated, here.

use vstd::prelude::*;
use base64::Engine;
use crate::net::find_char;
use crate::text::{find_char_in, str_eq};

verus! {

/// What base64's standard-alphabet, padded decoding yields for this text:
/// the decoded bytes, or nothing when the text is not valid base64.
pub uninterp spec fn b64_decode_of(s: Seq<char>) -> Option<Seq<u8>>;

/// Relies on base64's `STANDARD` engine `decode`: the result is a function
/// of the input text alone.
#[verifier::external_body]
fn base64_decode(encoded: &str) -> (r: Option<Vec<u8>>)
    ensures
        match r {
            Some(v) => b64_decode_of(encoded@) == Some(v@),
            None => b64_decode_of(encoded@) is None,
        },
{
    match base64::engine::general_purpose::STANDARD.decode(encoded) {
        Ok(v) => Some(v),
        Err(_) => None,
    }
}

/// What UTF-8 decoding yields for these bytes: their text, or nothing when
/// they are not valid UTF-8.
pub uninterp spec fn utf8_of(bytes: Seq<u8>) -> Option<Seq<char>>;

/// Relies on `String::from_utf8`: the result is a function of the bytes
/// alone.
#[verifier::external_body]
pub(crate) fn utf8_to_string(bytes: Vec<u8>) -> (r: Option<String>)
    ensures
        match r {
            Some(s) => utf8_of(bytes@) == Some(s@),
            None => utf8_of(bytes@) is None,
        },
{
    match String::from_utf8(bytes) {
        Ok(s) => Some(s),
        Err(_) => None,
    }
}

/// The credential a `Proxy-Authorization` value yields: the value must start
/// with `Basic `, the remainder must decode as base64 and then as UTF-8, and
/// the decoded text splits at its first colon into a non-empty username and
/// a non-empty password.
pub open spec fn spec_parse_credentials(header_value: Seq<char>) -> Option<(Seq<char>, Seq<char>)> {
    if header_value.len() < 6 || header_value.subrange(0, 6) != "Basic "@ {
        None
    } else {
        match b64_decode_of(header_value.skip(6)) {
            None => None,
            Some(bytes) => match utf8_of(bytes) {
                None => None,
                Some(s) => match find_char(s, ':', 0) {
                    None => None,
                    Some(i) => {
                        let username = s.subrange(0, i);
                        let password = s.subrange(i + 1, s.len() as int);
                        if username.len() >= 1 && password.len() >= 1 {
                            Some((username, password))
                        } else {
                            None
                        }
                    },
                },
            },
        }
    }
}

/// Parse a `Proxy-Authorization` header value into a credential pair.
pub fn parse_credentials(header_value: &str) -> (r: Option<(String, String)>)
    ensures
        match r {
            Some(c) => spec_parse_credentials(header_value@) == Some((c.0@, c.1@)),
            None => spec_parse_credentials(header_value@) is None,
        },
{
    let n = header_value.unicode_len();
    if n < 6 {
        return None;
    }
    let prefix = header_value.substring_char(0, 6);
    if !str_eq(prefix, "Basic ") {
        return None;
    }
    let encoded = header_value.substring_char(6, n);
    assert(encoded@ == header_value@.skip(6));
    let decoded = match base64_decode(encoded) {
        Some(v) => v,
        None => {
            return None;
        },
    };
    let text = match utf8_to_string(decoded) {
        Some(s) => s,
        None => {
            return None;
        },
    };
    let m = text.as_str().unicode_len();
    let i = match find_char_in(text.as_str(), ':', 0, m) {
        Some(i) => i,
        None => {
            return None;
        },
    };
    let username = text.as_str().substring_char(0, i);
    let password = text.as_str().substring_char(i + 1, m);
    if username.unicode_len() == 0 || password.unicode_len() == 0 {
        return None;
    }
    Some((username.to_owned(), password.to_owned()))
}

} // verus!
