use vstd::prelude::*;

use base64::Engine;

verus! {

/// The base64url (no padding) encoding of a byte string, as ASCII bytes, as
/// produced by the `base64` crate's `URL_SAFE_NO_PAD` engine.
pub uninterp spec fn b64url_of(b: Seq<u8>) -> Seq<u8>;

/// The partial inverse: the byte string whose canonical base64url encoding is
/// `s`, if there is one. The `URL_SAFE_NO_PAD` engine rejects padding and
/// non-zero trailing bits, so it accepts exactly the canonical encodings.
pub uninterp spec fn b64url_decoded(s: Seq<u8>) -> Option<Seq<u8>>;

/// The raw HMAC-SHA256 tag over `message` with key `secret`, a pure function
/// of its two arguments.
pub uninterp spec fn hmac_sha256(message: Seq<u8>, secret: Seq<u8>) -> Seq<u8>;

/// Bytes read as ASCII characters, one character per byte.
pub open spec fn ascii_view(b: Seq<u8>) -> Seq<char> {
    Seq::new(b.len(), |i: int| b[i] as char)
}

/// Relies on the `base64` crate's `URL_SAFE_NO_PAD` engine: `encode` returns
/// the canonical base64url text of the input (four characters for every
/// three bytes, rounded up without padding), `decode` inverts it, and the
/// output alphabet (`A`-`Z`, `a`-`z`, `0`-`9`, `-`, `_`) is ASCII and free of
/// dots.
#[verifier::external_body]
pub(crate) fn b64url_encode(bytes: &[u8]) -> (r: Vec<u8>)
    ensures
        r@ == b64url_of(bytes@),
        b64url_decoded(r@) == Some(bytes@),
        r@.len() == (bytes@.len() * 4 + 2) / 3,
        forall|k: int| 0 <= k < r@.len() ==> r@[k] < 128 && r@[k] != 46,
{
    base64::engine::general_purpose::URL_SAFE_NO_PAD.encode(bytes).into_bytes()
}

/// Relies on the `base64` crate's `URL_SAFE_NO_PAD` engine: `decode` returns
/// the bytes whose canonical encoding is the input, and fails on anything
/// else (padding and non-zero trailing bits are rejected by this engine's
/// configuration).
#[verifier::external_body]
pub(crate) fn b64url_decode(s: &[u8]) -> (r: Option<Vec<u8>>)
    ensures
        match r {
            Some(b) => b64url_decoded(s@) == Some(b@) && s@ == b64url_of(b@),
            None => b64url_decoded(s@) is None,
        },
{
    match base64::engine::general_purpose::URL_SAFE_NO_PAD.decode(s) {
        Ok(v) => Some(v),
        Err(_) => None,
    }
}

/// Relies on `jsonwebtoken::crypto::sign` with an HMAC-SHA256 key built from
/// the secret bytes: the result is the base64url text (the same engine as
/// above) of the raw 32-byte HMAC-SHA256 tag, which depends on message and
/// secret alone. This path cannot fail: the key constructor stores any
/// secret verbatim as an HMAC-family key, HMAC accepts every key length, and
/// HMAC signing is total, so a signature always comes back.
#[verifier::external_body]
pub(crate) fn hs256_sign(message: &[u8], secret: &[u8]) -> (r: Option<Vec<u8>>)
    ensures
        r is Some,
        r matches Some(s) ==> {
            &&& s@ == b64url_of(hmac_sha256(message@, secret@))
            &&& b64url_decoded(s@) == Some(hmac_sha256(message@, secret@))
            &&& s@.len() == 43
            &&& forall|k: int| 0 <= k < s@.len() ==> s@[k] < 128 && s@[k] != 46
        },
{
    let key = jsonwebtoken::EncodingKey::from_secret(secret);
    match jsonwebtoken::crypto::sign(message, &key, jsonwebtoken::Algorithm::HS256) {
        Ok(s) => Some(s.into_bytes()),
        Err(_) => None,
    }
}

/// Relies on `jsonwebtoken::crypto::verify` with an HMAC-SHA256 key built
/// from the secret bytes: it base64url-decodes the signature text (strictly:
/// padding and non-zero trailing bits are rejected, so only the canonical
/// encoding of the tag is accepted) and compares the bytes against the
/// freshly computed HMAC-SHA256 tag of the message.
#[verifier::external_body]
pub(crate) fn hs256_verify(sig: &[u8], message: &[u8], secret: &[u8]) -> (r: bool)
    ensures
        r == (sig@ == b64url_of(hmac_sha256(message@, secret@))),
{
    let key = jsonwebtoken::DecodingKey::from_secret(secret);
    match std::str::from_utf8(sig) {
        Ok(s) => match jsonwebtoken::crypto::verify(s, message, &key, jsonwebtoken::Algorithm::HS256) {
            Ok(b) => b,
            Err(_) => false,
        },
        Err(_) => false,
    }
}

/// Relies on `String::from_utf8_lossy`: on ASCII input it decodes each byte
/// to the identical character.
#[verifier::external_body]
pub(crate) fn ascii_to_string(b: &[u8]) -> (r: String)
    requires
        forall|k: int| 0 <= k < b@.len() ==> b@[k] < 128,
    ensures
        r@ == ascii_view(b@),
{
    String::from_utf8_lossy(b).into_owned()
}

/// Relies on `str::chars`: the characters of a string slice, in order, are
/// its view.
#[verifier::external_body]
pub(crate) fn str_chars(s: &str) -> (r: Vec<char>)
    ensures
        r@ == s@,
{
    s.chars().collect()
}

/// Relies on `Iterator::collect` for `String`: collecting characters yields
/// the string with exactly those characters.
#[verifier::external_body]
pub(crate) fn chars_to_string(v: &[char]) -> (r: String)
    ensures
        r@ == v@,
{
    v.iter().collect()
}

/// Relies on `std::time::SystemTime::now`: the current instant, reported as
/// whole seconds since the Unix epoch. An instant before the epoch reads as
/// zero and one beyond the signed range clamps to its maximum, so only
/// non-negativity is promised; nothing further can be said of the ambient
/// clock.
#[verifier::external_body]
pub(crate) fn now_secs() -> (r: i64)
    ensures
        0 <= r,
{
    match std::time::SystemTime::now().duration_since(std::time::UNIX_EPOCH) {
        Ok(d) => {
            let s = d.as_secs();
            if s > i64::MAX as u64 {
                i64::MAX
            } else {
                s as i64
            }
        },
        Err(_) => 0,
    }
}

/// Relies on `char::from_u32`, as documented: every value except surrogates
/// and values above the Unicode maximum maps to the character with that
/// scalar value.
pub assume_specification[ char::from_u32 ](u: u32) -> (r: Option<char>)
    ensures
        (u < 0xD800 || (0xE000 <= u && u <= 0x10FFFF)) <==> r is Some,
        r matches Some(c) ==> c as u32 == u,
;

} // verus!
