//! The calls that the library makes into code it does not verify: the
//! SHA-1 digest, hex text, form encoding, JSON text and UTF-8 decoding.
//! Each item here states what the called function is taken to do.
use vstd::prelude::*;
use vstd::utf8::{decode_utf8, encode_utf8, valid_utf8};

use sha1::Digest;

verus! {

// ---------------------------------------------------------------------------
// SHA-1
// ---------------------------------------------------------------------------

/// The SHA-1 digest of a byte string, as the `sha1` crate computes it.
pub uninterp spec fn sha1_digest_of(data: Seq<u8>) -> Seq<u8>;

/// Calls `sha1::Sha1` (`new`, `update`, `finalize`) on `data`. Claimed: the
/// result is the SHA-1 digest of `data`, a function of `data` alone.
#[verifier::external_body]
pub(crate) fn sha1_digest(data: &[u8]) -> (r: [u8; 20])
    ensures
        r@ == sha1_digest_of(data@),
{
    let mut hasher = sha1::Sha1::new();
    hasher.update(data);
    hasher.finalize().into()
}

// ---------------------------------------------------------------------------
// Hex text
// ---------------------------------------------------------------------------

/// The lowercase hex digit of a number below 16.
pub open spec fn hex_digit(n: u8) -> char {
    if n < 10 {
        ((48 + n) as u8) as char
    } else {
        ((87 + n) as u8) as char
    }
}

/// Two lowercase hex digits per byte, high half first.
pub open spec fn hex_text(b: Seq<u8>) -> Seq<char>
    decreases b.len(),
{
    if b.len() == 0 {
        Seq::empty()
    } else {
        hex_text(b.drop_last()) + seq![hex_digit(b.last() / 16), hex_digit(b.last() % 16)]
    }
}

/// Calls `hex::encode`. Claimed: the result is two characters from
/// `0123456789abcdef` per byte, the high four bits first.
#[verifier::external_body]
pub(crate) fn hex_encode(data: &[u8]) -> (r: String)
    ensures
        r@ == hex_text(data@),
{
    hex::encode(data)
}

// ---------------------------------------------------------------------------
// Form encoding of one query pair
// ---------------------------------------------------------------------------

/// The uppercase hex digit of a number below 16.
pub open spec fn hex_digit_upper(n: u8) -> char {
    if n < 10 {
        ((48 + n) as u8) as char
    } else {
        ((55 + n) as u8) as char
    }
}

/// The form encoding of one byte: ASCII letters and digits and `*`, `-`,
/// `.`, `_` stand for themselves, a space becomes `+`, and any other byte
/// becomes `%` and two uppercase hex digits.
pub open spec fn form_byte(b: u8) -> Seq<char> {
    if (48 <= b <= 57) || (65 <= b <= 90) || (97 <= b <= 122) || b == 42 || b == 45 || b == 46 || b
        == 95 {
        seq![b as char]
    } else if b == 32 {
        seq!['+']
    } else {
        seq!['%', hex_digit_upper(b / 16), hex_digit_upper(b % 16)]
    }
}

/// The form encoding of a byte string, byte by byte.
pub open spec fn form_bytes(s: Seq<u8>) -> Seq<char>
    decreases s.len(),
{
    if s.len() == 0 {
        Seq::empty()
    } else {
        form_bytes(s.drop_last()) + form_byte(s.last())
    }
}

/// A form field: the key's UTF-8 bytes encoded, `=`, the value's encoded.
pub open spec fn urlencoded_pair(key: Seq<char>, value: Seq<char>) -> Seq<char> {
    form_bytes(encode_utf8(key)) + seq!['='] + form_bytes(encode_utf8(value))
}

/// The error type of `serde_urlencoded`.
#[verifier::external_type_specification]
#[verifier::external_body]
pub struct ExUrlEncodeError(serde_urlencoded::ser::Error);

/// Calls `serde_urlencoded::to_string` on a form with the one pair `key`,
/// `value`. Claimed: such a form is always encoded (its serializer takes a
/// sequence of pairs whose key and value are strings without error), and
/// the result is the pair as `form_urlencoded` writes it: the key's bytes
/// encoded, `=`, and the value's bytes encoded.
#[verifier::external_body]
pub(crate) fn urlencode_pair(key: &str, value: &str) -> (r: Result<String, serde_urlencoded::ser::Error>)
    ensures
        r is Ok,
        r matches Ok(s) ==> s@ == urlencoded_pair(key@, value@),
{
    serde_urlencoded::to_string([(key, value)])
}

// ---------------------------------------------------------------------------
// JSON text
// ---------------------------------------------------------------------------

/// The value type of `serde_json`.
#[verifier::external_type_specification]
#[verifier::external_body]
pub struct ExJsonValue(serde_json::Value);

/// The error type of `serde_json`.
#[verifier::external_type_specification]
#[verifier::external_body]
pub struct ExJsonError(serde_json::Error);

/// Calls `serde_json::from_slice` to read a JSON value. Claimed: bytes
/// that are not valid UTF-8 are refused (the reader takes only ASCII
/// outside strings and checks every string as UTF-8). What it reads from
/// valid UTF-8 is left unsaid.
#[verifier::external_body]
pub(crate) fn json_from_slice(bytes: &[u8]) -> (r: Result<serde_json::Value, serde_json::Error>)
    ensures
        !valid_utf8(bytes@) ==> r is Err,
{
    serde_json::from_slice(bytes)
}

// ---------------------------------------------------------------------------
// UTF-8
// ---------------------------------------------------------------------------

/// The error type of `String::from_utf8`.
#[verifier::external_type_specification]
#[verifier::external_body]
pub struct ExFromUtf8Error(std::string::FromUtf8Error);

/// Calls `String::from_utf8`. Claimed, as its documentation says: the
/// bytes are accepted exactly when they are valid UTF-8, and then the
/// string holds the characters they encode.
#[verifier::external_body]
pub(crate) fn string_from_utf8(bytes: Vec<u8>) -> (r: Result<String, std::string::FromUtf8Error>)
    ensures
        r is Ok <==> valid_utf8(bytes@),
        r matches Ok(s) ==> s@ == decode_utf8(bytes@),
{
    String::from_utf8(bytes)
}

/// Calls `String::push`. Claimed, as its documentation says: the character
/// is added at the end.
#[verifier::external_body]
pub(crate) fn string_push(s: &mut String, c: char)
    ensures
        final(s)@ == old(s)@.push(c),
{
    s.push(c)
}

} // verus!
