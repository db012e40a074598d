//! Contracts for the calls this library makes into serde_json, base64, rand
//! and std.
use rand::Rng;
use vstd::prelude::*;

verus! {

#[verifier::external_type_specification]
#[verifier::external_body]
pub struct ExValue(serde_json::Value);

/// Relies on the `Clone` impl of serde_json::Value: a deep copy of the document.
pub assume_specification[ <serde_json::Value as Clone>::clone ](v: &serde_json::Value) -> (r:
    serde_json::Value)
    ensures
        r == *v,
;

/// The compact JSON text that serde_json::to_string writes for a document.
pub uninterp spec fn json_of(v: serde_json::Value) -> Seq<char>;

/// The document that serde_json::from_slice reads from the bytes, if they parse.
pub uninterp spec fn json_parsed(b: Seq<u8>) -> Option<serde_json::Value>;

/// The standard, padded base64 text that base64::encode writes for the bytes.
pub uninterp spec fn base64_of(b: Seq<u8>) -> Seq<char>;

/// The bytes that base64::decode reads from the text, if it is valid base64.
pub uninterp spec fn base64_decoded(s: Seq<char>) -> Option<Seq<u8>>;

/// The characters of the standard base64 alphabet, padding included.
pub open spec fn is_base64_char(c: char) -> bool {
    ('A' <= c && c <= 'Z') || ('a' <= c && c <= 'z') || ('0' <= c && c <= '9') || c == '+' || c
        == '/' || c == '='
}

/// ASCII letters and digits.
pub open spec fn is_alphanumeric(c: char) -> bool {
    ('A' <= c && c <= 'Z') || ('a' <= c && c <= 'z') || ('0' <= c && c <= '9')
}

/// Relies on serde_json::to_string: the compact JSON text of the document.
/// A `Value` serializes with string keys only, into memory, so it never fails.
#[verifier::external_body]
pub(crate) fn json_text(v: &serde_json::Value) -> (r: Option<String>)
    ensures
        r is Some,
        r is Some ==> r->0@ == json_of(*v),
{
    serde_json::to_string(v).ok()
}

/// Relies on serde_json::from_slice: parses one JSON document from the bytes.
#[verifier::external_body]
pub(crate) fn parse_json(b: &[u8]) -> (r: Option<serde_json::Value>)
    ensures
        r == json_parsed(b@),
{
    serde_json::from_slice(b).ok()
}

/// Relies on base64::encode (standard alphabet, with padding): four characters
/// of the alphabet for each started group of three bytes.
#[verifier::external_body]
pub(crate) fn base64_text(b: &[u8]) -> (r: String)
    ensures
        r@ == base64_of(b@),
        r@.len() == 4 * ((b@.len() + 2) / 3),
        forall|i: int| 0 <= i < r@.len() ==> is_base64_char(#[trigger] r@[i]),
{
    base64::encode(b)
}

/// Relies on base64::decode (standard alphabet, with padding) of the text.
#[verifier::external_body]
pub(crate) fn base64_bytes(s: &[char]) -> (r: Option<Vec<u8>>)
    ensures
        r is Some <==> base64_decoded(s@) is Some,
        r is Some ==> r->0@ == base64_decoded(s@)->0,
{
    let text: String = s.iter().collect();
    base64::decode(text).ok()
}

/// Relies on rand's thread-local generator and the Alphanumeric distribution:
/// `len` characters, each an ASCII letter or digit.
#[verifier::external_body]
pub(crate) fn random_key(len: usize) -> (r: String)
    ensures
        r@.len() == len,
        forall|i: int| 0 <= i < len ==> is_alphanumeric(#[trigger] r@[i]),
{
    rand::thread_rng().sample_iter(&rand_distr::Alphanumeric).take(len).map(|b| b as char).collect()
}

/// Relies on String::push: appends one character.
#[verifier::external_body]
pub(crate) fn push_char(s: &mut String, c: char)
    ensures
        final(s)@ == old(s)@.push(c),
{
    s.push(c)
}

} // verus!
