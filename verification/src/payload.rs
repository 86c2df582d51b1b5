//! Binary payloads that arrive as base64 text, bare or as a data URL.

use crate::text::{chars_of, find_at, first_index};
use base64::Engine;
use vstd::prelude::*;
use vstd::string::StringExecFns;

verus! {

/// base64's `DecodeError`: why a text was rejected. Carried through as it
/// is; nothing is read from it but its description.
#[verifier::external_type_specification]
#[verifier::external_body]
pub struct ExDecodeError(base64::DecodeError);

/// What base64's `STANDARD` engine (standard alphabet, canonical padding)
/// decodes `text` to; `None` where it rejects `text`.
pub uninterp spec fn standard_decoding(text: Seq<char>) -> Option<Seq<u8>>;

/// `Engine::decode` of the base64 crate, on its `STANDARD` engine. Trusted:
/// the outcome is a function of the text alone, here given the name
/// `standard_decoding`; an error stands for a rejected text.
#[verifier::external_body]
fn decode_standard(text: &str) -> (r: Result<Vec<u8>, base64::DecodeError>)
    ensures
        match r {
            Ok(bytes) => standard_decoding(text@) == Some(bytes@),
            Err(_) => standard_decoding(text@) is None,
        },
{
    base64::engine::general_purpose::STANDARD.decode(text)
}

/// `to_string` of base64's `DecodeError`: the error in words. Nothing is
/// claimed of the text.
#[verifier::external_body]
fn describe(e: &base64::DecodeError) -> (r: String) {
    e.to_string()
}

/// The base64 text of `data`: what follows the first comma, so that the
/// header of a data URL is left out; all of `data` where it has no comma.
pub open spec fn payload_text(data: Seq<char>) -> Seq<char> {
    let n = first_index(data, ',');
    if 0 <= n < data.len() {
        data.skip(n + 1)
    } else {
        data
    }
}

/// The message for a payload that does not decode, with the decoder's
/// own words in `detail`.
pub open spec fn failure_text(detail: Seq<char>) -> Seq<char> {
    "Failed to decode base64: "@ + detail
}

/// The base64 text that `data` carries.
pub fn payload_of(data: &str) -> (r: &str)
    ensures
        r@ == payload_text(data@),
{
    let v = chars_of(data);
    let n = v.len();
    assert(v@.subrange(0, n as int) =~= v@);
    let p = find_at(&v, 0, n, ',');
    if p < n {
        assert(v@.skip(p + 1) =~= v@.subrange(p + 1, n as int));
        data.substring_char(p + 1, n)
    } else {
        data
    }
}

/// The error message for a payload that the decoder rejected with
/// `detail`.
pub fn failure_message(detail: &str) -> (r: String)
    ensures
        r@ == failure_text(detail@),
{
    String::from_str("Failed to decode base64: ").concat(detail)
}

/// Decodes the bytes that `base64_data` carries. Succeeds exactly where
/// the decoder accepts the payload text; otherwise the error is the
/// failure message with the decoder's description.
pub fn decode_payload(base64_data: &str) -> (r: Result<Vec<u8>, String>)
    ensures
        match r {
            Ok(bytes) => standard_decoding(payload_text(base64_data@)) == Some(bytes@),
            Err(msg) => standard_decoding(payload_text(base64_data@)) is None && exists|
                detail: Seq<char>,
            |
                msg@ == failure_text(detail),
        },
{
    let text = payload_of(base64_data);
    match decode_standard(text) {
        Ok(bytes) => Ok(bytes),
        Err(e) => {
            let detail = describe(&e);
            let msg = failure_message(detail.as_str());
            assert(msg@ == failure_text(detail@));
            Err(msg)
        },
    }
}

} // verus!
