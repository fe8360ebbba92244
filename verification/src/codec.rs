//! Binary payloads as text: base64 outside, UTF-8 inside.

use vstd::prelude::*;
use vstd::string::StrSliceExecFns;
use vstd::utf8::{decode_utf8, encode_utf8, valid_utf8};

verus! {

/// The bytes that `cosmwasm_std::Binary::from_base64` reads from `text`, or
/// nothing where it refuses `text`. It reads the standard alphabet and takes
/// the padding or its absence.
pub uninterp spec fn base64_decoded(text: Seq<char>) -> Option<Seq<u8>>;

/// The text that `cosmwasm_std::Binary::to_base64` writes for `bytes`: the
/// standard alphabet, padded.
pub uninterp spec fn base64_encoded(bytes: Seq<u8>) -> Seq<char>;

/// `cosmwasm_std::StdError`: why a text was refused as base64.
#[verifier::external_type_specification]
#[verifier::external_body]
pub struct ExStdError(cosmwasm_std::StdError);

/// `cosmwasm_std::Binary::from_base64`: the decoded bytes, or the error of a
/// text that is no base64.
#[verifier::external_body]
fn binary_from_base64(text: &str) -> (res: Result<Vec<u8>, cosmwasm_std::StdError>)
    ensures
        match res {
            Ok(bytes) => base64_decoded(text@) == Some(bytes@),
            Err(_) => base64_decoded(text@) is None,
        },
{
    cosmwasm_std::Binary::from_base64(text).map(|binary| binary.0)
}

/// Bytes short enough for their base64 form to have a length: the encoder
/// gives up on more than these. No vector in memory is longer.
pub open spec fn encodable(bytes: Seq<u8>) -> bool {
    bytes.len() <= usize::MAX / 2
}

/// `cosmwasm_std::Binary::to_base64`: the encoding of `bytes`, which decodes
/// to `bytes` again. It panics where the length of the encoding overflows,
/// so such bytes are kept out.
#[verifier::external_body]
fn binary_to_base64(bytes: &Vec<u8>) -> (text: String)
    requires
        encodable(bytes@),
    ensures
        text@ == base64_encoded(bytes@),
        base64_decoded(text@) == Some(bytes@),
{
    cosmwasm_std::Binary::from(bytes.as_slice()).to_base64()
}

/// `String::from_utf8` of std: the text that `bytes` encode, or nothing where
/// they are no UTF-8.
#[verifier::external_body]
fn string_from_utf8(bytes: Vec<u8>) -> (res: Option<String>)
    ensures
        match res {
            Some(text) => valid_utf8(bytes@) && text@ == decode_utf8(bytes@),
            None => !valid_utf8(bytes@),
        },
{
    String::from_utf8(bytes).ok()
}

/// Is `text` the base64 form of some bytes? This looks at the form alone,
/// not at what the bytes hold.
pub fn is_binary_field(text: &str) -> (b: bool)
    ensures
        b == base64_decoded(text@).is_some(),
{
    binary_from_base64(text).is_ok()
}

/// The bytes that a base64 text holds, if it is one.
pub fn decode_binary(text: &str) -> (res: Option<Vec<u8>>)
    ensures
        match res {
            Some(bytes) => base64_decoded(text@) == Some(bytes@),
            None => base64_decoded(text@) is None,
        },
{
    match binary_from_base64(text) {
        Ok(bytes) => Some(bytes),
        Err(_) => None,
    }
}

/// The base64 text for `bytes`, or nothing where they are too many to
/// encode. Decoding the text gives `bytes` back.
pub fn encode_binary(bytes: &Vec<u8>) -> (res: Option<String>)
    ensures
        match res {
            Some(text) => encodable(bytes@) && text@ == base64_encoded(bytes@) && base64_decoded(
                text@,
            ) == Some(bytes@),
            None => !encodable(bytes@),
        },
{
    if bytes.len() <= usize::MAX / 2 {
        Some(binary_to_base64(bytes))
    } else {
        None
    }
}

/// The text that `bytes` are the UTF-8 encoding of, if they are one.
pub fn text_of_bytes(bytes: Vec<u8>) -> (res: Option<String>)
    ensures
        match res {
            Some(text) => valid_utf8(bytes@) && text@ == decode_utf8(bytes@),
            None => !valid_utf8(bytes@),
        },
{
    string_from_utf8(bytes)
}

/// The UTF-8 encoding of `text`. Reading it as text gives `text` back.
pub fn bytes_of_text(text: &str) -> (bytes: Vec<u8>)
    ensures
        bytes@ == encode_utf8(text@),
        valid_utf8(bytes@),
        decode_utf8(bytes@) == text@,
{
    proof {
        vstd::utf8::encode_utf8_valid_utf8(text@);
        vstd::utf8::encode_utf8_decode_utf8(text@);
    }
    text.as_bytes_vec()
}

} // verus!
