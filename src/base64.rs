//! Byte fields as unpadded standard base64.
use vstd::prelude::*;
use crate::encoding::{
    base64_decode, base64_encode, base64_symbol, base64_text, encoded_len, DECODE_LIMIT, ENCODE_LIMIT,
};
use crate::shape::{Error, Fault};
use crate::text::{chars_of, string_of};

verus! {

/// The text of a byte field; `None` for an input too long to encode.
pub open spec fn bytes_text(b: Seq<u8>) -> Option<Seq<char>> {
    if b.len() <= ENCODE_LIMIT {
        Some(base64_text(b))
    } else {
        None
    }
}

/// Every character of `t` is a symbol of unpadded standard base64.
pub open spec fn base64_symbols(t: Seq<char>) -> bool {
    forall|i: int| 0 <= i < t.len() ==> base64_symbol(#[trigger] t[i])
}

/// The bytes a field's text encodes; `None` where it is no encoding, or too
/// long to decode.
pub open spec fn bytes_of(t: Seq<char>) -> Option<Seq<u8>> {
    if t.len() <= DECODE_LIMIT && exists|w: Seq<u8>| base64_text(w) == t {
        Some(choose|w: Seq<u8>| base64_text(w) == t)
    } else {
        None
    }
}

/// Encodes bytes as the characters of a field.
pub fn encode_bytes(b: &Vec<u8>) -> (r: Option<Vec<char>>)
    ensures
        match r {
            Some(t) => bytes_text(b@) == Some(t@) && t@.len() == encoded_len(b@.len())
                && base64_symbols(t@),
            None => bytes_text(b@) is None,
        },
{
    if b.len() > ENCODE_LIMIT {
        None
    } else {
        Some(base64_encode(b))
    }
}

/// Decodes the characters of a field into bytes.
pub fn decode_bytes(t: &Vec<char>) -> (r: Result<Vec<u8>, Error>)
    ensures
        match r {
            Ok(b) => bytes_of(t@) == Some(b@) && base64_text(b@) == t@ && forall|w: Seq<u8>|
                #[trigger] base64_text(w) == t@ ==> w == b@,
            Err(e) => bytes_of(t@) is None && e.view() == Fault::Encoding,
        },
{
    if t.len() > DECODE_LIMIT {
        return Err(Error::Encoding);
    }
    match base64_decode(t) {
        Ok(b) => {
            assert(base64_text(b@) == t@);
            Ok(b)
        },
        Err(_) => Err(Error::Encoding),
    }
}

/// Renders bytes as unpadded base64.
pub fn serialize(bytes: &Vec<u8>) -> (r: Result<String, Error>)
    ensures
        match r {
            Ok(s) => bytes_text(bytes@) == Some(s@) && s@.len() == encoded_len(bytes@.len())
                && base64_symbols(s@),
            Err(e) => bytes_text(bytes@) is None && e.view() == Fault::Unsupported,
        },
{
    match encode_bytes(bytes) {
        Some(t) => Ok(string_of(&t)),
        None => Err(Error::Unsupported),
    }
}

/// Reads unpadded base64; fails with `Encoding` on a symbol outside the
/// alphabet, a length no encoding has, or non-zero trailing bits.
pub fn deserialize(text: &str) -> (r: Result<Vec<u8>, Error>)
    ensures
        match r {
            Ok(b) => bytes_of(text@) == Some(b@) && base64_text(b@) == text@ && forall|w: Seq<u8>|
                #[trigger] base64_text(w) == text@ ==> w == b@,
            Err(e) => bytes_of(text@) is None && e.view() == Fault::Encoding,
        },
{
    decode_bytes(&chars_of(text))
}

} // verus!
