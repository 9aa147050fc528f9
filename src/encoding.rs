//! The calls into data_encoding that turn bytes into text and back.
use vstd::prelude::*;

verus! {

/// The largest input data_encoding encodes without risk of a panic in its
/// length computation.
pub const ENCODE_LIMIT: usize = usize::MAX / 512;

/// The longest text the decoders take: data_encoding decodes at most
/// `usize::MAX / 8` bytes without risk of a panic, and a character is at most
/// four bytes of UTF-8.
pub const DECODE_LIMIT: usize = usize::MAX / 32;

/// The 64 symbols of the bcrypt alphabet, in value order.
pub const BCRYPT_SYMBOLS: &'static str = "./ABCDEFGHIJKLMNOPQRSTUVWXYZabcdefghijklmnopqrstuvwxyz0123456789";

#[verifier::external_type_specification]
#[verifier::external_body]
pub struct ExDecodeError(data_encoding::DecodeError);

/// Unpadded standard base64 of some bytes.
pub uninterp spec fn base64_text(b: Seq<u8>) -> Seq<char>;

/// Unpadded base64 of some bytes in the bcrypt alphabet.
pub uninterp spec fn bcrypt_text(b: Seq<u8>) -> Seq<char>;

/// Symbols for `n` bytes at six bits a symbol, without padding.
pub open spec fn encoded_len(n: nat) -> nat {
    (4 * n + 2) / 3
}

pub open spec fn in_range(c: char, lo: char, hi: char) -> bool {
    (lo as u32) <= (c as u32) <= (hi as u32)
}

pub open spec fn alnum(c: char) -> bool {
    in_range(c, 'A', 'Z') || in_range(c, 'a', 'z') || in_range(c, '0', '9')
}

pub open spec fn base64_symbol(c: char) -> bool {
    alnum(c) || c == '+' || c == '/'
}

pub open spec fn bcrypt_symbol(c: char) -> bool {
    alnum(c) || c == '.' || c == '/'
}

/// Relies on `data_encoding::BASE64_NOPAD.encode`: one symbol of
/// `A-Za-z0-9+/` for each six bits, no padding.
#[verifier::external_body]
pub(crate) fn base64_encode(b: &Vec<u8>) -> (r: Vec<char>)
    requires
        b@.len() <= ENCODE_LIMIT,
    ensures
        r@ == base64_text(b@),
        r@.len() == encoded_len(b@.len()),
        forall|i: int| 0 <= i < r@.len() ==> base64_symbol(#[trigger] r@[i]),
{
    data_encoding::BASE64_NOPAD.encode(b).chars().collect()
}

/// Relies on `data_encoding::BASE64_NOPAD.decode`, which is canonical: it
/// accepts exactly the texts that `encode` produces, and gives back the bytes
/// they encode.
#[verifier::external_body]
pub(crate) fn base64_decode(t: &Vec<char>) -> (r: Result<Vec<u8>, data_encoding::DecodeError>)
    requires
        t@.len() <= DECODE_LIMIT,
    ensures
        forall|w: Seq<u8>| #[trigger] base64_text(w) == t@ <==> (r matches Ok(v) && v@ == w),
{
    let s: String = t.iter().collect();
    data_encoding::BASE64_NOPAD.decode(s.as_bytes())
}

/// Relies on `data_encoding::Specification` with the bcrypt symbols and its
/// defaults (no padding, trailing bits checked), and on its `encode`: one
/// symbol for each six bits.
#[verifier::external_body]
pub(crate) fn bcrypt_encode(b: &Vec<u8>) -> (r: Vec<char>)
    requires
        b@.len() <= ENCODE_LIMIT,
    ensures
        r@ == bcrypt_text(b@),
        r@.len() == encoded_len(b@.len()),
        forall|i: int| 0 <= i < r@.len() ==> bcrypt_symbol(#[trigger] r@[i]),
{
    let mut spec = data_encoding::Specification::new();
    spec.symbols.push_str(BCRYPT_SYMBOLS);
    spec.encoding().unwrap().encode(b).chars().collect()
}

/// Relies on `data_encoding::Specification` with the bcrypt symbols and its
/// defaults, and on its `decode`, which is canonical for that specification:
/// it accepts exactly the texts that `encode` produces.
#[verifier::external_body]
pub(crate) fn bcrypt_decode(t: &Vec<char>) -> (r: Result<Vec<u8>, data_encoding::DecodeError>)
    requires
        t@.len() <= DECODE_LIMIT,
    ensures
        forall|w: Seq<u8>| #[trigger] bcrypt_text(w) == t@ <==> (r matches Ok(v) && v@ == w),
{
    let mut spec = data_encoding::Specification::new();
    spec.symbols.push_str(BCRYPT_SYMBOLS);
    let s: String = t.iter().collect();
    spec.encoding().unwrap().decode(s.as_bytes())
}

} // verus!
