//! The legacy bcrypt byte field: a salt and a hash, each in the bcrypt
//! alphabet, written back to back. Where one ends is fixed by the two byte
//! lengths the caller expects, not by the content.
use vstd::prelude::*;
use crate::encoding::{
    bcrypt_decode, bcrypt_encode, bcrypt_symbol, bcrypt_text, encoded_len, DECODE_LIMIT, ENCODE_LIMIT,
};
use crate::shape::{Error, Fault};
use crate::text::{chars_of, slice_chars, string_of};

verus! {

/// The text of a salt `a` and a hash `b` expected to hold `salt` and `hash`
/// bytes; `None` where a length differs.
pub open spec fn legacy_text(a: Seq<u8>, b: Seq<u8>, salt: nat, hash: nat) -> Option<Seq<char>> {
    if a.len() == salt && b.len() == hash && salt <= ENCODE_LIMIT && hash <= ENCODE_LIMIT {
        Some(bcrypt_text(a) + bcrypt_text(b))
    } else {
        None
    }
}

/// Where the salt's run ends.
pub open spec fn split_point(salt: nat) -> nat {
    encoded_len(salt)
}

/// Every character of `t` is a symbol of the bcrypt alphabet.
pub open spec fn bcrypt_symbols(t: Seq<char>) -> bool {
    forall|i: int| 0 <= i < t.len() ==> bcrypt_symbol(#[trigger] t[i])
}

/// The layout of a legacy field written for a salt of `salt` bytes and a hash
/// of `hash` bytes: two runs, cut where the salt's run ends, each the bcrypt
/// text of its bytes, all in the bcrypt alphabet.
pub open spec fn legacy_layout(t: Seq<char>, a: Seq<u8>, b: Seq<u8>, salt: nat, hash: nat) -> bool {
    &&& t.len() == split_point(salt) + encoded_len(hash)
    &&& t.subrange(0, split_point(salt) as int) == bcrypt_text(a)
    &&& t.subrange(split_point(salt) as int, t.len() as int) == bcrypt_text(b)
    &&& bcrypt_symbols(t)
}

/// Each run of a decoded legacy field is the bcrypt text of its bytes and of
/// no other bytes.
pub open spec fn runs_decode_to(t: Seq<char>, a: Seq<u8>, b: Seq<u8>, salt: nat) -> bool {
    let x = t.subrange(0, split_point(salt) as int);
    let y = t.subrange(split_point(salt) as int, t.len() as int);
    &&& bcrypt_text(a) == x
    &&& bcrypt_text(b) == y
    &&& forall|w: Seq<u8>| #[trigger] bcrypt_text(w) == x ==> w == a
    &&& forall|w: Seq<u8>| #[trigger] bcrypt_text(w) == y ==> w == b
}

/// The salt and hash that a legacy field encodes; `None` where its length is
/// not that of the two runs (or beyond what can be decoded), or a run is no
/// encoding.
pub open spec fn legacy_of(t: Seq<char>, salt: nat, hash: nat) -> Option<(Seq<u8>, Seq<u8>)> {
    let m = split_point(salt);
    let x = t.subrange(0, m as int);
    let y = t.subrange(m as int, t.len() as int);
    if t.len() != m + encoded_len(hash) || t.len() > DECODE_LIMIT {
        None
    } else if (exists|w: Seq<u8>| bcrypt_text(w) == x) && (exists|w: Seq<u8>|
        bcrypt_text(w) == y) {
        Some(
            (
                choose|w: Seq<u8>| bcrypt_text(w) == x,
                choose|w: Seq<u8>| bcrypt_text(w) == y,
            ),
        )
    } else {
        None
    }
}

/// Encodes a salt and a hash as the characters of one field.
pub fn encode_legacy(a: &Vec<u8>, b: &Vec<u8>, salt: usize, hash: usize) -> (r: Option<Vec<char>>)
    ensures
        match r {
            Some(t) => legacy_text(a@, b@, salt as nat, hash as nat) == Some(t@) && legacy_layout(
                t@,
                a@,
                b@,
                salt as nat,
                hash as nat,
            ),
            None => legacy_text(a@, b@, salt as nat, hash as nat) is None,
        },
{
    if a.len() != salt || b.len() != hash || salt > ENCODE_LIMIT || hash > ENCODE_LIMIT {
        return None;
    }
    let mut t = bcrypt_encode(a);
    let mut u = bcrypt_encode(b);
    let ghost t0 = t@;
    let ghost u0 = u@;
    t.append(&mut u);
    assert(t@ == t0 + bcrypt_text(b@));
    proof {
        assert(t@.subrange(0, t0.len() as int) =~= t0);
        assert(t@.subrange(t0.len() as int, t@.len() as int) =~= u0);
        assert forall|i: int| 0 <= i < t@.len() implies bcrypt_symbol(#[trigger] t@[i]) by {
            if i < t0.len() {
                assert(t@[i] == t0[i]);
            } else {
                assert(t@[i] == u0[i - t0.len()]);
            }
        }
    }
    Some(t)
}

/// Decodes a legacy field into its salt and hash.
pub fn decode_legacy(t: &Vec<char>, salt: usize, hash: usize) -> (r: Result<(Vec<u8>, Vec<u8>), Error>)
    ensures
        match r {
            Ok((a, b)) => legacy_of(t@, salt as nat, hash as nat) == Some((a@, b@)) && runs_decode_to(
                t@,
                a@,
                b@,
                salt as nat,
            ),
            Err(e) => legacy_of(t@, salt as nat, hash as nat) is None && e.view() == Fault::Encoding,
        },
{
    let m: u128 = (4 * (salt as u128) + 2) / 3;
    let n: u128 = (4 * (hash as u128) + 2) / 3;
    if t.len() as u128 != m + n || t.len() > DECODE_LIMIT {
        return Err(Error::Encoding);
    }
    let m = m as usize;
    let x = slice_chars(t, 0, m);
    let y = slice_chars(t, m, t.len());
    match (bcrypt_decode(&x), bcrypt_decode(&y)) {
        (Ok(a), Ok(b)) => {
            assert(bcrypt_text(a@) == x@);
            assert(bcrypt_text(b@) == y@);
            Ok((a, b))
        },
        _ => Err(Error::Encoding),
    }
}

/// Renders a salt and a hash of the expected lengths as one legacy field.
pub fn serialize(bytes: &(Vec<u8>, Vec<u8>), salt: usize, hash: usize) -> (r: Result<String, Error>)
    ensures
        match r {
            Ok(s) => legacy_text(bytes.0@, bytes.1@, salt as nat, hash as nat) == Some(s@)
                && legacy_layout(s@, bytes.0@, bytes.1@, salt as nat, hash as nat),
            Err(e) => legacy_text(bytes.0@, bytes.1@, salt as nat, hash as nat) is None
                && e.view() == Fault::Unsupported,
        },
{
    match encode_legacy(&bytes.0, &bytes.1, salt, hash) {
        Some(t) => Ok(string_of(&t)),
        None => Err(Error::Unsupported),
    }
}

/// Reads a legacy field: the text must be exactly as long as the two runs,
/// and is cut where the salt's run ends, whatever it holds.
pub fn deserialize(text: &str, salt: usize, hash: usize) -> (r: Result<(Vec<u8>, Vec<u8>), Error>)
    ensures
        text@.len() != split_point(salt as nat) + encoded_len(hash as nat) ==> r is Err,
        r matches Ok((a, b)) ==> runs_decode_to(text@, a@, b@, salt as nat),
        match r {
            Ok((a, b)) => legacy_of(text@, salt as nat, hash as nat) == Some((a@, b@)),
            Err(e) => legacy_of(text@, salt as nat, hash as nat) is None && e.view() == Fault::Encoding,
        },
{
    decode_legacy(&chars_of(text), salt, hash)
}

} // verus!
