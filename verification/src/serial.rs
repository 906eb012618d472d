//! Hexadecimal and base-64 text through the `rustc-serialize` crate.

use vstd::prelude::*;
use rustc_serialize::base64::{FromBase64, FromBase64Error};
use rustc_serialize::hex::{FromHex, FromHexError, ToHex};
use crate::encoding::hex_nibble;

verus! {

/// The error type of `rustc-serialize`'s hexadecimal decoding.
#[verifier::external_type_specification]
#[verifier::external_body]
pub struct ExFromHexError(FromHexError);

/// The error type of `rustc-serialize`'s base-64 decoding.
#[verifier::external_type_specification]
#[verifier::external_body]
pub struct ExFromBase64Error(FromBase64Error);

/// Why a text could not be decoded.
#[derive(Debug, Clone, Copy, PartialEq, Eq, Structural)]
pub enum DecodeError {
    /// The text is not valid hexadecimal.
    InvalidHex,
    /// The text is not valid base 64.
    InvalidBase64,
}

/// The lower-case hexadecimal digit of `d` (for `d < 16`).
pub open spec fn lower_hex_char(d: nat) -> char {
    if d < 10 {
        (48 + d) as char
    } else {
        (87 + d) as char
    }
}

/// Two lower-case hexadecimal digits per byte, high half first.
pub open spec fn hex_encode(bytes: Seq<u8>) -> Seq<char> {
    Seq::new(
        2 * bytes.len(),
        |j: int|
            if j % 2 == 0 {
                lower_hex_char((bytes[j / 2] / 16) as nat)
            } else {
                lower_hex_char((bytes[j / 2] % 16) as nat)
            },
    )
}

/// A byte that hexadecimal decoding skips: space, tab, CR or LF.
pub open spec fn is_hex_space(b: u8) -> bool {
    b == 32 || b == 9 || b == 13 || b == 10
}

/// A hexadecimal digit of either case.
pub open spec fn is_hex_digit(b: u8) -> bool {
    (48 <= b <= 57) || (65 <= b <= 70) || (97 <= b <= 102)
}

/// Strict hexadecimal decoding: spaces, tabs and line breaks are skipped;
/// every other byte must be a digit and the digits must come in pairs.
pub open spec fn hex_decode_strict(s: Seq<u8>) -> Option<Seq<u8>> {
    let d = s.filter(|b: u8| !is_hex_space(b));
    if (forall|i: int| 0 <= i < d.len() ==> is_hex_digit(#[trigger] d[i])) && d.len() % 2 == 0 {
        Some(Seq::new(d.len() / 2, |k: int| (hex_nibble(d[2 * k]) * 16 + hex_nibble(d[2 * k + 1])) as u8))
    } else {
        None
    }
}

/// What `rustc-serialize` decodes from the base-64 text `s` (standard or
/// URL-safe alphabet, line breaks skipped, `=` padding), or `None` where it
/// reports an error.
pub uninterp spec fn rs_base64_decode(s: Seq<char>) -> Option<Seq<u8>>;

/// Writes bytes as lower-case hexadecimal, calling `rustc-serialize`'s
/// `ToHex::to_hex` on the slice.
///
/// Trusted: the contract says that the text is two lower-case digits per
/// byte, high half first, which is what the crate's loop over its table
/// `"0123456789abcdef"` builds.
#[verifier::external_body]
fn to_hex(bytes: &[u8]) -> (s: String)
    ensures
        s@ == hex_encode(bytes@),
{
    bytes.to_hex()
}

/// Reads hexadecimal text, calling `rustc-serialize`'s `FromHex::from_hex` on
/// the string.
///
/// Trusted: the contract says that the call succeeds exactly when, spaces,
/// tabs and line breaks skipped, every byte is a digit of either case and the
/// digits come in pairs, and that it then returns one byte per pair; this is
/// the crate's loop. Which error it reports is not stated.
#[verifier::external_body]
fn from_hex(s: &str) -> (r: Result<Vec<u8>, FromHexError>)
    ensures
        match r {
            Ok(v) => hex_decode_strict(vstd::utf8::encode_utf8(s@)) == Some(v@),
            Err(_) => hex_decode_strict(vstd::utf8::encode_utf8(s@)) is None,
        },
{
    s.from_hex()
}

/// Reads base-64 text, calling `rustc-serialize`'s `FromBase64::from_base64`
/// on the string.
///
/// Trusted: the contract only names the outcome, `rs_base64_decode` of the
/// text, as a function of the text alone; the crate's decoding rules are not
/// written out, and which error it reports is not stated.
#[verifier::external_body]
fn from_base64(s: &str) -> (r: Result<Vec<u8>, FromBase64Error>)
    ensures
        match r {
            Ok(v) => rs_base64_decode(s@) == Some(v@),
            Err(_) => rs_base64_decode(s@) is None,
        },
{
    s.from_base64()
}

/// The hexadecimal text of `data` XORed with the repeating key `key`.
pub fn repeating_key_xor_hex(data: &[u8], key: &[u8]) -> (hex: String)
    requires
        data@.len() > 0 ==> key@.len() > 0,
    ensures
        hex@ == hex_encode(crate::xor::repeating_key_xor(data@, key@)),
{
    let mut encoded: Vec<u8> = vec![0; data.len()];
    crate::xor::repeating_seq_xor(data, &mut encoded, key);
    proof {
        assert(encoded@ =~= crate::xor::repeating_key_xor(data@, key@));
    }
    to_hex(encoded.as_slice())
}

/// Strictly decodes hexadecimal text (see `hex_decode_strict`).
pub fn decode_hex(hex: &str) -> (r: Result<Vec<u8>, DecodeError>)
    ensures
        match r {
            Ok(v) => hex_decode_strict(vstd::utf8::encode_utf8(hex@)) == Some(v@),
            Err(e) => hex_decode_strict(vstd::utf8::encode_utf8(hex@)) is None && e == DecodeError::InvalidHex,
        },
{
    match from_hex(hex) {
        Ok(v) => Ok(v),
        Err(_) => Err(DecodeError::InvalidHex),
    }
}

/// The lines of a text joined with nothing between them.
pub open spec fn joined(lines: Seq<String>) -> Seq<char>
    decreases lines.len(),
{
    if lines.len() == 0 {
        Seq::empty()
    } else {
        joined(lines.drop_last()) + lines.last()@
    }
}

/// Joins the lines of a base-64 text and decodes it.
pub fn bin_from_b64_lines(lines: &Vec<String>) -> (r: Result<Vec<u8>, DecodeError>)
    ensures
        match r {
            Ok(v) => rs_base64_decode(joined(lines@)) == Some(v@),
            Err(e) => rs_base64_decode(joined(lines@)) is None && e == DecodeError::InvalidBase64,
        },
{
    let mut cipher_text: String = String::new();
    let mut i: usize = 0;
    while i < lines.len()
        invariant
            i <= lines@.len(),
            cipher_text@ == joined(lines@.take(i as int)),
        decreases lines@.len() - i,
    {
        proof {
            assert(lines@.take(i + 1).drop_last() =~= lines@.take(i as int));
        }
        cipher_text.append(lines[i].as_str());
        i += 1;
    }
    proof {
        assert(lines@.take(lines@.len() as int) =~= lines@);
    }
    match from_base64(cipher_text.as_str()) {
        Ok(v) => Ok(v),
        Err(_) => Err(DecodeError::InvalidBase64),
    }
}

} // verus!
