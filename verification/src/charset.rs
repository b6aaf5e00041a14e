//! Letters of the single-byte Windows-1251 encoding as information vectors.

use crate::bits::{bits_byte, byte_bits};
use crate::encoding::InfoVector;
use encoding_rs::WINDOWS_1251;
use vstd::prelude::*;

verus! {

/// The bytes that `encoding_rs` gives when it encodes the text made of
/// `letter` alone as Windows-1251: one byte for a letter that the encoding
/// has, and a longer numeric character reference for any other.
pub uninterp spec fn cp1251_bytes(letter: char) -> Seq<u8>;

/// The text that `encoding_rs` gives when it decodes the single byte `byte`
/// as Windows-1251.
pub uninterp spec fn cp1251_text(byte: u8) -> Seq<char>;

/// Encodes the text made of `letter` alone with
/// `encoding_rs::Encoding::encode` on `WINDOWS_1251`. The bytes depend on
/// the letter alone; they are named, not described.
#[verifier::external_body]
fn encode_cp1251(letter: char) -> (bytes: Vec<u8>)
    ensures
        bytes@ == cp1251_bytes(letter),
{
    let string_buf = String::from(letter);
    WINDOWS_1251.encode(&string_buf).0.to_vec()
}

/// Decodes the single byte `byte` with `encoding_rs::Encoding::decode` on
/// `WINDOWS_1251`. The text depends on the byte alone; it is named, not
/// described.
#[verifier::external_body]
fn decode_cp1251(byte: u8) -> (text: String)
    ensures
        text@ == cp1251_text(byte),
{
    let buf = [byte];
    WINDOWS_1251.decode(&buf).0.into_owned()
}

/// The bits of the one byte that stands for `letter` in Windows-1251.
pub fn into_cp1251_bits(letter: char) -> (info: InfoVector)
    requires
        cp1251_bytes(letter).len() == 1,
    ensures
        info@ == byte_bits(cp1251_bytes(letter)[0]),
{
    let buf = encode_cp1251(letter);
    InfoVector::from(buf[0])
}

/// The bits of the one byte that stands for `letter` in Windows-1251, or
/// nothing for a letter that the encoding does not render as one byte.
pub fn try_into_cp1251_bits(letter: char) -> (info: Option<InfoVector>)
    ensures
        cp1251_bytes(letter).len() == 1 ==> info is Some && info->Some_0@ == byte_bits(
            cp1251_bytes(letter)[0],
        ),
        cp1251_bytes(letter).len() != 1 ==> info is None,
{
    let buf = encode_cp1251(letter);
    if buf.len() == 1 {
        Some(into_cp1251_bits(letter))
    } else {
        None
    }
}

/// The text of the Windows-1251 byte that eight bits spell.
pub fn from_cp1251_bits(info: &InfoVector) -> (text: String)
    ensures
        text@ == cp1251_text(bits_byte(info@) as u8),
{
    let byte = u8::from(info);
    decode_cp1251(byte)
}

} // verus!
