//! Bytes as text.

use crate::error::CipherError;
use core::char::ParseCharError;
use core::str::{FromStr, Utf8Error};
use std::string::FromUtf8Error;
use vstd::prelude::*;
use vstd::utf8::{decode_utf8, encode_scalar, is_scalar, valid_utf8};

verus! {

/// The error of `String::from_utf8`. Nothing is known of what it holds.
#[verifier::external_type_specification]
#[verifier::external_body]
pub struct ExFromUtf8Error(FromUtf8Error);

/// `String::from_utf8` succeeds on the byte sequences that are UTF-8, and on
/// no others; the string it gives then holds the characters that the bytes
/// encode.
pub assume_specification[ String::from_utf8 ](vec: Vec<u8>) -> (result: Result<
    String,
    FromUtf8Error,
>)
    ensures
        result is Ok <==> valid_utf8(vec@),
        result matches Ok(text) ==> text@ == decode_utf8(vec@),
;

/// The string that `bytes` are the UTF-8 form of, for bytes that a
/// transform gave.
pub fn from_utf8_output(bytes: Vec<u8>) -> (result: Result<String, CipherError>)
    ensures
        match result {
            Ok(text) => valid_utf8(bytes@) && text@ == decode_utf8(bytes@),
            Err(e) => !valid_utf8(bytes@) && e == CipherError::InvalidUtf8Output,
        },
{
    match String::from_utf8(bytes) {
        Ok(text) => Ok(text),
        Err(_) => Err(CipherError::InvalidUtf8Output),
    }
}

/// The error of `core::str::from_utf8`. Nothing is known of what it holds.
#[verifier::external_type_specification]
#[verifier::external_body]
pub struct ExUtf8Error(Utf8Error);

/// `core::str::from_utf8` succeeds on the byte sequences that are UTF-8, and
/// on no others; the string slice it gives then holds the characters that
/// the bytes encode.
pub assume_specification[ core::str::from_utf8 ](v: &[u8]) -> (result: Result<&str, Utf8Error>)
    ensures
        result is Ok <==> valid_utf8(v@),
        result matches Ok(text) ==> text@ == decode_utf8(v@),
;

/// The error of parsing a `char`. Nothing is known of what it holds.
#[verifier::external_type_specification]
#[verifier::external_body]
pub struct ExParseCharError(ParseCharError);

/// Parsing a `char` succeeds on the strings of one character, and on no
/// others, and gives that character.
pub assume_specification[ <char as FromStr>::from_str ](s: &str) -> (result: Result<
    char,
    <char as FromStr>::Err,
>)
    ensures
        result is Ok <==> s@.len() == 1,
        result matches Ok(c) ==> c == s@[0],
;

/// `char::from_u32` gives the character with the code point `i`, and
/// nothing where `i` is the code point of no character.
pub assume_specification[ char::from_u32 ](i: u32) -> (result: Option<char>)
    ensures
        result is Some <==> is_scalar(i),
        result matches Some(c) ==> c as u32 == i,
;

/// `char::encode_utf8`: writes the UTF-8 form of `c` to the front of `buf`
/// and tells how many bytes that were.
#[verifier::external_body]
pub(crate) fn encode_char(c: char, buf: &mut [u8; 4]) -> (len: usize)
    ensures
        1 <= len <= 4,
        final(buf)@.take(len as int) == encode_scalar(c as u32),
{
    c.encode_utf8(buf).len()
}

} // verus!
