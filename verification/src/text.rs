//! From the bytes of a token to its text, and from the text to a value.
use crate::error::ExtractError;
use std::str::FromStr;
use vstd::prelude::*;
use vstd::utf8::{
    decode_utf8, encode_utf8, encode_utf8_decode_utf8, encode_utf8_valid_utf8, is_ascii_chars,
    is_ascii_chars_encode_utf8, valid_utf8,
};

verus! {

/// The characters that Unicode classes as `White_Space`: the ASCII controls
/// from tab to carriage return, the space, the next-line control, and the
/// spaces and separators beyond ASCII.
pub open spec fn is_whitespace(c: char) -> bool {
    let code = c as u32;
    ||| 0x0009 <= code <= 0x000D
    ||| code == 0x0020
    ||| code == 0x0085
    ||| code == 0x00A0
    ||| code == 0x1680
    ||| 0x2000 <= code <= 0x200A
    ||| code == 0x2028
    ||| code == 0x2029
    ||| code == 0x202F
    ||| code == 0x205F
    ||| code == 0x3000
}

/// `text` without the whitespace at its front.
pub open spec fn trimmed_start(text: Seq<char>) -> Seq<char>
    decreases text.len(),
{
    if text.len() > 0 && is_whitespace(text.first()) {
        trimmed_start(text.drop_first())
    } else {
        text
    }
}

/// `text` without the whitespace at its back.
pub open spec fn trimmed_end(text: Seq<char>) -> Seq<char>
    decreases text.len(),
{
    if text.len() > 0 && is_whitespace(text.last()) {
        trimmed_end(text.drop_last())
    } else {
        text
    }
}

/// `text` without the whitespace at its two ends.
pub open spec fn trimmed(text: Seq<char>) -> Seq<char> {
    trimmed_end(trimmed_start(text))
}

/// The text that the bytes of a token stand for, as it is handed to the
/// conversion: the bytes decoded as UTF-8, without the whitespace at the two
/// ends.
pub open spec fn text_of(token: Seq<u8>) -> Seq<char>
    recommends
        valid_utf8(token),
{
    trimmed(decode_utf8(token))
}

/// Decodes `bytes` with `String::from_utf8`, which gives the text when the
/// bytes are valid UTF-8 and an error when they are not. Not proved: that std
/// accepts exactly the sequences for which `valid_utf8` holds and decodes them
/// as `decode_utf8` says.
#[verifier::external_body]
fn decode(bytes: Vec<u8>) -> (text: Option<String>)
    ensures
        text is Some <==> valid_utf8(bytes@),
        text is Some ==> text->0@ == decode_utf8(bytes@),
{
    String::from_utf8(bytes).ok()
}

/// Trims `text` with `str::trim`, which gives the part of the text between
/// its leading and its trailing whitespace, whitespace being the characters
/// that Unicode classes as `White_Space`. Not proved: that std removes
/// exactly the characters for which `is_whitespace` holds.
#[verifier::external_body]
fn trim<'a>(text: &'a str) -> (inner: &'a str)
    ensures
        inner@ == trimmed(text@),
{
    text.trim()
}

/// Converts `text` with `str::parse`, which asks the `FromStr` impl of `T`;
/// `None` stands for its error. Nothing is claimed of the result: which texts
/// a type accepts, and as what value, is for that type to say. The impls of
/// std's own types give an answer for every text; an impl that panics takes
/// its caller with it.
#[verifier::external_body]
fn parse<T: FromStr>(text: &str) -> (value: Option<T>) {
    text.parse::<T>().ok()
}

/// The text of a token, ready for conversion; `Encoding` when the bytes are
/// not valid UTF-8.
pub fn token_text(token: Vec<u8>) -> (text: Result<String, ExtractError>)
    ensures
        valid_utf8(token@) ==> text is Ok && text->Ok_0@ == text_of(token@),
        !valid_utf8(token@) ==> text == Err::<String, ExtractError>(ExtractError::Encoding),
{
    match decode(token) {
        Some(decoded) => Ok(trim(decoded.as_str()).to_owned()),
        None => Err(ExtractError::Encoding),
    }
}

/// What a conversion's answer means for the extraction: the value, or `Parse`
/// when the destination type did not accept the text.
pub fn outcome<T>(parsed: Option<T>) -> (result: Result<T, ExtractError>)
    ensures
        result == match parsed {
            Some(value) => Ok::<T, ExtractError>(value),
            None => Err::<T, ExtractError>(ExtractError::Parse),
        },
{
    match parsed {
        Some(value) => Ok(value),
        None => Err(ExtractError::Parse),
    }
}

/// Converts the bytes of a token into a value of type `T`: decodes them,
/// trims the text and hands it to the conversion of `T`. Bytes that are not
/// valid UTF-8 give `Encoding` and are not handed on; for valid bytes the
/// result is the value the conversion gave, or `Parse` when it gave none.
pub fn convert<T: FromStr>(token: Vec<u8>) -> (result: Result<T, ExtractError>)
    ensures
        !valid_utf8(token@) ==> result matches Err(ExtractError::Encoding),
        valid_utf8(token@) ==> result is Ok || result matches Err(ExtractError::Parse),
{
    match token_text(token) {
        Ok(text) => outcome(parse::<T>(text.as_str())),
        Err(error) => Err(error),
    }
}

/// The characters that the bytes of an ASCII token stand for, one for each
/// byte.
pub open spec fn ascii_text(token: Seq<u8>) -> Seq<char> {
    Seq::new(token.len(), |i: int| token[i] as char)
}

/// A token of ASCII bytes that neither begins nor ends with whitespace is
/// valid UTF-8, and the text that is handed to the conversion is the token
/// itself, character for character.
pub proof fn lemma_ascii_token_text(token: Seq<u8>)
    requires
        forall|i: int| 0 <= i < token.len() ==> token[i] < 0x80,
        token.len() > 0 ==> !is_whitespace(token.first() as char) && !is_whitespace(
            token.last() as char,
        ),
    ensures
        valid_utf8(token),
        text_of(token) == ascii_text(token),
{
    let text = ascii_text(token);
    assert(is_ascii_chars(text));
    is_ascii_chars_encode_utf8(text);
    assert(encode_utf8(text) =~= token);
    encode_utf8_valid_utf8(text);
    encode_utf8_decode_utf8(text);
}

} // verus!
