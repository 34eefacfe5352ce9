//! Conversions between string slices, their characters and their UTF-8
//! bytes, which std offers and vstd does not specify.
use vstd::prelude::*;
use vstd::utf8::{decode_utf8, valid_utf8};

verus! {

/// `str::chars` collected into a vector: the characters of `text`, in order.
#[verifier::external_body]
pub(crate) fn chars_of(text: &str) -> (chars: Vec<char>)
    ensures
        chars@ == text@,
{
    text.chars().collect()
}

/// `String` collected from characters (`FromIterator<char>`): the string
/// whose characters are `chars`, in order.
#[verifier::external_body]
pub(crate) fn string_from_chars(chars: &[char]) -> (s: String)
    ensures
        s@ == chars@,
{
    chars.iter().collect()
}

/// `std::str::from_utf8`: the text that `bytes` encode, or `None` where they
/// are not valid UTF-8.
#[verifier::external_body]
pub(crate) fn utf8_text(bytes: &[u8]) -> (text: Option<&str>)
    ensures
        text is Some <==> valid_utf8(bytes@),
        text matches Some(t) ==> t@ == decode_utf8(bytes@),
{
    std::str::from_utf8(bytes).ok()
}

} // verus!
