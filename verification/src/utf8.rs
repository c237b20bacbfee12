//! UTF-8 decoding of byte runs, strict and lossy, and character building.
use vstd::prelude::*;
use vstd::utf8::{decode_utf8, valid_utf8};

verus! {

/// What `String::from_utf8_lossy` makes of the bytes.
pub uninterp spec fn lossy_text(b: Seq<u8>) -> Seq<char>;

/// The text of bytes read as `String::from_utf8_lossy` reads them: valid
/// UTF-8 is decoded as it is; other bytes give the text `lossy_text` names.
pub open spec fn lossy_decoded(b: Seq<u8>) -> Seq<char> {
    if valid_utf8(b) {
        decode_utf8(b)
    } else {
        lossy_text(b)
    }
}

/// `std::str::from_utf8`: the characters when the bytes are valid UTF-8.
pub open spec fn strict_text(b: Seq<u8>) -> Option<Seq<char>> {
    if valid_utf8(b) {
        Some(decode_utf8(b))
    } else {
        None
    }
}

/// `String::from_utf8_lossy`: the text of the bytes with each invalid
/// sequence replaced by U+FFFD; valid UTF-8 comes back unchanged.
#[verifier::external_body]
pub(crate) fn utf8_lossy(b: &[u8]) -> (r: String)
    ensures
        r@ == lossy_text(b@),
        valid_utf8(b@) ==> r@ == decode_utf8(b@),
{
    String::from_utf8_lossy(b).into_owned()
}

/// `std::str::from_utf8`: `Some` exactly when the bytes are valid UTF-8.
#[verifier::external_body]
pub(crate) fn utf8_strict(b: &[u8]) -> (r: Option<String>)
    ensures
        r matches Some(s) ==> strict_text(b@) == Some(s@),
        r is None ==> strict_text(b@) is None,
{
    match std::str::from_utf8(b) {
        Ok(s) => Some(s.to_string()),
        Err(_) => None,
    }
}

/// `String::push`.
#[verifier::external_body]
pub(crate) fn push_char(s: &mut String, c: char)
    ensures
        final(s)@ == old(s)@.push(c),
{
    s.push(c)
}

/// `char::from_u32`: `Some` for Unicode scalar values.
#[verifier::external_body]
pub(crate) fn char_from_u32(u: u32) -> (r: Option<char>)
    ensures
        r is Some <==> (u < 0x110000 && !(0xD800 <= u <= 0xDFFF)),
        r matches Some(c) ==> c as u32 == u,
{
    char::from_u32(u)
}

} // verus!
