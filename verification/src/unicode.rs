//! What the standard library knows of Unicode: the case of letters and UTF-8.

use vstd::prelude::*;
use vstd::utf8;

use crate::text;

verus! {

broadcast use utf8::encode_utf8_decode_utf8;

/// The text with small letters for its ASCII capital letters.
pub open spec fn ascii_lowercase(s: Seq<char>) -> Seq<char> {
    s.map_values(|c: char| text::ascii_small(c))
}

/// The text that `str::to_lowercase` makes of a text that is not ASCII.
pub uninterp spec fn unicode_lowercase(s: Seq<char>) -> Seq<char>;

/// The text in small letters.
pub open spec fn lowercase(s: Seq<char>) -> Seq<char> {
    if utf8::is_ascii_chars(s) {
        ascii_lowercase(s)
    } else {
        unicode_lowercase(s)
    }
}

/// The characters that `char::to_uppercase` makes of a character that is not ASCII.
pub uninterp spec fn unicode_uppercase(c: char) -> Seq<char>;

/// The character in capital letters.
pub open spec fn uppercase(c: char) -> Seq<char> {
    if c <= '\u{7f}' {
        seq![text::ascii_capital(c)]
    } else {
        unicode_uppercase(c)
    }
}

/// `str::to_lowercase` maps the text to its small letters by the tables of Unicode, which
/// depend on nothing but the text. Of ASCII text it makes small the letters `A` to `Z`, and
/// leaves the other characters.
pub assume_specification[ str::to_lowercase ](s: &str) -> (r: String)
    ensures
        utf8::is_ascii_chars(s@) ==> r@ == ascii_lowercase(s@),
        !utf8::is_ascii_chars(s@) ==> r@ == unicode_lowercase(s@),
;

/// `char::to_uppercase` maps the character to its capital letters by the tables of Unicode,
/// which depend on nothing but the character; the result may be longer than one character. Of
/// the ASCII characters it makes capital the letters `a` to `z`, and leaves the others.
#[verifier::external_body]
pub(crate) fn char_to_uppercase(c: char) -> (r: String)
    ensures
        c <= '\u{7f}' ==> r@ == seq![text::ascii_capital(c)],
        c > '\u{7f}' ==> r@ == unicode_uppercase(c),
{
    c.to_uppercase().collect()
}

/// The error of `str::from_utf8`, which says where the bytes stop to be UTF-8.
#[verifier::external_type_specification]
#[verifier::external_body]
pub struct ExUtf8Error(core::str::Utf8Error);

/// `str::from_utf8` gives the text whose UTF-8 encoding the bytes are, and an error exactly
/// if the bytes are not valid UTF-8.
pub assume_specification<'a>[ core::str::from_utf8 ](v: &'a [u8]) -> (r: Result<
    &'a str,
    core::str::Utf8Error,
>)
    ensures
        r is Ok <==> utf8::valid_utf8(v@),
        r matches Ok(s) ==> utf8::encode_utf8(s@) == v@,
;

/// The text that UTF-8 bytes encode; bytes that are not UTF-8 encode none.
pub open spec fn utf8_text(v: Seq<u8>) -> Option<Seq<char>> {
    if utf8::valid_utf8(v) {
        Some(utf8::decode_utf8(v))
    } else {
        None
    }
}

/// Decodes UTF-8 bytes.
pub fn utf8_string(v: &[u8]) -> (r: Option<String>)
    ensures
        text::text_of(r) == utf8_text(v@),
{
    match core::str::from_utf8(v) {
        Ok(s) => {
            Some(s.to_owned())
        },
        Err(_) => None,
    }
}

/// The text that `String::from_utf8_lossy` makes of bytes.
pub uninterp spec fn lossy_text(v: Seq<u8>) -> Seq<char>;

/// `String::from_utf8_lossy` decodes UTF-8 bytes, and puts replacement characters where the
/// bytes are not UTF-8. It depends on nothing but the bytes.
#[verifier::external_body]
pub(crate) fn lossy_string(v: &[u8]) -> (r: String)
    ensures
        r@ == lossy_text(v@),
        utf8::valid_utf8(v@) ==> r@ == utf8::decode_utf8(v@),
{
    String::from_utf8_lossy(v).into_owned()
}

} // verus!
