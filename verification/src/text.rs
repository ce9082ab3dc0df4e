//! Trusted views of the text primitives the extractor is built on:
//! UTF-8 decoding, Unicode case folding, and character classification.

use vstd::prelude::*;
use vstd::utf8::{decode_utf8, valid_utf8};

verus! {

/// What `char::is_alphabetic` returns: whether the character has the
/// Unicode `Alphabetic` property.
pub uninterp spec fn is_alpha(c: char) -> bool;

/// What `char::is_whitespace` returns: whether the character has the
/// Unicode `White_Space` property.
pub uninterp spec fn is_white(c: char) -> bool;

/// What `str::to_lowercase` yields for a character sequence.
pub uninterp spec fn lower_of(s: Seq<char>) -> Seq<char>;

/// An ASCII capital letter, `'A'` through `'Z'`.
pub open spec fn is_ascii_upper(c: char) -> bool {
    65 <= c as u32 <= 90
}

/// Relies on `str::from_utf8`: it succeeds exactly on the byte sequences
/// that are valid UTF-8 and yields the characters they encode; on failure
/// it reports `Utf8Error::valid_up_to`, a prefix length up to which the
/// bytes are valid UTF-8 while one byte more no longer is.
#[verifier::external_body]
pub(crate) fn bytes_to_text(bytes: &[u8]) -> (r: Result<&str, usize>)
    ensures
        r is Ok <==> valid_utf8(bytes@),
        r is Ok ==> r->Ok_0@ == decode_utf8(bytes@),
        r is Err ==> r->Err_0 < bytes@.len(),
        r is Err ==> valid_utf8(bytes@.take(r->Err_0 as int)) && !valid_utf8(
            bytes@.take(r->Err_0 as int + 1),
        ),
{
    match std::str::from_utf8(bytes) {
        Ok(s) => Ok(s),
        Err(e) => Err(e.valid_up_to()),
    }
}

/// Relies on `char::is_alphabetic`: true exactly for Unicode alphabetic
/// characters.
pub assume_specification[ char::is_alphabetic ](c: char) -> (r: bool)
    ensures
        r == is_alpha(c),
;

/// Relies on `char::is_whitespace`: true exactly for Unicode whitespace
/// characters.
pub assume_specification[ char::is_whitespace ](c: char) -> (r: bool)
    ensures
        r == is_white(c),
;

/// Relies on `str::to_lowercase`: the result depends on the characters
/// alone; an empty string stays empty; every ASCII capital letter has a
/// lowercase mapping, so none remains in the result.
#[verifier::external_body]
pub(crate) fn lowercase_chars(s: &str) -> (r: Vec<char>)
    ensures
        r@ == lower_of(s@),
        s@.len() == 0 ==> r@.len() == 0,
        forall|i: int| 0 <= i < r@.len() ==> !is_ascii_upper(#[trigger] r@[i]),
{
    s.to_lowercase().chars().collect()
}

/// Relies on `String::push`: appends the character to the end of the
/// string.
#[verifier::external_body]
pub(crate) fn push_char(s: &mut String, c: char)
    ensures
        final(s)@ == old(s)@.push(c),
{
    s.push(c);
}

} // verus!
