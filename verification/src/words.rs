//! Word characters and the word-boundary test that every literal match must
//! pass.
use vstd::prelude::*;
use vstd::utf8::*;
use vstd::string::*;
use crate::text::{chars_between, lemma_boundary_char_start, lemma_split, lemma_chars_between_split, scalar_before, scalar_at};

verus! {

/// Whether `char::is_alphanumeric` holds of `c` (the Unicode `Alphabetic`
/// property or a numeric general category).
pub uninterp spec fn unicode_alphanumeric(c: char) -> bool;

/// Whether `char::is_alphabetic` holds of `c` (the Unicode `Alphabetic`
/// property).
pub uninterp spec fn unicode_alphabetic(c: char) -> bool;

/// Calls `char::is_alphanumeric`; the result is named `unicode_alphanumeric`.
#[verifier::external_body]
pub(crate) fn char_is_alphanumeric(c: char) -> (r: bool)
    ensures
        r == unicode_alphanumeric(c),
{
    c.is_alphanumeric()
}

/// Calls `char::is_alphabetic`; the result is named `unicode_alphabetic`.
#[verifier::external_body]
pub(crate) fn char_is_alphabetic(c: char) -> (r: bool)
    ensures
        r == unicode_alphabetic(c),
{
    c.is_alphabetic()
}

/// Calls `char::from_u32`, which per its documentation returns the `char`
/// with value `v` when `v` is a Unicode scalar value and `None` otherwise.
#[verifier::external_body]
pub(crate) fn char_from_scalar(v: u32) -> (r: Option<char>)
    ensures
        is_scalar(v) ==> r == Some(v as char),
        !is_scalar(v) ==> r is None,
{
    char::from_u32(v)
}

/// The characters that count as parts of a word.
pub open spec fn word_char(c: char) -> bool {
    unicode_alphanumeric(c) || c == '_'
}

/// Whether `character` is alphanumeric or an underscore.
pub fn is_word_char(character: char) -> (r: bool)
    ensures
        r == word_char(character),
{
    character == '_' || char_is_alphanumeric(character)
}

/// Whether the character of scalar value `v` is a word character.
fn scalar_is_word_char(v: u32) -> (r: bool)
    requires
        is_scalar(v),
    ensures
        r == word_char(v as char),
{
    match char_from_scalar(v) {
        Some(c) => is_word_char(c),
        None => false,
    }
}

/// Neither the character before byte `start` nor the character at byte
/// `end` of the text `b` is a word character.
pub open spec fn word_boundaries(b: Seq<u8>, start: int, end: int) -> bool {
    let before = chars_between(b, 0, start);
    let after = chars_between(b, end, b.len() as int);
    &&& (before.len() == 0 || !word_char(before.last()))
    &&& (after.len() == 0 || !word_char(after[0]))
}

/// Whether the span from byte `start` to byte `end` of `text` stands between
/// word boundaries.
pub fn has_word_boundaries(text: &str, start: usize, end: usize) -> (r: bool)
    requires
        start <= end <= text.spec_bytes().len(),
        is_char_boundary(text.spec_bytes(), start as int),
        is_char_boundary(text.spec_bytes(), end as int),
    ensures
        r == word_boundaries(text.spec_bytes(), start as int, end as int),
{
    let b = text.as_bytes();
    proof {
        encode_utf8_valid_utf8(text@);
        lemma_boundary_char_start(b@, start as int);
        lemma_boundary_char_start(b@, end as int);
        lemma_split(b@, start as int);
        lemma_split(b@, end as int);
        assert(b@.subrange(0, 0) =~= Seq::<u8>::empty());
        assert(b@.subrange(b@.len() as int, b@.len() as int) =~= Seq::<u8>::empty());
    }
    let before_ok = if start == 0 {
        true
    } else {
        let (c, _) = scalar_before(b, start);
        !scalar_is_word_char(c)
    };
    let after_ok = if end == b.len() {
        true
    } else {
        let (c, w) = scalar_at(b, end);
        proof {
            lemma_chars_between_split(b@, end as int, end + w, b@.len() as int);
        }
        !scalar_is_word_char(c)
    };
    before_ok && after_ok
}

} // verus!
