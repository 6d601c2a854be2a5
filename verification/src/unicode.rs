//! Character properties and foldings that come from Unicode tables. Their
//! values fill pages, so each is known to the contracts by a name only.

use unicode_normalization::UnicodeNormalization;
use vstd::prelude::*;

verus! {

/// What `char::is_alphanumeric` answers.
pub uninterp spec fn alphanumeric(c: char) -> bool;

/// `char::is_alphanumeric` of the standard library: a property of the
/// character alone, read from the Unicode tables.
pub assume_specification[ char::is_alphanumeric ](c: char) -> (r: bool)
    ensures
        r == alphanumeric(c),
;

/// What `char::is_alphabetic` answers.
pub uninterp spec fn alphabetic(c: char) -> bool;

/// `char::is_alphabetic` of the standard library: a property of the character
/// alone, read from the Unicode tables.
pub assume_specification[ char::is_alphabetic ](c: char) -> (r: bool)
    ensures
        r == alphabetic(c),
;

/// What `char::is_whitespace` answers.
pub uninterp spec fn whitespace(c: char) -> bool;

/// `char::is_whitespace` of the standard library: a property of the character
/// alone, read from the Unicode tables.
pub assume_specification[ char::is_whitespace ](c: char) -> (r: bool)
    ensures
        r == whitespace(c),
;

/// The characters `char::to_lowercase` yields for a character.
pub uninterp spec fn lowercase_of(c: char) -> Seq<char>;

/// `char::to_lowercase` of the standard library, its characters collected.
#[verifier::external_body]
pub(crate) fn lowercase(c: char) -> (r: Vec<char>)
    ensures
        r@ == lowercase_of(c),
{
    c.to_lowercase().collect()
}

/// The NFKC form of a character taken as a text of its own.
pub uninterp spec fn nfkc_of(c: char) -> Seq<char>;

/// `UnicodeNormalization::nfkc` of `unicode_normalization` on the one-character
/// text, its characters collected. The form depends on the character alone.
#[verifier::external_body]
pub(crate) fn nfkc(c: char) -> (r: Vec<char>)
    ensures
        r@ == nfkc_of(c),
{
    let mut buf = [0u8; 4];
    c.encode_utf8(&mut buf).nfkc().collect()
}

/// The confusable skeleton of a character taken as a text of its own.
pub uninterp spec fn skeleton_of(c: char) -> Seq<char>;

/// `unicode_security::skeleton` on the one-character text, its characters
/// collected. The skeleton depends on the character alone.
#[verifier::external_body]
pub(crate) fn skeleton(c: char) -> (r: Vec<char>)
    ensures
        r@ == skeleton_of(c),
{
    let mut buf = [0u8; 4];
    unicode_security::skeleton(c.encode_utf8(&mut buf)).collect()
}

} // verus!
