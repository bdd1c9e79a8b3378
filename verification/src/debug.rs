//! The `{:?}` renderings that messages are made with.

use vstd::prelude::*;

use crate::text::views;

verus! {

/// What `{:?}` prints for a character.
pub uninterp spec fn debug_char(c: char) -> Seq<char>;

/// What `{:?}` prints for a list of strings.
pub uninterp spec fn debug_texts(items: Seq<Seq<char>>) -> Seq<char>;

/// `format!("{:?}", c)`, std's `Debug` of `char`: a quoted, escaped form
/// that depends on the character alone.
#[verifier::external_body]
pub(crate) fn debug_char_text(c: char) -> (r: String)
    ensures
        r@ == debug_char(c),
{
    format!("{c:?}")
}

/// `format!("{:?}", items)`, std's `Debug` of `[String]`: a bracketed list
/// of quoted, escaped strings that depends on their text alone.
#[verifier::external_body]
pub(crate) fn debug_texts_text(items: &[String]) -> (r: String)
    ensures
        r@ == debug_texts(views(items@)),
{
    format!("{items:?}")
}

} // verus!
