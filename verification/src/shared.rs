//! Reference-counted text: what the crate uses of `arcstr`.

use arcstr::{ArcStr, Substr};
use vstd::prelude::*;
use vstd::utf8::{encode_utf8, is_char_boundary};

use crate::text::byte_len;

verus! {

/// `arcstr::ArcStr`: an immutable, reference-counted string.
#[verifier::external_type_specification]
#[verifier::external_body]
pub struct ExArcStr(arcstr::ArcStr);

/// `arcstr::Substr`: a range of the bytes of an `ArcStr`.
#[verifier::external_type_specification]
#[verifier::external_body]
pub struct ExSubstr(arcstr::Substr);

/// The characters that an `ArcStr` holds.
pub uninterp spec fn arcstr_text(s: ArcStr) -> Seq<char>;

/// The characters that a `Substr` covers.
pub uninterp spec fn substr_text(s: Substr) -> Seq<char>;

/// `ArcStr::as_str` gives the string's text. The length field of an `ArcStr`
/// has one bit less than a `usize`.
pub assume_specification[ arcstr::ArcStr::as_str ](s: &ArcStr) -> (r: &str)
    ensures
        r@ == arcstr_text(*s),
        byte_len(r@) <= usize::MAX / 2,
;

/// `Substr::as_str` gives the text that the range covers, which is part of
/// the text of an `ArcStr` and no longer than one can be.
pub assume_specification[ arcstr::Substr::as_str ](s: &Substr) -> (r: &str)
    ensures
        r@ == substr_text(*s),
        byte_len(r@) <= usize::MAX / 2,
;

/// `Substr::new` is the empty substring.
pub assume_specification[ arcstr::Substr::new ]() -> (r: Substr)
    ensures
        substr_text(r) == Seq::<char>::empty(),
;

/// `ArcStr::from` copies a string slice into a new buffer. (Like every
/// allocation it does not return when there is no room for the copy.)
#[verifier::external_body]
pub(crate) fn arcstr_from(s: &str) -> (r: ArcStr)
    ensures
        arcstr_text(r) == s@,
{
    ArcStr::from(s)
}

/// Cloning an `ArcStr` shares its buffer: the text is the same.
#[verifier::external_body]
pub(crate) fn arcstr_clone(s: &ArcStr) -> (r: ArcStr)
    ensures
        arcstr_text(r) == arcstr_text(*s),
{
    s.clone()
}

/// Cloning a `Substr` shares its buffer: the text is the same.
#[verifier::external_body]
pub(crate) fn substr_clone(s: &Substr) -> (r: Substr)
    ensures
        substr_text(r) == substr_text(*s),
{
    s.clone()
}

/// `ArcStr::substr` covers the bytes `from..to`. Both ends have to be
/// character boundaries, and a `Substr` keeps its ends as `u32`.
#[verifier::external_body]
pub(crate) fn arcstr_substr(s: &ArcStr, from: usize, to: usize) -> (r: Substr)
    requires
        from <= to <= byte_len(arcstr_text(*s)),
        to <= u32::MAX,
        is_char_boundary(encode_utf8(arcstr_text(*s)), from as int),
        is_char_boundary(encode_utf8(arcstr_text(*s)), to as int),
    ensures
        encode_utf8(substr_text(r)) == encode_utf8(arcstr_text(*s)).subrange(from as int, to as int),
{
    s.substr(from..to)
}

} // verus!
