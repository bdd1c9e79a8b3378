//! The case-name grammar:
//!
//! ```text
//! name    = segment *( "/" segment )          ; 1-256 bytes in all
//! segment = 1*64 of [a-z 0-9 - _ .]           ; never "." or ".."
//! ```
//!
//! Every segment but the last is also a WIT label: kebab-case words joined
//! by `-`. Names are equal exactly when their text is.

use arcstr::{ArcStr, Substr};
use vstd::prelude::*;
use vstd::utf8::{encode_utf8, is_ascii_chars, is_char_boundary};

use crate::debug::{debug_char, debug_char_text};
use crate::shared::{arcstr_from, arcstr_substr, arcstr_text, substr_clone, substr_text};
use crate::text::{
    before, byte_len, bytes_in, chars_of, decimal, decimal_text, has_prefix, last_index, lemma_last_index,
    lemma_split_concat, lemma_split_nonempty, lemma_split_single, owned, same,
    split, split_text, starts_with, text_lt, text_of, views,
};

verus! {

/// Maximum total name length in bytes.
pub const MAX_NAME_LEN: usize = 256;

/// Maximum segment length in bytes.
pub const MAX_SEGMENT_LEN: usize = 64;

/// Custom section name reserved for feature-mark metadata.
pub const TAGS_SECTION: &'static str = "component-test:tags@0.1";

// ---------------------------------------------------------------------
// The grammar
// ---------------------------------------------------------------------

/// `a` to `z`.
pub open spec fn is_lower(c: char) -> bool {
    'a' <= c <= 'z'
}

/// `0` to `9`.
pub open spec fn is_digit(c: char) -> bool {
    '0' <= c <= '9'
}

/// A character that a segment may hold.
pub open spec fn is_segment_char(c: char) -> bool {
    is_lower(c) || is_digit(c) || c == '-' || c == '_' || c == '.'
}

/// A word that may stand anywhere in a label: `[a-z][a-z0-9]*`.
pub open spec fn is_letter_word(w: Seq<char>) -> bool {
    &&& w.len() > 0
    &&& is_lower(w[0])
    &&& forall|i: int| 0 <= i < w.len() ==> is_lower(#[trigger] w[i]) || is_digit(w[i])
}

/// A word that may stand anywhere but first: `[0-9]+`.
pub open spec fn is_number_word(w: Seq<char>) -> bool {
    w.len() > 0 && forall|i: int| 0 <= i < w.len() ==> is_digit(#[trigger] w[i])
}

/// Is `w` the word at position `i` of a label?
pub open spec fn is_word(w: Seq<char>, i: int) -> bool {
    is_letter_word(w) || (i > 0 && is_number_word(w))
}

/// A WIT label: words joined by `-`, the first starting with a letter.
pub open spec fn is_label(s: Seq<char>) -> bool {
    let words = split(s, '-');
    forall|i: int| 0 <= i < words.len() ==> is_word(#[trigger] words[i], i)
}

/// A segment of a case name.
pub open spec fn is_segment(s: Seq<char>) -> bool {
    &&& 0 < s.len()
    &&& byte_len(s) <= MAX_SEGMENT_LEN
    &&& s != seq!['.']
    &&& s != seq!['.', '.']
    &&& forall|i: int| 0 <= i < s.len() ==> is_segment_char(#[trigger] s[i])
}

/// A case name.
pub open spec fn is_case_name(s: Seq<char>) -> bool {
    let segments = split(s, '/');
    &&& 0 < s.len()
    &&& byte_len(s) <= MAX_NAME_LEN
    &&& forall|i: int| 0 <= i < segments.len() ==> is_segment(#[trigger] segments[i])
    &&& forall|i: int| 0 <= i < segments.len() - 1 ==> is_label(#[trigger] segments[i])
}

// ---------------------------------------------------------------------
// What is wrong with a text that is no name
// ---------------------------------------------------------------------

/// What is wrong with the word at position `i` of a label.
pub open spec fn word_fault(w: Seq<char>, i: int) -> Option<Seq<char>> {
    if w.len() == 0 {
        Some("empty word (leading/trailing/double `-`)"@)
    } else if is_lower(w[0]) {
        if is_letter_word(w) { None } else { Some("word may contain only [a-z0-9]"@) }
    } else if is_digit(w[0]) {
        if i == 0 {
            Some("first word must start with a lowercase letter"@)
        } else if is_number_word(w) {
            None
        } else {
            Some("number word may contain only digits"@)
        }
    } else {
        Some("word must start with a lowercase letter or digits"@)
    }
}

/// The first fault among `words[i..]`.
pub open spec fn words_fault(words: Seq<Seq<char>>, i: int) -> Option<Seq<char>>
    decreases words.len() - i,
{
    if i < 0 || i >= words.len() {
        None
    } else {
        match word_fault(words[i], i) {
            Some(reason) => Some(reason),
            None => words_fault(words, i + 1),
        }
    }
}

/// Why `s` is no WIT label, if it is none.
pub open spec fn label_fault(s: Seq<char>) -> Option<Seq<char>> {
    if s.len() == 0 { Some("empty"@) } else { words_fault(split(s, '-'), 0) }
}

/// A [`NameError`] over texts.
pub enum NameFault {
    Empty,
    TooLong(nat),
    EmptySegment,
    SegmentTooLong(Seq<char>),
    DotSegment(Seq<char>),
    BadChar(Seq<char>, char),
    NonLabelPrefix(Seq<char>, Seq<char>),
}

/// The position of the first character of `s` at or after `i` that no
/// segment may hold, or `s.len()`.
pub open spec fn first_bad_char(s: Seq<char>, i: int) -> int
    decreases s.len() - i,
{
    if i < 0 || i >= s.len() || !is_segment_char(s[i]) { i } else { first_bad_char(s, i + 1) }
}

/// What is wrong with a segment.
pub open spec fn segment_fault(s: Seq<char>) -> Option<NameFault> {
    if s.len() == 0 {
        Some(NameFault::EmptySegment)
    } else if byte_len(s) > MAX_SEGMENT_LEN {
        Some(NameFault::SegmentTooLong(s))
    } else if s == seq!['.'] || s == seq!['.', '.'] {
        Some(NameFault::DotSegment(s))
    } else if first_bad_char(s, 0) < s.len() {
        Some(NameFault::BadChar(s, s[first_bad_char(s, 0)]))
    } else {
        None
    }
}

/// What is wrong with a segment that is not the last.
pub open spec fn group_fault(s: Seq<char>) -> Option<NameFault> {
    match segment_fault(s) {
        Some(f) => Some(f),
        None => match label_fault(s) {
            Some(reason) => Some(NameFault::NonLabelPrefix(s, reason)),
            None => None,
        },
    }
}

/// The first fault among the non-final segments `segments[i..]`.
pub open spec fn groups_fault(segments: Seq<Seq<char>>, i: int) -> Option<NameFault>
    decreases segments.len() - i,
{
    if i < 0 || i >= segments.len() {
        None
    } else {
        match group_fault(segments[i]) {
            Some(f) => Some(f),
            None => groups_fault(segments, i + 1),
        }
    }
}

/// The part of a name before its last slash (empty without a slash).
pub open spec fn prefix_of(s: Seq<char>) -> Seq<char> {
    if last_index(s, '/') < 0 { Seq::<char>::empty() } else { s.take(last_index(s, '/')) }
}

/// The part of a name after its last slash (all of it without one).
pub open spec fn leaf_of(s: Seq<char>) -> Seq<char> {
    s.skip(last_index(s, '/') + 1)
}

/// What is wrong with a name: its length, then its segments from the left.
pub open spec fn name_fault(s: Seq<char>) -> Option<NameFault> {
    if s.len() == 0 {
        Some(NameFault::Empty)
    } else if byte_len(s) > MAX_NAME_LEN {
        Some(NameFault::TooLong(byte_len(s)))
    } else if last_index(s, '/') < 0 {
        segment_fault(s)
    } else {
        match groups_fault(split(prefix_of(s), '/'), 0) {
            Some(f) => Some(f),
            None => segment_fault(leaf_of(s)),
        }
    }
}

// ---------------------------------------------------------------------
// The grammar and its faults agree
// ---------------------------------------------------------------------

proof fn lemma_words_fault(words: Seq<Seq<char>>, i: int)
    requires
        0 <= i <= words.len(),
    ensures
        words_fault(words, i) is None <==> forall|k: int|
            i <= k < words.len() ==> is_word(#[trigger] words[k], k),
    decreases words.len() - i,
{
    if i < words.len() {
        lemma_words_fault(words, i + 1);
        lemma_word_fault(words[i], i);
    }
}

proof fn lemma_word_fault(w: Seq<char>, i: int)
    requires
        i >= 0,
    ensures
        word_fault(w, i) is None <==> is_word(w, i),
{
    if w.len() > 0 && is_letter_word(w) {
        assert(is_lower(w[0]));
    }
    if w.len() > 0 && is_number_word(w) {
        assert(is_digit(w[0]));
    }
}

/// A text has no label fault exactly when it is a label.
pub proof fn law_label_fault(s: Seq<char>)
    ensures
        label_fault(s) is None <==> is_label(s),
{
    lemma_words_fault(split(s, '-'), 0);
    if s.len() == 0 {
        assert(split(s, '-')[0] == Seq::<char>::empty());
        assert(!is_word(split(s, '-')[0], 0));
    }
}

proof fn lemma_first_bad_char(s: Seq<char>, i: int)
    requires
        0 <= i <= s.len(),
    ensures
        i <= first_bad_char(s, i) <= s.len(),
        forall|k: int| i <= k < first_bad_char(s, i) ==> is_segment_char(s[k]),
        first_bad_char(s, i) < s.len() ==> !is_segment_char(s[first_bad_char(s, i)]),
    decreases s.len() - i,
{
    if i < s.len() && is_segment_char(s[i]) {
        lemma_first_bad_char(s, i + 1);
    }
}

/// A text has no segment fault exactly when it is a segment.
pub proof fn law_segment_fault(s: Seq<char>)
    ensures
        segment_fault(s) is None <==> is_segment(s),
{
    lemma_first_bad_char(s, 0);
}

proof fn lemma_groups_fault(segments: Seq<Seq<char>>, i: int)
    requires
        0 <= i <= segments.len(),
    ensures
        groups_fault(segments, i) is None <==> forall|k: int|
            i <= k < segments.len() ==> is_segment(#[trigger] segments[k]) && is_label(segments[k]),
    decreases segments.len() - i,
{
    if i < segments.len() {
        lemma_groups_fault(segments, i + 1);
        law_segment_fault(segments[i]);
        law_label_fault(segments[i]);
    }
}

/// The segments of a name: those of its prefix, then its leaf.
pub proof fn lemma_split_at_last_slash(s: Seq<char>)
    ensures
        !leaf_of(s).contains('/'),
        last_index(s, '/') < 0 ==> split(s, '/') == seq![s] && leaf_of(s) == s,
        last_index(s, '/') >= 0 ==> split(s, '/') == split(prefix_of(s), '/').push(leaf_of(s)) && s
            == prefix_of(s).push('/') + leaf_of(s),
{
    let i = last_index(s, '/');
    lemma_last_index(s, '/');
    let leaf = leaf_of(s);
    assert(!leaf.contains('/')) by {
        if leaf.contains('/') {
            let k = choose|k: int| 0 <= k < leaf.len() && leaf[k] == '/';
            assert(s[i + 1 + k] == '/');
        }
    }
    if i < 0 {
        lemma_split_single(s, '/');
        assert(leaf =~= s);
    } else {
        assert(s =~= prefix_of(s).push('/') + leaf);
        lemma_split_concat(prefix_of(s), leaf, '/');
        lemma_split_single(leaf, '/');
        assert(split(s, '/') =~= split(prefix_of(s), '/').push(leaf));
    }
}

/// A text has no name fault exactly when it is a case name.
pub proof fn law_name_fault(s: Seq<char>)
    ensures
        name_fault(s) is None <==> is_case_name(s),
{
    lemma_split_at_last_slash(s);
    let segments = split(s, '/');
    if last_index(s, '/') < 0 {
        law_segment_fault(s);
        assert(segments[0] == s);
    } else {
        let groups = split(prefix_of(s), '/');
        lemma_groups_fault(groups, 0);
        law_segment_fault(leaf_of(s));
        assert(segments[groups.len() as int] == leaf_of(s));
        assert forall|k: int| 0 <= k < groups.len() implies segments[k] == #[trigger] groups[k] by {
        }
        if is_case_name(s) {
            assert forall|k: int| 0 <= k < groups.len() implies is_segment(#[trigger] groups[k])
                && is_label(groups[k]) by {
                assert(segments[k] == groups[k]);
            }
        }
    }
}

// ---------------------------------------------------------------------
// Errors
// ---------------------------------------------------------------------

/// Why a text is no case name.
#[derive(Debug, Clone, PartialEq, Eq)]
pub enum NameError {
    Empty,
    TooLong(usize),
    EmptySegment,
    SegmentTooLong(String),
    DotSegment(String),
    BadChar { segment: String, ch: char },
    NonLabelPrefix { segment: String, reason: &'static str },
}

impl View for NameError {
    type V = NameFault;

    open spec fn view(&self) -> NameFault {
        match *self {
            NameError::Empty => NameFault::Empty,
            NameError::TooLong(n) => NameFault::TooLong(n as nat),
            NameError::EmptySegment => NameFault::EmptySegment,
            NameError::SegmentTooLong(s) => NameFault::SegmentTooLong(s@),
            NameError::DotSegment(s) => NameFault::DotSegment(s@),
            NameError::BadChar { segment, ch } => NameFault::BadChar(segment@, ch),
            NameError::NonLabelPrefix { segment, reason } => NameFault::NonLabelPrefix(
                segment@,
                reason@,
            ),
        }
    }
}

/// The message of a fault.
pub open spec fn fault_text(f: NameFault) -> Seq<char> {
    match f {
        NameFault::Empty => "name is empty"@,
        NameFault::TooLong(n) => "name is "@ + decimal(n) + " bytes (max 256)"@,
        NameFault::EmptySegment => "empty segment"@,
        NameFault::SegmentTooLong(s) => "segment `"@ + s + "` exceeds 64 bytes"@,
        NameFault::DotSegment(s) => "segment `"@ + s + "` is forbidden"@,
        NameFault::BadChar(s, ch) => "segment `"@ + s + "` contains forbidden character "@
            + debug_char(ch),
        NameFault::NonLabelPrefix(s, reason) => "non-leaf segment `"@ + s
            + "` is not a WIT label ("@ + reason + ")"@,
    }
}

impl NameError {
    /// The error as a message.
    pub fn to_string(&self) -> (r: String)
        ensures
            r@ == fault_text(self@),
    {
        match self {
            NameError::Empty => owned("name is empty"),
            NameError::TooLong(n) => {
                let mut r = owned("name is ");
                r.append(decimal_text(*n as u128).as_str());
                r.append(" bytes (max 256)");
                r
            },
            NameError::EmptySegment => owned("empty segment"),
            NameError::SegmentTooLong(s) => {
                let mut r = owned("segment `");
                r.append(s.as_str());
                r.append("` exceeds 64 bytes");
                r
            },
            NameError::DotSegment(s) => {
                let mut r = owned("segment `");
                r.append(s.as_str());
                r.append("` is forbidden");
                r
            },
            NameError::BadChar { segment, ch } => {
                let mut r = owned("segment `");
                r.append(segment.as_str());
                r.append("` contains forbidden character ");
                r.append(debug_char_text(*ch).as_str());
                r
            },
            NameError::NonLabelPrefix { segment, reason } => {
                let mut r = owned("non-leaf segment `");
                r.append(segment.as_str());
                r.append("` is not a WIT label (");
                r.append(reason);
                r.append(")");
                r
            },
        }
    }
}

// ---------------------------------------------------------------------
// Labels and segments
// ---------------------------------------------------------------------

fn segment_char_ok(c: char) -> (r: bool)
    ensures
        r == is_segment_char(c),
{
    lower(c) || digit_char(c) || c == '-' || c == '_' || c == '.'
}

fn lower(c: char) -> (r: bool)
    ensures
        r == is_lower(c),
{
    'a' <= c && c <= 'z'
}

fn digit_char(c: char) -> (r: bool)
    ensures
        r == is_digit(c),
{
    '0' <= c && c <= '9'
}

/// The fault of the word at position `i` of a label.
fn check_word(word: &str, i: usize) -> (r: Option<&'static str>)
    ensures
        match r {
            Some(reason) => word_fault(word@, i as int) == Some(reason@),
            None => word_fault(word@, i as int) is None,
        },
{
    let w = chars_of(word);
    if w.len() == 0 {
        return Some("empty word (leading/trailing/double `-`)");
    }
    if lower(w[0]) {
        let mut k: usize = 0;
        while k < w.len()
            invariant
                k <= w@.len(),
                w@ == word@,
                w@.len() > 0,
                is_lower(w@[0]),
                forall|j: int| 0 <= j < k ==> is_lower(#[trigger] w@[j]) || is_digit(w@[j]),
            decreases w.len() - k,
        {
            if !lower(w[k]) && !digit_char(w[k]) {
                return Some("word may contain only [a-z0-9]");
            }
            k += 1;
        }
        None
    } else if digit_char(w[0]) {
        if i == 0 {
            return Some("first word must start with a lowercase letter");
        }
        let mut k: usize = 0;
        while k < w.len()
            invariant
                k <= w@.len(),
                w@ == word@,
                w@.len() > 0,
                i > 0,
                !is_lower(w@[0]),
                is_digit(w@[0]),
                forall|j: int| 0 <= j < k ==> is_digit(#[trigger] w@[j]),
            decreases w.len() - k,
        {
            if !digit_char(w[k]) {
                return Some("number word may contain only digits");
            }
            k += 1;
        }
        None
    } else {
        Some("word must start with a lowercase letter or digits")
    }
}

/// Why `s` is no WIT label, if it is none: kebab-case words joined by `-`,
/// the first `[a-z][a-z0-9]*`, later ones possibly number-only (`[0-9]+`, as
/// in `sha256-2048`).
pub fn is_wit_label(s: &str) -> (r: Option<&'static str>)
    ensures
        r is None <==> is_label(s@),
        match r {
            Some(reason) => label_fault(s@) == Some(reason@),
            None => label_fault(s@) is None,
        },
{
    proof {
        law_label_fault(s@);
    }
    if s.is_empty() {
        return Some("empty");
    }
    let words = split_text(s, '-');
    let mut i: usize = 0;
    while i < words.len()
        invariant
            i <= words@.len(),
            s@.len() > 0,
            views(words@) == split(s@, '-'),
            label_fault(s@) is None <==> is_label(s@),
            words_fault(split(s@, '-'), 0) == words_fault(split(s@, '-'), i as int),
        decreases words.len() - i,
    {
        assert(views(words@)[i as int] == words@[i as int]@);
        match check_word(words[i].as_str(), i) {
            Some(reason) => {
                return Some(reason);
            },
            None => {},
        }
        i += 1;
    }
    None
}

fn validate_segment(seg: &str) -> (r: Result<(), NameError>)
    ensures
        match r {
            Ok(_) => segment_fault(seg@) is None,
            Err(e) => segment_fault(seg@) == Some(e@),
        },
{
    if seg.is_empty() {
        return Err(NameError::EmptySegment);
    }
    if bytes_in(seg) > MAX_SEGMENT_LEN {
        return Err(NameError::SegmentTooLong(owned(seg)));
    }
    proof {
        reveal_strlit(".");
        reveal_strlit("..");
        assert("."@ =~= seq!['.']);
        assert(".."@ =~= seq!['.', '.']);
    }
    if same(seg, ".") || same(seg, "..") {
        return Err(NameError::DotSegment(owned(seg)));
    }
    let chars = chars_of(seg);
    let mut i: usize = 0;
    while i < chars.len()
        invariant
            i <= chars@.len(),
            chars@ == seg@,
            0 < seg@.len(),
            byte_len(seg@) <= MAX_SEGMENT_LEN,
            seg@ != seq!['.'],
            seg@ != seq!['.', '.'],
            first_bad_char(seg@, 0) == first_bad_char(seg@, i as int),
        decreases chars.len() - i,
    {
        if !segment_char_ok(chars[i]) {
            return Err(NameError::BadChar { segment: owned(seg), ch: chars[i] });
        }
        i += 1;
    }
    Ok(())
}

/// A segment that is not the last has to be a label too.
fn validate_group(seg: &str) -> (r: Result<(), NameError>)
    ensures
        match r {
            Ok(_) => group_fault(seg@) is None,
            Err(e) => group_fault(seg@) == Some(e@),
        },
{
    match validate_segment(seg) {
        Err(e) => Err(e),
        Ok(_) => match is_wit_label(seg) {
            Some(reason) => Err(NameError::NonLabelPrefix { segment: owned(seg), reason }),
            None => Ok(()),
        },
    }
}

fn validate_groups(segments: &[String]) -> (r: Result<(), NameError>)
    ensures
        match r {
            Ok(_) => groups_fault(views(segments@), 0) is None,
            Err(e) => groups_fault(views(segments@), 0) == Some(e@),
        },
{
    let mut i: usize = 0;
    while i < segments.len()
        invariant
            i <= segments@.len(),
            groups_fault(views(segments@), 0) == groups_fault(views(segments@), i as int),
        decreases segments.len() - i,
    {
        assert(views(segments@)[i as int] == segments@[i as int]@);
        match validate_group(segments[i].as_str()) {
            Err(e) => {
                return Err(e);
            },
            Ok(_) => {},
        }
        i += 1;
    }
    Ok(())
}

// ---------------------------------------------------------------------
// Case names
// ---------------------------------------------------------------------

/// A case name as its two parts.
#[verifier::ext_equal]
pub struct NameParts {
    /// Everything before the last slash (empty without one).
    pub prefix: Seq<char>,
    /// The last segment.
    pub leaf: Seq<char>,
}

impl NameParts {
    /// The name itself.
    pub open spec fn text(self) -> Seq<char> {
        if self.prefix.len() == 0 { self.leaf } else { self.prefix.push('/') + self.leaf }
    }
}

/// The parts of a name.
pub open spec fn parts_of(s: Seq<char>) -> NameParts {
    NameParts { prefix: prefix_of(s), leaf: leaf_of(s) }
}

/// `prefix` and `leaf` with a slash between them, unless `prefix` is empty.
pub open spec fn joined(prefix: Seq<char>, leaf: Seq<char>) -> Seq<char> {
    NameParts { prefix, leaf }.text()
}

/// The length in bytes of a name that is not assembled yet.
pub open spec fn joined_len(prefix: Seq<char>, leaf: Seq<char>) -> nat {
    if prefix.len() == 0 { byte_len(leaf) } else { byte_len(prefix) + 1 + byte_len(leaf) }
}

/// What is wrong with a name given as its two parts.
pub open spec fn parts_fault(prefix: Seq<char>, leaf: Seq<char>) -> Option<NameFault> {
    let groups = if prefix.len() == 0 { Seq::<Seq<char>>::empty() } else { split(prefix, '/') };
    if joined_len(prefix, leaf) > MAX_NAME_LEN {
        Some(NameFault::TooLong(joined_len(prefix, leaf)))
    } else {
        match groups_fault(groups, 0) {
            Some(f) => Some(f),
            None => if leaf.contains('/') {
                Some(NameFault::BadChar(leaf, '/'))
            } else {
                segment_fault(leaf)
            },
        }
    }
}

/// All but the last of `segments`, from the right.
pub open spec fn inner_reversed(segments: Seq<Seq<char>>) -> Seq<Seq<char>> {
    segments.drop_last().reverse()
}

/// What is wrong with a relative name under a prefix: the prefix's segments
/// are looked at first, then those of the relative name from the right.
pub open spec fn prefixed_fault(prefix: Seq<char>, rel: Seq<char>) -> Option<NameFault> {
    if prefix.len() == 0 {
        name_fault(rel)
    } else if joined_len(prefix, rel) > MAX_NAME_LEN {
        Some(NameFault::TooLong(joined_len(prefix, rel)))
    } else if rel.len() == 0 {
        Some(NameFault::EmptySegment)
    } else {
        match groups_fault(split(prefix, '/') + inner_reversed(split(rel, '/')), 0) {
            Some(f) => Some(f),
            None => segment_fault(leaf_of(rel)),
        }
    }
}

pub(crate) proof fn lemma_encode_concat(a: Seq<char>, b: Seq<char>)
    ensures
        encode_utf8(a + b) == encode_utf8(a) + encode_utf8(b),
    decreases a.len(),
{
    if a.len() == 0 {
        assert(a + b =~= b);
        assert(encode_utf8(a) =~= Seq::<u8>::empty());
    } else {
        assert((a + b).drop_first() =~= a.drop_first() + b);
        lemma_encode_concat(a.drop_first(), b);
        assert(encode_utf8(a + b) =~= encode_utf8(a) + encode_utf8(b));
    }
}

/// The length of a joined name is the length of its text.
pub proof fn lemma_joined_len(prefix: Seq<char>, leaf: Seq<char>)
    ensures
        joined_len(prefix, leaf) == byte_len(joined(prefix, leaf)),
{
    if prefix.len() > 0 {
        assert(prefix.push('/') =~= prefix + seq!['/']);
        lemma_encode_concat(prefix + seq!['/'], leaf);
        lemma_encode_concat(prefix, seq!['/']);
        assert(is_ascii_chars(seq!['/']));
        vstd::utf8::is_ascii_chars_encode_utf8(seq!['/']);
    }
}

/// A slash at the end of `prefix` is the last one where `leaf` has none.
proof fn lemma_parts_of_joined(prefix: Seq<char>, leaf: Seq<char>)
    requires
        !leaf.contains('/'),
    ensures
        parts_of(joined(prefix, leaf)) == (NameParts { prefix, leaf }),
{
    let s = joined(prefix, leaf);
    lemma_last_index(s, '/');
    if prefix.len() == 0 {
        assert(s == leaf);
        assert(leaf_of(s) =~= leaf);
        assert(prefix_of(s) =~= prefix);
    } else {
        let i = last_index(s, '/');
        assert(s[prefix.len() as int] == '/');
        if i > prefix.len() {
            assert(leaf[i - prefix.len() - 1] == '/');
        }
        assert(i == prefix.len());
        assert(prefix_of(s) =~= prefix);
        assert(leaf_of(s) =~= leaf);
    }
}

/// Taking a name apart and putting it together gives the name back.
pub proof fn law_parts_roundtrip(s: Seq<char>)
    requires
        is_case_name(s),
    ensures
        parts_of(s).text() == s,
{
    lemma_split_at_last_slash(s);
    if last_index(s, '/') >= 0 {
        let segments = split(s, '/');
        let groups = split(prefix_of(s), '/');
        lemma_split_nonempty(prefix_of(s), '/');
        assert(segments[0] == groups[0]);
        assert(is_segment(segments[0]));
        if prefix_of(s).len() == 0 {
            assert(groups[0] == Seq::<char>::empty());
        }
    }
}

/// Two parts make a name exactly when the leaf has no slash and the text
/// that they make is a name; then they are that name's parts.
pub proof fn law_parts_match_parsed(prefix: Seq<char>, leaf: Seq<char>)
    ensures
        parts_fault(prefix, leaf) is None <==> !leaf.contains('/') && is_case_name(
            joined(prefix, leaf),
        ),
        parts_fault(prefix, leaf) is None ==> parts_of(joined(prefix, leaf)) == (NameParts {
            prefix,
            leaf,
        }),
{
    let s = joined(prefix, leaf);
    lemma_joined_len(prefix, leaf);
    law_name_fault(s);
    if !leaf.contains('/') {
        lemma_parts_of_joined(prefix, leaf);
        lemma_last_index(s, '/');
        if prefix.len() == 0 {
            assert(last_index(s, '/') < 0);
        } else {
            assert(s[prefix.len() as int] == '/');
            assert(last_index(s, '/') >= 0);
        }
    }
}

proof fn lemma_reversed_groups(a: Seq<Seq<char>>, b: Seq<Seq<char>>)
    ensures
        groups_fault(a + b.reverse(), 0) is None <==> groups_fault(a + b, 0) is None,
{
    let x = a + b.reverse();
    let y = a + b;
    lemma_groups_fault(x, 0);
    lemma_groups_fault(y, 0);
    let n = a.len();
    let m = b.len();
    if groups_fault(x, 0) is None {
        assert forall|k: int| 0 <= k < y.len() implies is_segment(#[trigger] y[k]) && is_label(
            y[k],
        ) by {
            if k < n {
                assert(x[k] == y[k]);
            } else {
                assert(x[n + (m - 1 - (k - n))] == y[k]);
            }
        }
    }
    if groups_fault(y, 0) is None {
        assert forall|k: int| 0 <= k < x.len() implies is_segment(#[trigger] x[k]) && is_label(
            x[k],
        ) by {
            if k < n {
                assert(x[k] == y[k]);
            } else {
                assert(y[n + (m - 1 - (k - n))] == x[k]);
            }
        }
    }
}

/// A relative name attaches under a prefix exactly when the text that they
/// make together is a name.
pub proof fn law_prefixed_matches_parsed(prefix: Seq<char>, rel: Seq<char>)
    ensures
        prefixed_fault(prefix, rel) is None <==> is_case_name(joined(prefix, rel)),
{
    let s = joined(prefix, rel);
    law_name_fault(s);
    lemma_joined_len(prefix, rel);
    if prefix.len() > 0 {
        lemma_split_concat(prefix, rel, '/');
        lemma_split_at_last_slash(rel);
        lemma_split_nonempty(rel, '/');
        let a = split(prefix, '/');
        let b = split(rel, '/');
        assert(split(s, '/') == a + b);
        lemma_split_at_last_slash(s);
        lemma_last_index(s, '/');
        assert(s[prefix.len() as int] == '/');
        assert(last_index(s, '/') >= 0);
        assert((a + b).drop_last() =~= a + b.drop_last());
        assert(split(prefix_of(s), '/').push(leaf_of(s)).drop_last() =~= split(
            prefix_of(s),
            '/',
        ));
        assert(split(prefix_of(s), '/') == a + b.drop_last());
        assert((a + b).last() == b.last());
        assert(leaf_of(s) == b.last());
        if last_index(rel, '/') < 0 {
            assert(b.last() == leaf_of(rel));
        } else {
            assert(b.last() == leaf_of(rel));
        }
        lemma_reversed_groups(a, b.drop_last());
        if rel.len() == 0 {
            assert(leaf_of(s).len() == 0);
        }
    }
}

/// The parts that a relative name gets under a prefix are the parts of the
/// text that they make together.
pub proof fn law_prefixed_parts(prefix: Seq<char>, rel: Seq<char>)
    ensures
        prefix.len() > 0 && last_index(rel, '/') < 0 ==> parts_of(joined(prefix, rel)) == (
        NameParts { prefix, leaf: rel }),
        prefix.len() > 0 && last_index(rel, '/') >= 0 ==> parts_of(joined(prefix, rel)) == (
        NameParts { prefix: prefix.push('/') + prefix_of(rel), leaf: leaf_of(rel) }),
{
    lemma_split_at_last_slash(rel);
    if prefix.len() > 0 {
        if last_index(rel, '/') < 0 {
            lemma_parts_of_joined(prefix, rel);
        } else {
            let head = prefix.push('/') + prefix_of(rel);
            lemma_parts_of_joined(head, leaf_of(rel));
            assert(joined(head, leaf_of(rel)) =~= joined(prefix, rel));
        }
    }
}

proof fn lemma_segment_ascii(s: Seq<char>)
    requires
        is_segment(s),
    ensures
        is_ascii_chars(s),
{
    assert forall|i: int| 0 <= i < s.len() implies 0 <= #[trigger] s[i] as int <= 127 by {
        assert(is_segment_char(s[i]));
    }
}

/// A case name is plain ASCII.
pub proof fn law_case_name_ascii(s: Seq<char>)
    requires
        is_case_name(s),
    ensures
        is_ascii_chars(s),
{
    lemma_all_ascii(s, '/');
}

proof fn lemma_all_ascii(s: Seq<char>, sep: char)
    requires
        0 <= sep as int <= 127,
        forall|i: int| 0 <= i < split(s, sep).len() ==> is_segment(#[trigger] split(s, sep)[i]),
    ensures
        is_ascii_chars(s),
{
    let p = split(s, sep);
    assert forall|i: int| 0 <= i < p.len() implies is_ascii_chars(#[trigger] p[i]) by {
        lemma_segment_ascii(p[i]);
    }
    lemma_ascii_pieces(s, sep);
}

proof fn lemma_ascii_pieces(s: Seq<char>, sep: char)
    requires
        0 <= sep as int <= 127,
        forall|i: int| 0 <= i < split(s, sep).len() ==> is_ascii_chars(#[trigger] split(s, sep)[i]),
    ensures
        is_ascii_chars(s),
    decreases s.len(),
{
    if s.len() > 0 {
        let p = split(s, sep);
        let init = split(s.drop_last(), sep);
        lemma_split_nonempty(s.drop_last(), sep);
        assert forall|i: int| 0 <= i < init.len() implies is_ascii_chars(#[trigger] init[i]) by {
            assert(is_ascii_chars(p[i]));
            if i == init.len() - 1 && s.last() != sep {
                assert(p[i] == init[i].push(s.last()));
                assert forall|k: int| 0 <= k < init[i].len() implies 0 <= #[trigger] init[i][k] as int
                    <= 127 by {
                    assert(p[i][k] == init[i][k]);
                }
            } else {
                assert(p[i] == init[i]);
            }
        }
        lemma_ascii_pieces(s.drop_last(), sep);
        assert(0 <= s.last() as int <= 127) by {
            if s.last() != sep {
                let w = p[init.len() - 1];
                assert(is_ascii_chars(w));
                assert(w[w.len() - 1] == s.last());
            }
        }
        assert forall|k: int| 0 <= k < s.len() implies 0 <= #[trigger] s[k] as int <= 127 by {
            if k < s.len() - 1 {
                assert(s.drop_last()[k] == s[k]);
            }
        }
    }
}

/// In an ASCII text bytes and characters are counted alike, and every
/// position is a character boundary.
proof fn lemma_ascii_bytes(s: Seq<char>, i: int)
    requires
        is_ascii_chars(s),
        0 <= i <= s.len(),
    ensures
        byte_len(s) == s.len(),
        is_char_boundary(encode_utf8(s), i),
{
    vstd::utf8::is_ascii_chars_encode_utf8(s);
    vstd::utf8::encode_utf8_valid_utf8(s);
    vstd::utf8::is_char_boundary_start_end_of_seq(encode_utf8(s));
    if i < s.len() {
        vstd::utf8::is_char_boundary_iff_not_is_continuation_byte(encode_utf8(s), i);
        let b = encode_utf8(s)[i];
        assert(b == s[i] as u8);
        assert(0 <= s[i] as int <= 127);
        assert(!vstd::utf8::is_continuation_byte(b)) by {
            assert(b < 128);
            vstd::utf8::utf8_byte_ranges_bitwise(b);
        }
    }
}

/// A byte range of an ASCII text is the same range of its characters.
proof fn lemma_ascii_subrange(s: Seq<char>, t: Seq<char>, from: int, to: int)
    requires
        is_ascii_chars(s),
        0 <= from <= to <= s.len(),
        encode_utf8(t) == encode_utf8(s).subrange(from, to),
    ensures
        t == s.subrange(from, to),
{
    let u = s.subrange(from, to);
    vstd::utf8::is_ascii_chars_encode_utf8(s);
    assert(is_ascii_chars(u)) by {
        assert forall|k: int| 0 <= k < u.len() implies 0 <= #[trigger] u[k] as int <= 127 by {
            assert(u[k] == s[from + k]);
        }
    }
    vstd::utf8::is_ascii_chars_encode_utf8(u);
    assert(encode_utf8(u) =~= encode_utf8(s).subrange(from, to)) by {
        assert forall|k: int| 0 <= k < u.len() implies encode_utf8(u)[k] == encode_utf8(
            s,
        ).subrange(from, to)[k] by {
            assert(u[k] == s[from + k]);
        }
    }
    vstd::utf8::encode_utf8_decode_utf8(t);
    vstd::utf8::encode_utf8_decode_utf8(u);
}

/// A validated case name: a (possibly empty) grouping prefix and a
/// single-segment leaf, both sharing reference-counted buffers. Slashes
/// stand only in the prefix, so that the two parts of a name are unique.
#[derive(Debug, PartialEq, Eq, Hash, PartialOrd, Ord)]
pub struct CaseName {
    prefix: Substr,
    leaf: Substr,
}

impl View for CaseName {
    type V = NameParts;

    closed spec fn view(&self) -> NameParts {
        NameParts { prefix: substr_text(self.prefix), leaf: substr_text(self.leaf) }
    }
}

impl Clone for CaseName {
    fn clone(&self) -> (r: Self)
        ensures
            r@ == self@,
    {
        proof {
            use_type_invariant(self);
        }
        CaseName { prefix: substr_clone(&self.prefix), leaf: substr_clone(&self.leaf) }
    }
}

/// The last slash of `chars`.
fn last_slash(chars: &[char]) -> (r: Option<usize>)
    ensures
        match r {
            Some(i) => i == last_index(chars@, '/'),
            None => last_index(chars@, '/') < 0,
        },
{
    let mut n: usize = chars.len();
    assert(chars@.take(n as int) =~= chars@);
    while n > 0
        invariant
            n <= chars@.len(),
            last_index(chars@, '/') == last_index(chars@.take(n as int), '/'),
        decreases n,
    {
        assert(chars@.take(n as int).last() == chars@[n - 1]);
        assert(chars@.take(n as int).drop_last() =~= chars@.take(n - 1));
        if chars[n - 1] == '/' {
            return Some(n - 1);
        }
        n -= 1;
    }
    None
}

/// `ArcStr::substr` on ASCII text.
fn ascii_substr(s: &ArcStr, from: usize, to: usize) -> (r: Substr)
    requires
        is_ascii_chars(arcstr_text(*s)),
        from <= to <= arcstr_text(*s).len() <= MAX_NAME_LEN,
    ensures
        substr_text(r) == arcstr_text(*s).subrange(from as int, to as int),
{
    proof {
        lemma_ascii_bytes(arcstr_text(*s), from as int);
        lemma_ascii_bytes(arcstr_text(*s), to as int);
    }
    let r = arcstr_substr(s, from, to);
    proof {
        lemma_ascii_subrange(arcstr_text(*s), substr_text(r), from as int, to as int);
    }
    r
}

impl CaseName {
    /// Every value is a name in its canonical parts.
    #[verifier::type_invariant]
    spec fn well_formed(self) -> bool {
        &&& is_case_name(self@.text())
        &&& parts_of(self@.text()) == self@
    }

    /// Validate `name` against the grammar.
    pub fn parse(name: &str) -> (r: Result<Self, NameError>)
        ensures
            r is Ok <==> is_case_name(name@),
            match r {
                Ok(n) => name_fault(name@) is None && n@ == parts_of(name@),
                Err(e) => name_fault(name@) == Some(e@),
            },
    {
        Self::new(arcstr_from(name))
    }

    /// Validate an already shared string against the grammar: prefix and
    /// leaf are substrings of `name`.
    pub fn new(name: ArcStr) -> (r: Result<Self, NameError>)
        ensures
            r is Ok <==> is_case_name(arcstr_text(name)),
            match r {
                Ok(n) => name_fault(arcstr_text(name)) is None && n@ == parts_of(arcstr_text(name)),
                Err(e) => name_fault(arcstr_text(name)) == Some(e@),
            },
    {
        let ghost t = arcstr_text(name);
        proof {
            law_name_fault(t);
        }
        let text = name.as_str();
        if text.is_empty() {
            return Err(NameError::Empty);
        }
        let len = bytes_in(text);
        if len > MAX_NAME_LEN {
            return Err(NameError::TooLong(len));
        }
        let chars = chars_of(text);
        proof {
            lemma_last_index(t, '/');
        }
        match last_slash(&chars) {
            Some(i) => {
                let head = text_of(&chars, 0, i);
                let tail = text_of(&chars, i + 1, chars.len());
                assert(head@ =~= prefix_of(t));
                assert(tail@ =~= leaf_of(t));
                match validate_groups(&split_text(head.as_str(), '/')) {
                    Err(e) => {
                        return Err(e);
                    },
                    Ok(_) => {},
                }
                match validate_segment(tail.as_str()) {
                    Err(e) => {
                        return Err(e);
                    },
                    Ok(_) => {},
                }
                proof {
                    law_case_name_ascii(t);
                    law_parts_roundtrip(t);
                    lemma_ascii_bytes(t, 0);
                }
                let prefix = ascii_substr(&name, 0, i);
                let leaf = ascii_substr(&name, i + 1, len);
                assert(substr_text(prefix) =~= prefix_of(t));
                assert(substr_text(leaf) =~= leaf_of(t));
                Ok(CaseName { prefix, leaf })
            },
            None => {
                match validate_segment(text) {
                    Err(e) => {
                        return Err(e);
                    },
                    Ok(_) => {},
                }
                proof {
                    law_case_name_ascii(t);
                    law_parts_roundtrip(t);
                    lemma_ascii_bytes(t, 0);
                }
                let leaf = ascii_substr(&name, 0, len);
                assert(substr_text(leaf) =~= leaf_of(t));
                Ok(CaseName { prefix: Substr::new(), leaf })
            },
        }
    }

    /// Build a name from its canonical parts: `prefix` is everything before
    /// the last slash (label segments, possibly none) and `leaf` the last
    /// segment, which holds no slash.
    pub fn from_parts(prefix: Substr, leaf: Substr) -> (r: Result<Self, NameError>)
        ensures
            match r {
                Ok(n) => parts_fault(substr_text(prefix), substr_text(leaf)) is None && n@ == (
                NameParts { prefix: substr_text(prefix), leaf: substr_text(leaf) }),
                Err(e) => parts_fault(substr_text(prefix), substr_text(leaf)) == Some(e@),
            },
    {
        let ghost p = substr_text(prefix);
        let ghost l = substr_text(leaf);
        proof {
            law_parts_match_parsed(p, l);
        }
        let head = prefix.as_str();
        let tail = leaf.as_str();
        let total = if head.is_empty() {
            bytes_in(tail)
        } else {
            bytes_in(head) + 1 + bytes_in(tail)
        };
        if total > MAX_NAME_LEN {
            return Err(NameError::TooLong(total));
        }
        if !head.is_empty() {
            match validate_groups(&split_text(head, '/')) {
                Err(e) => {
                    return Err(e);
                },
                Ok(_) => {},
            }
        }
        let chars = chars_of(tail);
        proof {
            lemma_last_index(l, '/');
        }
        match last_slash(&chars) {
            Some(_) => {
                return Err(NameError::BadChar { segment: owned(tail), ch: '/' });
            },
            None => {},
        }
        match validate_segment(tail) {
            Err(e) => {
                return Err(e);
            },
            Ok(_) => {},
        }
        Ok(CaseName { prefix, leaf })
    }

    /// Build a generated case's name from its row's prefix (label segments)
    /// and the case's relative name. The result is the one that `parse`
    /// gives for `"{prefix}/{leaf}"`.
    pub fn prefixed(prefix: ArcStr, leaf: ArcStr) -> (r: Result<Self, NameError>)
        ensures
            r is Ok <==> is_case_name(joined(arcstr_text(prefix), arcstr_text(leaf))),
            match r {
                Ok(n) => n@ == parts_of(joined(arcstr_text(prefix), arcstr_text(leaf))),
                Err(e) => prefixed_fault(arcstr_text(prefix), arcstr_text(leaf)) == Some(e@),
            },
    {
        let ghost p = arcstr_text(prefix);
        let ghost l = arcstr_text(leaf);
        proof {
            law_prefixed_matches_parsed(p, l);
            law_prefixed_parts(p, l);
            law_name_fault(joined(p, l));
        }
        let head = prefix.as_str();
        let tail = leaf.as_str();
        if head.is_empty() {
            return Self::new(leaf);
        }
        let total = bytes_in(head) + 1 + bytes_in(tail);
        if total > MAX_NAME_LEN {
            return Err(NameError::TooLong(total));
        }
        if tail.is_empty() {
            return Err(NameError::EmptySegment);
        }
        let inner = split_text(tail, '/');
        proof {
            lemma_split_nonempty(l, '/');
        }
        let mut segments = split_text(head, '/');
        let ghost before = views(segments@);
        let ghost rest = split(l, '/').drop_last();
        let mut k: usize = inner.len() - 1;
        assert(rest.reverse().take(0) =~= Seq::<Seq<char>>::empty());
        assert(views(segments@) =~= before + rest.reverse().take(0));
        while k > 0
            invariant
                k <= rest.len(),
                rest.len() == inner@.len() - 1,
                rest == split(l, '/').drop_last(),
                views(inner@) == split(l, '/'),
                views(segments@) == before + rest.reverse().take(rest.len() - k),
            decreases k,
        {
            let ghost was = views(segments@);
            let ghost done = rest.len() - k;
            segments.push(inner[k - 1].clone());
            assert(views(inner@)[k - 1] == rest[k - 1]);
            assert(rest.reverse().take(done + 1) =~= rest.reverse().take(done).push(rest[k - 1]));
            assert(views(segments@) =~= was.push(rest[k - 1]));
            k -= 1;
        }
        assert(rest.reverse().take(rest.len() as int) =~= rest.reverse());
        match validate_groups(&segments) {
            Err(e) => {
                return Err(e);
            },
            Ok(_) => {},
        }
        let chars = chars_of(tail);
        proof {
            lemma_last_index(l, '/');
        }
        let slash = last_slash(&chars);
        let from = match slash {
            Some(i) => i + 1,
            None => 0,
        };
        let last = text_of(&chars, from, chars.len());
        assert(last@ =~= leaf_of(l));
        match validate_segment(last.as_str()) {
            Err(e) => {
                return Err(e);
            },
            Ok(_) => {},
        }
        let ghost whole = joined(p, l);
        proof {
            law_case_name_ascii(whole);
            law_parts_roundtrip(whole);
            lemma_joined_len(p, l);
            lemma_ascii_bytes(whole, 0);
            assert forall|j: int| 0 <= j < p.len() implies 0 <= #[trigger] p[j] as int <= 127 by {
                assert(whole[j] == p[j]);
            }
            assert forall|j: int| 0 <= j < l.len() implies 0 <= #[trigger] l[j] as int <= 127 by {
                assert(whole[p.len() + 1 + j] == l[j]);
            }
        }
        match slash {
            None => {
                let a = ascii_substr(&prefix, 0, chars_of(head).len());
                let b = ascii_substr(&leaf, 0, chars.len());
                assert(substr_text(a) =~= p);
                assert(substr_text(b) =~= l);
                Ok(CaseName { prefix: a, leaf: b })
            },
            Some(i) => {
                let mut text = owned(head);
                text.append("/");
                text.append(text_of(&chars, 0, i).as_str());
                proof {
                    reveal_strlit("/");
                    assert(text@ =~= p.push('/') + prefix_of(l));
                    assert forall|j: int| 0 <= j < text@.len() implies 0 <= #[trigger] text@[j] as int
                        <= 127 by {
                        assert(whole[j] == text@[j]);
                    }
                }
                let folded = arcstr_from(text.as_str());
                let a = ascii_substr(&folded, 0, chars_of(text.as_str()).len());
                let b = ascii_substr(&leaf, i + 1, chars.len());
                assert(substr_text(a) =~= text@);
                assert(substr_text(b) =~= leaf_of(l));
                Ok(CaseName { prefix: a, leaf: b })
            },
        }
    }

    /// The name as text.
    pub fn as_str(&self) -> (r: String)
        ensures
            r@ == self@.text(),
            is_case_name(r@),
            self@ == parts_of(r@),
    {
        proof {
            use_type_invariant(self);
        }
        let head = self.prefix.as_str();
        if head.is_empty() {
            assert(head@ =~= Seq::<char>::empty());
            owned(self.leaf.as_str())
        } else {
            let mut r = owned(head);
            r.append("/");
            r.append(self.leaf.as_str());
            proof {
                reveal_strlit("/");
                assert(r@ =~= self@.text());
            }
            r
        }
    }

    /// The name as text.
    pub fn to_string(&self) -> (r: String)
        ensures
            r@ == self@.text(),
    {
        self.as_str()
    }

    /// The segments of the name.
    pub fn segments(&self) -> (r: Vec<String>)
        ensures
            views(r@) == split(self@.text(), '/'),
    {
        split_text(self.as_str().as_str(), '/')
    }

    /// The grouping prefix (everything but the last segment), if any.
    pub fn prefix(&self) -> (r: Option<&str>)
        ensures
            match r {
                Some(p) => p@.len() > 0 && p@ == self@.prefix,
                None => self@.prefix.len() == 0,
            },
    {
        let p = self.prefix.as_str();
        if p.is_empty() {
            None
        } else {
            Some(p)
        }
    }

    /// The last segment.
    pub fn leaf(&self) -> (r: &str)
        ensures
            r@ == self@.leaf,
    {
        self.leaf.as_str()
    }
}

/// Does `name` stand under `prefix`: `prefix`, a slash, and more or nothing?
pub open spec fn under(name: Seq<char>, prefix: Seq<char>) -> bool {
    starts_with(name, prefix.push('/'))
}

/// Does `name` stand under `prefix`?
pub fn is_under(name: &str, prefix: &str) -> (r: bool)
    ensures
        r == under(name@, prefix@),
{
    let mut p = owned(prefix);
    p.push('/');
    has_prefix(name, p.as_str())
}

/// The order of case names: by prefix, then by leaf.
pub open spec fn name_lt(a: NameParts, b: NameParts) -> bool {
    text_lt(a.prefix, b.prefix) || (a.prefix == b.prefix && text_lt(a.leaf, b.leaf))
}

/// Is `a` before `b` in the order of case names?
pub fn name_before(a: &CaseName, b: &CaseName) -> (r: bool)
    ensures
        r == name_lt(a@, b@),
{
    let p = a.prefix.as_str();
    let q = b.prefix.as_str();
    before(p, q) || (same(p, q) && before(a.leaf.as_str(), b.leaf.as_str()))
}

/// Are two case names the same?
pub fn same_name(a: &CaseName, b: &CaseName) -> (r: bool)
    ensures
        r == (a@ == b@),
        r == (a@.text() == b@.text()),
{
    proof {
        use_type_invariant(a);
        use_type_invariant(b);
    }
    same(a.prefix.as_str(), b.prefix.as_str()) && same(a.leaf.as_str(), b.leaf.as_str())
}

// ---------------------------------------------------------------------
// Normalisation
// ---------------------------------------------------------------------

/// What becomes of one character of a source identifier.
pub open spec fn normal_char(c: char) -> char {
    if is_lower(c) || is_digit(c) || c == '-' || c == '.' {
        c
    } else if 'A' <= c <= 'Z' {
        ((c as int) + 32) as char
    } else {
        '_'
    }
}

/// A source identifier in a form that the grammar allows.
pub open spec fn normalized(s: Seq<char>) -> Seq<char> {
    let mapped = Seq::new(s.len(), |i: int| normal_char(s[i]));
    let short = if s.len() > MAX_SEGMENT_LEN { mapped.take(MAX_SEGMENT_LEN as int) } else { mapped };
    if s.len() == 0 || short == seq!['.'] {
        seq!['_']
    } else if short == seq!['.', '.'] {
        seq!['_', '_']
    } else {
        short
    }
}

/// A normalised identifier is a segment.
pub proof fn law_normalized_is_segment(s: Seq<char>)
    ensures
        is_segment(normalized(s)),
{
    let n = normalized(s);
    assert forall|i: int| 0 <= i < n.len() implies is_segment_char(#[trigger] n[i]) by {
        if n != seq!['_'] && n != seq!['_', '_'] {
            assert(n[i] == normal_char(s[i]));
        }
    }
    assert(is_ascii_chars(n)) by {
        assert forall|i: int| 0 <= i < n.len() implies 0 <= #[trigger] n[i] as int <= 127 by {
            assert(is_segment_char(n[i]));
        }
    }
    vstd::utf8::is_ascii_chars_encode_utf8(n);
    assert(seq!['_'][0] != seq!['.'][0]);
    assert(seq!['_', '_'][0] != seq!['.', '.'][0]);
    assert(seq!['_'].len() == 1 && seq!['_', '_'].len() == 2);
}

fn ascii_lower(c: char) -> (r: char)
    requires
        'A' <= c <= 'Z',
    ensures
        r == ((c as int) + 32) as char,
{
    ((c as u8) + 32) as char
}

/// Normalise a source-language identifier into a form that the grammar
/// allows: lowercase, and `_` for every character it forbids. Distinct
/// sources can merge, so callers check uniqueness afterwards.
pub fn normalize_segment(source: &str) -> (r: String)
    ensures
        r@ == normalized(source@),
        is_segment(r@),
{
    proof {
        law_normalized_is_segment(source@);
        reveal_strlit("_");
        reveal_strlit("__");
        reveal_strlit(".");
        reveal_strlit("..");
        assert("_"@ =~= seq!['_']);
        assert("__"@ =~= seq!['_', '_']);
        assert("."@ =~= seq!['.']);
        assert(".."@ =~= seq!['.', '.']);
    }
    let chars = chars_of(source);
    if chars.len() == 0 {
        return owned("_");
    }
    let n: usize = if chars.len() > MAX_SEGMENT_LEN { MAX_SEGMENT_LEN } else { chars.len() };
    let mut out = String::new();
    let mut i: usize = 0;
    while i < n
        invariant
            n <= chars@.len(),
            chars@ == source@,
            i <= n,
            out@ == Seq::new(i as nat, |k: int| normal_char(source@[k])),
        decreases n - i,
    {
        let c = chars[i];
        let ghost was = out@;
        if lower(c) || digit_char(c) || c == '-' || c == '.' {
            out.push(c);
        } else if 'A' <= c && c <= 'Z' {
            out.push(ascii_lower(c));
        } else {
            out.push('_');
        }
        assert(out@ =~= was.push(normal_char(source@[i as int])));
        i += 1;
    }
    assert(out@ =~= if source@.len() > MAX_SEGMENT_LEN {
        Seq::new(source@.len(), |k: int| normal_char(source@[k])).take(MAX_SEGMENT_LEN as int)
    } else {
        Seq::new(source@.len(), |k: int| normal_char(source@[k]))
    });
    if same(out.as_str(), ".") {
        owned("_")
    } else if same(out.as_str(), "..") {
        owned("__")
    } else {
        out
    }
}

// ---------------------------------------------------------------------
// Yes-or-no checks
// ---------------------------------------------------------------------

/// A prefix of a text is split like the text, as far as it goes.
proof fn lemma_split_prefix(s: Seq<char>, k: int, sep: char)
    requires
        0 <= k <= s.len(),
    ensures
        1 <= split(s.take(k), sep).len() <= split(s, sep).len(),
        forall|j: int|
            0 <= j < split(s.take(k), sep).len() - 1 ==> #[trigger] split(s.take(k), sep)[j]
                == split(s, sep)[j],
        split(s.take(k), sep).last().is_prefix_of(split(s, sep)[split(s.take(k), sep).len() - 1]),
    decreases s.len(),
{
    lemma_split_nonempty(s.take(k), sep);
    if k == s.len() {
        assert(s.take(k) =~= s);
    } else {
        lemma_split_prefix(s.drop_last(), k, sep);
        assert(s.drop_last().take(k) =~= s.take(k));
    }
}

/// What begins a word is a word itself.
proof fn lemma_word_prefix(w: Seq<char>, whole: Seq<char>, i: int)
    requires
        w.is_prefix_of(whole),
        w.len() > 0,
        is_word(whole, i),
    ensures
        is_word(w, i),
{
    assert(w[0] == whole[0]);
    assert forall|k: int| 0 <= k < w.len() implies w[k] == #[trigger] whole[k] by {
    }
    if is_letter_word(whole) {
        assert forall|k: int| 0 <= k < w.len() implies is_lower(#[trigger] w[k]) || is_digit(
            w[k],
        ) by {
            assert(w[k] == whole[k]);
        }
    } else {
        assert forall|k: int| 0 <= k < w.len() implies is_digit(#[trigger] w[k]) by {
            assert(w[k] == whole[k]);
        }
    }
}

/// A text that has gone wrong after `k` characters is no label.
proof fn lemma_not_label(s: Seq<char>, k: int)
    requires
        0 <= k < s.len(),
        ({
            let words = split(s.take(k), '-');
            if s[k] == '-' {
                words.last().len() == 0
            } else {
                !is_word(words.last().push(s[k]), words.len() - 1)
            }
        }),
    ensures
        !is_label(s),
{
    lemma_split_prefix(s, k + 1, '-');
    lemma_split_nonempty(s.take(k), '-');
    assert(s.take(k + 1).drop_last() =~= s.take(k));
    let words = split(s.take(k), '-');
    let more = split(s.take(k + 1), '-');
    let all = split(s, '-');
    let n = words.len() - 1;
    if s[k] == '-' {
        assert(more[n] == words[n]);
        assert(all[n] == more[n]);
        assert(!is_word(all[n], n));
    } else {
        assert(more.last() == words.last().push(s[k]));
        if is_label(s) {
            assert(is_word(all[n], n));
            lemma_word_prefix(more.last(), all[n], n);
        }
    }
}

/// Is `b[start..end]` a label?
fn const_valid_label_range(b: &[char], start: usize, end: usize) -> (r: bool)
    requires
        start <= end <= b@.len(),
    ensures
        r == is_label(b@.subrange(start as int, end as int)),
{
    let ghost s = b@.subrange(start as int, end as int);
    let mut i: usize = start;
    let mut first: bool = true;
    let mut letters: bool = false;
    let mut digits: bool = false;
    assert(split(s.take(0), '-') =~= seq![Seq::<char>::empty()]);
    while i < end
        invariant
            start <= i <= end <= b@.len(),
            s == b@.subrange(start as int, end as int),
            first == (split(s.take(i - start), '-').len() == 1),
            split(s.take(i - start), '-').len() >= 1,
            forall|j: int|
                0 <= j < split(s.take(i - start), '-').len() - 1 ==> is_word(
                    #[trigger] split(s.take(i - start), '-')[j],
                    j,
                ),
            letters ==> is_letter_word(split(s.take(i - start), '-').last()),
            digits ==> !first && is_number_word(split(s.take(i - start), '-').last()),
            !letters && !digits ==> split(s.take(i - start), '-').last().len() == 0,
        decreases end - i,
    {
        let c = b[i];
        let ghost k = i - start;
        let ghost words = split(s.take(k), '-');
        let ghost more = split(s.take(k + 1), '-');
        assert(s.take(k + 1).drop_last() =~= s.take(k));
        assert(s[k] == c);
        assert(s.take(k + 1).last() == c);
        let ghost w = words.last().push(c);
        if c == '-' {
            if !letters && !digits {
                proof {
                    lemma_not_label(s, k);
                }
                return false;
            }
            assert(more == words.push(Seq::<char>::empty()));
            assert forall|j: int| 0 <= j < more.len() - 1 implies is_word(#[trigger] more[j], j) by {
                if j < words.len() - 1 {
                    assert(more[j] == words[j]);
                } else {
                    assert(more[j] == words.last());
                }
            }
            first = false;
            letters = false;
            digits = false;
        } else {
            assert(more == words.update(words.len() - 1, w));
            assert forall|j: int| 0 <= j < more.len() - 1 implies is_word(#[trigger] more[j], j) by {
                assert(more[j] == words[j]);
            }
            if letters {
                if !lower(c) && !digit_char(c) {
                    proof {
                        assert(!is_lower(w[w.len() - 1]) && !is_digit(w[w.len() - 1]));
                        lemma_not_label(s, k);
                    }
                    return false;
                }
                assert(is_letter_word(w)) by {
                    assert(w[0] == words.last()[0]);
                }
            } else if digits {
                if !digit_char(c) {
                    proof {
                        assert(!is_digit(w[w.len() - 1]));
                        assert(w[0] == words.last()[0]);
                        assert(is_digit(words.last()[0]));
                        lemma_not_label(s, k);
                    }
                    return false;
                }
            } else {
                assert(w =~= seq![c]);
                if lower(c) {
                    letters = true;
                } else if digit_char(c) && !first {
                    digits = true;
                } else {
                    proof {
                        assert(w[0] == c);
                        lemma_not_label(s, k);
                    }
                    return false;
                }
            }
        }
        i += 1;
    }
    assert(s.take(i - start) =~= s);
    let ghost words = split(s, '-');
    if letters || digits {
        assert forall|j: int| 0 <= j < words.len() implies is_word(#[trigger] words[j], j) by {
            if j == words.len() - 1 {
                assert(words[j] == words.last());
            }
        }
        true
    } else {
        assert(!is_word(words[words.len() - 1], words.len() - 1));
        false
    }
}

/// Is every character of `b` one that a segment may hold?
fn const_segment_chars(b: &[char]) -> (r: bool)
    ensures
        r == forall|i: int| 0 <= i < b@.len() ==> is_segment_char(#[trigger] b@[i]),
{
    let mut i: usize = 0;
    while i < b.len()
        invariant
            i <= b@.len(),
            forall|k: int| 0 <= k < i ==> is_segment_char(#[trigger] b@[k]),
        decreases b.len() - i,
    {
        if !segment_char_ok(b[i]) {
            return false;
        }
        i += 1;
    }
    true
}

/// Is `s` a case name? The answer of [`CaseName::parse`], without the name
/// and without the reason.
pub fn const_valid_name(s: &str) -> (r: bool)
    ensures
        r == is_case_name(s@),
        r == (name_fault(s@) is None),
{
    proof {
        law_name_fault(s@);
        lemma_split_nonempty(s@, '/');
    }
    if s.is_empty() || bytes_in(s) > MAX_NAME_LEN {
        return false;
    }
    let segments = split_text(s, '/');
    let ghost all = split(s@, '/');
    let mut i: usize = 0;
    while i < segments.len()
        invariant
            i <= segments@.len(),
            all == split(s@, '/'),
            views(segments@) == all,
            is_case_name(s@) <==> name_fault(s@) is None,
            forall|k: int| 0 <= k < i ==> is_segment(#[trigger] all[k]),
            forall|k: int| 0 <= k < i && k < all.len() - 1 ==> is_label(#[trigger] all[k]),
        decreases segments.len() - i,
    {
        let seg = segments[i].as_str();
        assert(all[i as int] == seg@);
        proof {
            law_segment_fault(seg@);
            reveal_strlit(".");
            reveal_strlit("..");
            assert("."@ =~= seq!['.']);
            assert(".."@ =~= seq!['.', '.']);
        }
        let b = chars_of(seg);
        if b.len() == 0 || bytes_in(seg) > MAX_SEGMENT_LEN || same(seg, ".") || same(seg, "..") {
            assert(!is_segment(all[i as int]));
            return false;
        }
        if !const_segment_chars(&b) {
            assert(!is_segment(all[i as int]));
            return false;
        }
        assert(b@.subrange(0, b@.len() as int) =~= seg@);
        if i + 1 < segments.len() && !const_valid_label_range(&b, 0, b.len()) {
            assert(!is_label(all[i as int]));
            return false;
        }
        i += 1;
    }
    true
}

/// The text of a feature mark: a label, or `!` and a label.
pub open spec fn is_mark_text(s: Seq<char>) -> bool {
    if s.len() > 0 && s[0] == '!' { is_label(s.skip(1)) } else { is_label(s) }
}

/// Is `s` the text of a feature mark?
pub fn const_valid_tag(s: &str) -> (r: bool)
    ensures
        r == is_mark_text(s@),
{
    let b = chars_of(s);
    let start: usize = if b.len() > 0 && b[0] == '!' { 1 } else { 0 };
    assert(b@.subrange(start as int, b@.len() as int) =~= if start == 1 { s@.skip(1) } else { s@ });
    const_valid_label_range(&b, start, b.len())
}

/// A segment is at fault by what it is first: empty, too long, a bare dot or
/// two, or the first of its characters that may not be there.
pub proof fn law_segment_fault_says(s: Seq<char>)
    ensures
        match segment_fault(s) {
            Some(NameFault::EmptySegment) => s.len() == 0,
            Some(NameFault::SegmentTooLong(t)) => t == s && s.len() > 0 && byte_len(s) > 64,
            Some(NameFault::DotSegment(t)) => t == s && (s == seq!['.'] || s == seq!['.', '.']),
            Some(NameFault::BadChar(t, c)) => t == s && byte_len(s) <= 64 && exists|i: int|
                0 <= i < s.len() && #[trigger] s[i] == c && !is_segment_char(c) && forall|k: int|
                    0 <= k < i ==> is_segment_char(#[trigger] s[k]),
            Some(_) => false,
            None => is_segment(s),
        },
{
    lemma_first_bad_says(s, 0);
    law_segment_fault(s);
    let at = first_bad_char(s, 0);
    if at < s.len() {
        assert(s[at] == s[at]);
    }
}

proof fn lemma_first_bad_says(s: Seq<char>, i: int)
    requires
        0 <= i <= s.len(),
    ensures
        i <= first_bad_char(s, i) <= s.len(),
        forall|k: int| i <= k < first_bad_char(s, i) ==> is_segment_char(#[trigger] s[k]),
        first_bad_char(s, i) < s.len() ==> !is_segment_char(s[first_bad_char(s, i)]),
    decreases s.len() - i,
{
    if i < s.len() && is_segment_char(s[i]) {
        lemma_first_bad_says(s, i + 1);
    }
}

/// What is wrong with the segment at `k`: any but the last has to be a label
/// besides.
pub open spec fn fault_at(segments: Seq<Seq<char>>, k: int) -> Option<NameFault> {
    if segment_fault(segments[k]) is Some || k == segments.len() - 1 {
        segment_fault(segments[k])
    } else if label_fault(segments[k]) is Some {
        Some(NameFault::NonLabelPrefix(segments[k], label_fault(segments[k])->0))
    } else {
        None
    }
}

/// Is this the fault of the first segment that has one?
pub open spec fn is_first_fault(segments: Seq<Seq<char>>, k: int, f: NameFault) -> bool {
    &&& 0 <= k < segments.len()
    &&& fault_at(segments, k) == Some(f)
    &&& forall|x: int| 0 <= x < k ==> #[trigger] fault_at(segments, x) is None
}

proof fn lemma_groups_say(groups: Seq<Seq<char>>, all: Seq<Seq<char>>, i: int)
    requires
        0 <= i <= groups.len() < all.len(),
        all.take(groups.len() as int) == groups,
        forall|x: int| 0 <= x < i ==> #[trigger] fault_at(all, x) is None,
    ensures
        match groups_fault(groups, i) {
            Some(f) => exists|k: int| #[trigger] is_first_fault(all, k, f),
            None => forall|x: int| 0 <= x < groups.len() ==> #[trigger] fault_at(all, x) is None,
        },
    decreases groups.len() - i,
{
    if i < groups.len() {
        assert(all.take(groups.len() as int)[i] == all[i]);
        assert(fault_at(all, i) == group_fault(groups[i]));
        match group_fault(groups[i]) {
            Some(f) => {
                assert(is_first_fault(all, i, f));
            },
            None => {
                lemma_groups_say(groups, all, i + 1);
            },
        }
    }
}

/// A name is at fault by its length, or by the first of its segments that is
/// at fault.
pub proof fn law_name_fault_says(s: Seq<char>)
    ensures
        s.len() == 0 ==> name_fault(s) == Some(NameFault::Empty),
        s.len() > 0 && byte_len(s) > 256 ==> name_fault(s) == Some(NameFault::TooLong(byte_len(s))),
        s.len() > 0 && byte_len(s) <= 256 ==> match name_fault(s) {
            Some(f) => exists|k: int| #[trigger] is_first_fault(split(s, '/'), k, f),
            None => is_case_name(s),
        },
{
    law_name_fault(s);
    lemma_split_at_last_slash(s);
    let all = split(s, '/');
    if s.len() > 0 && byte_len(s) <= 256 && name_fault(s) is Some {
        let f = name_fault(s)->0;
        if last_index(s, '/') < 0 {
            assert(all[0] == s);
            assert(fault_at(all, 0) == segment_fault(s));
            assert(is_first_fault(all, 0, f));
        } else {
            let groups = split(prefix_of(s), '/');
            let n = groups.len() as int;
            assert(all.take(n) =~= groups);
            lemma_groups_say(groups, all, 0);
            if groups_fault(groups, 0) is None {
                assert(all[n] == leaf_of(s));
                assert(fault_at(all, n) == segment_fault(leaf_of(s)));
                assert(is_first_fault(all, n, f));
            }
        }
    }
}

/// A label is at fault by the first of its words that is at fault.
pub proof fn law_label_fault_says(s: Seq<char>)
    ensures
        s.len() == 0 ==> label_fault(s) == Some("empty"@),
        s.len() > 0 ==> match label_fault(s) {
            Some(why) => exists|k: int|
                0 <= k < split(s, '-').len() && word_fault(#[trigger] split(s, '-')[k], k) == Some(
                    why,
                ) && forall|x: int|
                    0 <= x < k ==> word_fault(#[trigger] split(s, '-')[x], x) is None,
            None => is_label(s),
        },
{
    law_label_fault(s);
    lemma_words_say(split(s, '-'), 0);
}

proof fn lemma_words_say(words: Seq<Seq<char>>, i: int)
    requires
        0 <= i <= words.len(),
    ensures
        match words_fault(words, i) {
            Some(why) => exists|k: int|
                i <= k < words.len() && word_fault(#[trigger] words[k], k) == Some(why) && forall|
                    x: int,
                |
                    i <= x < k ==> word_fault(#[trigger] words[x], x) is None,
            None => true,
        },
    decreases words.len() - i,
{
    if i < words.len() {
        lemma_words_say(words, i + 1);
        if word_fault(words[i], i) is Some {
            let k = i;
            assert(word_fault(words[k], k) == words_fault(words, i));
        }
    }
}

/// Normalising keeps what a segment may hold, lowers capitals, puts an
/// underscore for anything else, and keeps no more than a segment has room
/// for. What is a segment already stays as it is.
pub proof fn law_normalized(s: Seq<char>, i: int)
    ensures
        is_segment(s) ==> normalized(s) == s,
        normalized(s).len() == if s.len() == 0 {
            1nat
        } else if s.len() > 64 {
            64nat
        } else {
            s.len()
        },
        0 <= i < s.len() && i < 64 && !(s == seq!['.'] || s == seq!['.', '.']) ==> {
            let c = normalized(s)[i];
            if is_segment_char(s[i]) {
                c == s[i]
            } else if 'A' <= s[i] <= 'Z' {
                'a' <= c <= 'z' && c as int - 'a' as int == s[i] as int - 'A' as int
            } else {
                c == '_'
            }
        },
{
    let mapped = Seq::new(s.len(), |i: int| normal_char(s[i]));
    let short = if s.len() > MAX_SEGMENT_LEN { mapped.take(MAX_SEGMENT_LEN as int) } else { mapped };
    if s.len() > 0 {
        assert(short.len() == if s.len() > 64 { 64nat } else { s.len() });
        assert forall|c: char| #[trigger] normal_char(c) == '.' implies c == '.' by {}
        if short == seq!['.'] {
            assert(short[0] == seq!['.'][0]);
            assert(mapped[0] == short[0]);
            assert(normal_char(s[0]) == '.');
            assert(s =~= seq!['.']);
        }
        if short == seq!['.', '.'] {
            assert(short[0] == seq!['.', '.'][0] && short[1] == seq!['.', '.'][1]);
            assert(mapped[0] == short[0] && mapped[1] == short[1]);
            assert(normal_char(s[0]) == '.' && normal_char(s[1]) == '.');
            assert(s =~= seq!['.', '.']);
        }
        if is_segment(s) {
            lemma_segment_ascii(s);
            lemma_ascii_bytes(s, 0);
            assert(s.len() <= 64);
            assert forall|k: int| 0 <= k < s.len() implies #[trigger] short[k] == s[k] by {
                assert(is_segment_char(s[k]));
            }
            assert(short =~= s);
        }
    }
}

} // verus!
