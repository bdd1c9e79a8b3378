//! Feature marks that share their text: the marks of a row of generated
//! cases are held once however many cases the row has.

use std::sync::Arc;

use arcstr::ArcStr;
use vstd::prelude::*;

use crate::feature::{
    applies_to, clash_from, excluding, excluding_from, is_mark_set, law_applies_or_excluded,
    law_mark_fault, law_mark_set_fault, law_mark_text_roundtrip, mark_fault, mark_fault_text,
    mark_of, mark_set_fault, mark_text, satisfied, set_fault_from, MarkFault, MarkSetFault,
    MarkView,
};
use crate::name::{is_mark_text, is_wit_label};
use crate::shared::{arcstr_clone, arcstr_from, arcstr_text};
use crate::table::{has_key, keys, law_lookup_put, lemma_lookup, lookup, put, Table};
use crate::text::{chars_of, listed, owned, same, text_of, texts, views, Text};

verus! {

/// One mark. Feature names are WIT labels.
#[derive(Debug, PartialEq, Eq, Hash, PartialOrd, Ord)]
pub enum Tag {
    /// `<feature>`: requires the target to have the feature.
    Requires(ArcStr),
    /// `!<feature>`: requires the target to lack the feature.
    Declines(ArcStr),
}

impl View for Tag {
    type V = MarkView;

    open spec fn view(&self) -> MarkView {
        match *self {
            Tag::Requires(f) => MarkView { feature: arcstr_text(f), negative: false },
            Tag::Declines(f) => MarkView { feature: arcstr_text(f), negative: true },
        }
    }
}

impl Clone for Tag {
    fn clone(&self) -> (r: Self)
        ensures
            r@ == self@,
    {
        match self {
            Tag::Requires(f) => Tag::Requires(arcstr_clone(f)),
            Tag::Declines(f) => Tag::Declines(arcstr_clone(f)),
        }
    }
}

/// Why a text is no mark.
#[derive(Debug, Clone, PartialEq, Eq)]
pub enum TagParseError {
    Empty,
    BadFeatureName { name: String, reason: &'static str },
}

impl View for TagParseError {
    type V = MarkFault;

    open spec fn view(&self) -> MarkFault {
        match *self {
            TagParseError::Empty => MarkFault::Empty,
            TagParseError::BadFeatureName { name, reason } => MarkFault::BadFeatureName(
                name@,
                reason@,
            ),
        }
    }
}

impl TagParseError {
    /// The error as a message.
    pub fn to_string(&self) -> (r: String)
        ensures
            r@ == mark_fault_text(self@),
    {
        match self {
            TagParseError::Empty => owned("empty mark"),
            TagParseError::BadFeatureName { name, reason } => {
                let mut r = owned("feature name `");
                r.append(name.as_str());
                r.append("` is not a WIT label (");
                r.append(reason);
                r.append(")");
                r
            },
        }
    }
}

impl Tag {
    /// Read the textual form: `feature` or `!feature`.
    pub fn parse(s: &str) -> (r: Result<Self, TagParseError>)
        ensures
            r is Ok <==> is_mark_text(s@),
            match r {
                Ok(m) => mark_fault(s@) is None && m@ == mark_of(s@) && mark_text(m@) == s@,
                Err(e) => mark_fault(s@) == Some(e@),
            },
    {
        proof {
            law_mark_fault(s@);
            law_mark_text_roundtrip(s@);
        }
        let chars = chars_of(s);
        let negated = chars.len() > 0 && chars[0] == '!';
        let from: usize = if negated { 1 } else { 0 };
        let name = text_of(&chars, from, chars.len());
        assert(name@ =~= mark_of(s@).feature);
        if name.as_str().is_empty() {
            return Err(TagParseError::Empty);
        }
        match is_wit_label(name.as_str()) {
            Some(reason) => Err(TagParseError::BadFeatureName { name, reason }),
            None => if negated {
                Ok(Tag::Declines(arcstr_from(name.as_str())))
            } else {
                Ok(Tag::Requires(arcstr_from(name.as_str())))
            },
        }
    }

    /// The feature that the mark is about.
    pub fn feature(&self) -> (r: &str)
        ensures
            r@ == self@.feature,
    {
        match self {
            Tag::Requires(f) => f.as_str(),
            Tag::Declines(f) => f.as_str(),
        }
    }

    /// Is the mark of the form `!<feature>`?
    pub fn is_negative(&self) -> (r: bool)
        ensures
            r == self@.negative,
    {
        match self {
            Tag::Requires(_) => false,
            Tag::Declines(_) => true,
        }
    }

    /// The mark as text.
    pub fn to_string(&self) -> (r: String)
        ensures
            r@ == mark_text(self@),
    {
        match self {
            Tag::Requires(f) => owned(f.as_str()),
            Tag::Declines(f) => {
                let mut r = owned("!");
                r.append(f.as_str());
                proof {
                    reveal_strlit("!");
                    assert(r@ =~= mark_text(self@));
                }
                r
            },
        }
    }
}

/// The views of a list of marks.
pub open spec fn tag_views(v: Seq<Tag>) -> Seq<MarkView> {
    Seq::new(v.len(), |i: int| v[i]@)
}

/// Why a list of marks is no mark set.
#[derive(Debug, Clone, PartialEq, Eq)]
pub enum TagsError {
    /// The same feature appears with both polarities: such a case could
    /// never apply anywhere.
    Contradiction(String),
    /// The same mark appears twice.
    Duplicate(String),
}

impl View for TagsError {
    type V = MarkSetFault;

    open spec fn view(&self) -> MarkSetFault {
        match *self {
            TagsError::Contradiction(f) => MarkSetFault::Contradiction(f@),
            TagsError::Duplicate(m) => MarkSetFault::Duplicate(m@),
        }
    }
}

/// The message of a mark-set fault.
pub open spec fn tags_fault_text(f: MarkSetFault) -> Seq<char> {
    match f {
        MarkSetFault::Contradiction(feature) => "contradictory tags: both `"@ + feature
            + "` and `!"@ + feature + "`"@,
        MarkSetFault::Duplicate(mark) => "duplicate mark `"@ + mark + "`"@,
    }
}

impl TagsError {
    /// The error as a message.
    pub fn to_string(&self) -> (r: String)
        ensures
            r@ == tags_fault_text(self@),
    {
        match self {
            TagsError::Contradiction(feature) => {
                let mut r = owned("contradictory tags: both `");
                r.append(feature.as_str());
                r.append("` and `!");
                r.append(feature.as_str());
                r.append("`");
                r
            },
            TagsError::Duplicate(mark) => {
                let mut r = owned("duplicate mark `");
                r.append(mark.as_str());
                r.append("`");
                r
            },
        }
    }
}

/// Are two marks the same?
fn same_mark(a: &Tag, b: &Tag) -> (r: bool)
    ensures
        r == (a@ == b@),
{
    a.is_negative() == b.is_negative() && same(a.feature(), b.feature())
}

/// Does a target that lacks `missing` satisfy the mark?
fn mark_satisfied<S: Text>(mark: &Tag, missing: &[S]) -> (r: bool)
    ensures
        r == satisfied(mark@, texts(missing@)),
{
    mark.is_negative() == listed(missing, mark.feature())
}

/// The marks that a list of texts is read as.
pub open spec fn marks_of(ts: Seq<Seq<char>>) -> Seq<MarkView> {
    Seq::new(ts.len(), |i: int| mark_of(ts[i]))
}

/// The first fault of a text from the `i`-th on.
pub open spec fn first_mark_fault(ts: Seq<Seq<char>>, i: int) -> Option<MarkFault>
    decreases ts.len() - i,
{
    if i < 0 || i >= ts.len() {
        None
    } else {
        match mark_fault(ts[i]) {
            Some(f) => Some(f),
            None => first_mark_fault(ts, i + 1),
        }
    }
}

/// What is wrong with a list of texts that is to be a mark set, in words.
pub open spec fn tag_list_fault(ts: Seq<Seq<char>>) -> Option<Seq<char>> {
    match first_mark_fault(ts, 0) {
        Some(f) => Some(mark_fault_text(f)),
        None => match mark_set_fault(marks_of(ts)) {
            Some(f) => Some(tags_fault_text(f)),
            None => None,
        },
    }
}

/// A case's validated mark set: at most one mark per feature. The set is
/// reference-counted: giving it to another case copies no mark.
#[derive(Debug, PartialEq, Eq)]
pub struct Tags(Arc<Vec<Tag>>);

impl View for Tags {
    type V = Seq<MarkView>;

    closed spec fn view(&self) -> Seq<MarkView> {
        tag_views(self.0@)
    }
}

impl Clone for Tags {
    fn clone(&self) -> (r: Self)
        ensures
            r@ == self@,
    {
        proof {
            use_type_invariant(self);
        }
        Tags(self.0.clone())
    }
}

impl Default for Tags {
    fn default() -> (r: Self)
        ensures
            r@ == Seq::<MarkView>::empty(),
    {
        let v: Vec<Tag> = Vec::new();
        assert(tag_views(v@) =~= Seq::<MarkView>::empty());
        Tags(Arc::new(v))
    }
}

impl Tags {
    /// Every value names each feature at most once.
    #[verifier::type_invariant]
    spec fn well_formed(self) -> bool {
        is_mark_set(self@)
    }

    /// Validate and construct.
    pub fn new(marks: Vec<Tag>) -> (r: Result<Self, TagsError>)
        ensures
            r is Ok <==> is_mark_set(tag_views(marks@)),
            match r {
                Ok(s) => mark_set_fault(tag_views(marks@)) is None && s@ == tag_views(marks@),
                Err(e) => mark_set_fault(tag_views(marks@)) == Some(e@),
            },
    {
        let ghost ms = tag_views(marks@);
        proof {
            law_mark_set_fault(ms);
        }
        let mut i: usize = 0;
        while i < marks.len()
            invariant
                i <= marks@.len(),
                ms == tag_views(marks@),
                mark_set_fault(ms) is None <==> is_mark_set(ms),
                mark_set_fault(ms) == set_fault_from(ms, i as int),
            decreases marks.len() - i,
        {
            let mut j: usize = 0;
            while j < i
                invariant
                    j <= i < marks@.len(),
                    ms == tag_views(marks@),
                    mark_set_fault(ms) is None <==> is_mark_set(ms),
                    mark_set_fault(ms) == set_fault_from(ms, i as int),
                    clash_from(ms, i as int, 0) == clash_from(ms, i as int, j as int),
                decreases i - j,
            {
                assert(ms[i as int] == marks@[i as int]@ && ms[j as int] == marks@[j as int]@);
                if same_mark(&marks[j], &marks[i]) {
                    return Err(TagsError::Duplicate(marks[i].to_string()));
                }
                if same(marks[j].feature(), marks[i].feature()) {
                    return Err(TagsError::Contradiction(owned(marks[i].feature())));
                }
                j += 1;
            }
            i += 1;
        }
        Ok(Tags(Arc::new(marks)))
    }

    /// Read and validate a list of marks.
    pub fn parse_all<S: Text>(tags: &[S]) -> (r: Result<Self, String>)
        ensures
            match r {
                Ok(s) => tag_list_fault(texts(tags@)) is None && s@ == marks_of(texts(tags@)),
                Err(e) => tag_list_fault(texts(tags@)) == Some(e@),
            },
    {
        let ghost ts = texts(tags@);
        let mut parsed: Vec<Tag> = Vec::new();
        let mut i: usize = 0;
        while i < tags.len()
            invariant
                i <= tags@.len(),
                ts == texts(tags@),
                parsed@.len() == i,
                forall|k: int| 0 <= k < i ==> (#[trigger] parsed@[k])@ == mark_of(ts[k]),
                first_mark_fault(ts, 0) == first_mark_fault(ts, i as int),
            decreases tags.len() - i,
        {
            assert(ts[i as int] == tags@[i as int].text());
            match Tag::parse(tags[i].as_text()) {
                Ok(t) => parsed.push(t),
                Err(e) => {
                    return Err(e.to_string());
                },
            }
            i += 1;
        }
        assert(tag_views(parsed@) =~= marks_of(ts));
        match Tags::new(parsed) {
            Ok(s) => Ok(s),
            Err(e) => Err(e.to_string()),
        }
    }

    /// The marks in order.
    pub fn iter(&self) -> (r: std::slice::Iter<'_, Tag>)
        ensures
            tag_views(vstd::std_specs::iter::IteratorSpec::remaining(&r).unref()) == self@,
    {
        let s = self.as_slice();
        let r = s.iter();
        assert(vstd::std_specs::iter::IteratorSpec::remaining(&r).unref() =~= s@);
        r
    }

    /// The marks in order.
    pub fn as_slice(&self) -> (r: &[Tag])
        ensures
            tag_views(r@) == self@,
            is_mark_set(self@),
    {
        proof {
            use_type_invariant(self);
        }
        self.0.as_slice()
    }

    /// Is there no mark?
    pub fn is_empty(&self) -> (r: bool)
        ensures
            r == (self@.len() == 0),
    {
        self.as_slice().len() == 0
    }

    /// Does a target that lacks `missing_features` get this case? Every
    /// required feature has to be there and every declined one missing.
    pub fn applies<S: Text>(&self, missing_features: &[S]) -> (r: bool)
        ensures
            r == applies_to(self@, texts(missing_features@)),
            r == (excluding(self@, texts(missing_features@)) is None),
    {
        proof {
            law_applies_or_excluded(self@, texts(missing_features@));
        }
        self.excluding_mark(missing_features).is_none()
    }

    /// The mark that excludes this case from a target that lacks
    /// `missing_features`, if one does.
    pub fn excluding_mark<S: Text>(&self, missing_features: &[S]) -> (r: Option<&Tag>)
        ensures
            match r {
                Some(m) => excluding(self@, texts(missing_features@)) == Some(m@),
                None => excluding(self@, texts(missing_features@)) is None,
            },
    {
        excluding_tag(self.as_slice(), missing_features)
    }
}

/// The first of the marks that excludes a case from a target that lacks
/// `missing`, if one does.
pub(crate) fn excluding_tag<'a, S: Text>(marks: &'a [Tag], missing: &[S]) -> (r: Option<&'a Tag>)
    ensures
        match r {
            Some(m) => excluding(tag_views(marks@), texts(missing@)) == Some(m@),
            None => excluding(tag_views(marks@), texts(missing@)) is None,
        },
{
    let ghost ms = tag_views(marks@);
    let mut i: usize = 0;
    while i < marks.len()
        invariant
            i <= marks@.len(),
            ms == tag_views(marks@),
            excluding(ms, texts(missing@)) == excluding_from(ms, texts(missing@), i as int),
        decreases marks.len() - i,
    {
        assert(ms[i as int] == marks@[i as int]@);
        if !mark_satisfied(&marks[i], missing) {
            return Some(&marks[i]);
        }
        i += 1;
    }
    None
}

// ---------------------------------------------------------------------
// Decline pairs
// ---------------------------------------------------------------------

/// Is the feature declined by one of the marks?
pub open spec fn is_declined(ms: Seq<MarkView>, feature: Seq<char>) -> bool {
    exists|i: int| 0 <= i < ms.len() && (#[trigger] ms[i]).negative && ms[i].feature == feature
}

/// Among the first `n` marks, the features that one requires and none of all
/// marks declines.
pub open spec fn unpaired_among(ms: Seq<MarkView>, n: int) -> Seq<(Seq<char>, ())>
    decreases n,
{
    if n <= 0 {
        Seq::<(Seq<char>, ())>::empty()
    } else {
        let init = unpaired_among(ms, n - 1);
        let m = ms[n - 1];
        if !m.negative && !is_declined(ms, m.feature) {
            put(init, m.feature, ())
        } else {
            init
        }
    }
}

/// The features that a mark requires and none declines, in order.
pub open spec fn unpaired(ms: Seq<MarkView>) -> Seq<Seq<char>> {
    keys(unpaired_among(ms, ms.len() as int))
}

/// The features that the marks name, in order.
pub open spec fn features_named(ms: Seq<MarkView>) -> Seq<(Seq<char>, ())>
    decreases ms.len(),
{
    if ms.len() == 0 {
        Seq::<(Seq<char>, ())>::empty()
    } else {
        put(features_named(ms.drop_last()), ms.last().feature, ())
    }
}

fn declined(tags: &[Tag], feature: &str) -> (r: bool)
    ensures
        r == is_declined(tag_views(tags@), feature@),
{
    let ghost ms = tag_views(tags@);
    for i in 0..tags.len()
        invariant
            ms == tag_views(tags@),
            forall|k: int|
                0 <= k < i ==> !((#[trigger] ms[k]).negative && ms[k].feature == feature@),
    {
        assert(ms[i as int] == tags@[i as int]@);
        if tags[i].is_negative() && same(tags[i].feature(), feature) {
            return true;
        }
    }
    false
}

/// The features that some case requires and no case declines: without a
/// declining twin nothing holds a target to what it declares missing.
pub fn unpaired_positive_features(tags: &[Tag]) -> (r: Vec<String>)
    ensures
        views(r@) == unpaired(tag_views(tags@)),
{
    let ghost ms = tag_views(tags@);
    let mut out: Table<()> = Table::new();
    let mut i: usize = 0;
    while i < tags.len()
        invariant
            i <= tags@.len(),
            ms == tag_views(tags@),
            out@ == unpaired_among(ms, i as int),
        decreases tags.len() - i,
    {
        assert(ms[i as int] == tags@[i as int]@);
        if !tags[i].is_negative() && !declined(tags, tags[i].feature()) {
            out.insert(owned(tags[i].feature()), ());
        }
        i += 1;
    }
    out.to_keys()
}

/// The features that the tags name.
pub fn named_features(tags: &[Tag]) -> (r: Table<()>)
    ensures
        r@ == features_named(tag_views(tags@)),
{
    let ghost ms = tag_views(tags@);
    let mut out: Table<()> = Table::new();
    let mut i: usize = 0;
    assert(out@ =~= features_named(ms.take(0)));
    while i < tags.len()
        invariant
            i <= tags@.len(),
            ms == tag_views(tags@),
            out@ == features_named(ms.take(i as int)),
        decreases tags.len() - i,
    {
        assert(ms.take(i + 1).drop_last() =~= ms.take(i as int));
        assert(ms.take(i + 1).last() == tags@[i as int]@);
        out.insert(owned(tags[i].feature()), ());
        i += 1;
    }
    assert(ms.take(i as int) =~= ms);
    out
}

/// A copy of a list of tags.
pub fn clone_tags(tags: &[Tag]) -> (r: Vec<Tag>)
    ensures
        tag_views(r@) == tag_views(tags@),
{
    let mut r: Vec<Tag> = Vec::new();
    for i in 0..tags.len()
        invariant
            r@.len() == i,
            forall|k: int| 0 <= k < i ==> (#[trigger] r@[k])@ == tags@[k]@,
    {
        r.push(tags[i].clone());
    }
    assert(tag_views(r@) =~= tag_views(tags@));
    r
}

/// Do two lists of tags agree?
pub fn same_tags(a: &[Tag], b: &[Tag]) -> (r: bool)
    ensures
        r == (tag_views(a@) == tag_views(b@)),
{
    if a.len() != b.len() {
        assert(tag_views(a@).len() != tag_views(b@).len());
        return false;
    }
    for i in 0..a.len()
        invariant
            a@.len() == b@.len(),
            forall|k: int| 0 <= k < i ==> (#[trigger] a@[k])@ == b@[k]@,
    {
        if !same_mark(&a[i], &b[i]) {
            assert(tag_views(a@)[i as int] != tag_views(b@)[i as int]);
            return false;
        }
    }
    assert(tag_views(a@) =~= tag_views(b@));
    true
}

// ---------------------------------------------------------------------
// Laws
// ---------------------------------------------------------------------

proof fn lemma_unpaired_among(ms: Seq<MarkView>, n: int, f: Seq<char>)
    requires
        0 <= n <= ms.len(),
    ensures
        lookup(unpaired_among(ms, n), f) is Some <==> !ms.contains(
            MarkView { feature: f, negative: true },
        ) && exists|i: int| 0 <= i < n && (#[trigger] ms[i]).feature == f && !ms[i].negative,
    decreases n,
{
    assert(is_declined(ms, f) <==> ms.contains(MarkView { feature: f, negative: true })) by {
        if is_declined(ms, f) {
            let i = choose|i: int|
                0 <= i < ms.len() && (#[trigger] ms[i]).negative && ms[i].feature == f;
            assert(ms[i] == MarkView { feature: f, negative: true });
        }
    }
    if n > 0 {
        lemma_unpaired_among(ms, n - 1, f);
        law_lookup_put(unpaired_among(ms, n - 1), ms[n - 1].feature, (), f);
    }
}

pub(crate) proof fn lemma_keys<T>(m: Seq<(Seq<char>, T)>, k: Seq<char>)
    ensures
        keys(m).contains(k) <==> lookup(m, k) is Some,
{
    lemma_lookup(m, k);
    if keys(m).contains(k) {
        let i = choose|i: int| 0 <= i < keys(m).len() && keys(m)[i] == k;
        assert(m[i].0 == k);
    }
    if lookup(m, k) is Some {
        let i = choose|i: int| 0 <= i < m.len() && m[i] == (k, lookup(m, k)->0);
        assert(keys(m)[i] == k);
    }
}

/// A feature is unpaired exactly where some mark requires it and none declines
/// it.
pub proof fn law_unpaired(ms: Seq<MarkView>)
    ensures
        forall|f: Seq<char>| #[trigger]
            unpaired(ms).contains(f) <==> ms.contains(MarkView { feature: f, negative: false })
                && !ms.contains(MarkView { feature: f, negative: true }),
{
    assert forall|f: Seq<char>| #[trigger] unpaired(ms).contains(f) <==> ms.contains(
        MarkView { feature: f, negative: false },
    ) && !ms.contains(MarkView { feature: f, negative: true }) by {
        let n = ms.len() as int;
        lemma_unpaired_among(ms, n, f);
        lemma_keys(unpaired_among(ms, n), f);
        if exists|i: int| 0 <= i < n && (#[trigger] ms[i]).feature == f && !ms[i].negative {
            let i = choose|i: int| 0 <= i < n && (#[trigger] ms[i]).feature == f && !ms[i].negative;
            assert(ms[i] == MarkView { feature: f, negative: false });
        }
    }
}

proof fn lemma_features_named(ms: Seq<MarkView>, f: Seq<char>)
    ensures
        has_key(features_named(ms), f) <==> exists|i: int|
            0 <= i < ms.len() && (#[trigger] ms[i]).feature == f,
    decreases ms.len(),
{
    if ms.len() > 0 {
        let init = ms.drop_last();
        lemma_features_named(init, f);
        law_lookup_put(features_named(init), ms.last().feature, (), f);
        if exists|i: int| 0 <= i < init.len() && (#[trigger] init[i]).feature == f {
            let i = choose|i: int| 0 <= i < init.len() && (#[trigger] init[i]).feature == f;
            assert(ms[i].feature == f);
        }
        if exists|i: int| 0 <= i < ms.len() && (#[trigger] ms[i]).feature == f {
            let i = choose|i: int| 0 <= i < ms.len() && (#[trigger] ms[i]).feature == f;
            if i < init.len() {
                assert(init[i].feature == f);
            }
        }
    }
}

/// The features that marks name are those of the marks.
pub proof fn law_features_named(ms: Seq<MarkView>)
    ensures
        forall|f: Seq<char>| #[trigger]
            has_key(features_named(ms), f) <==> exists|i: int|
                0 <= i < ms.len() && (#[trigger] ms[i]).feature == f,
{
    assert forall|f: Seq<char>| #[trigger] has_key(features_named(ms), f) <==> exists|i: int|
        0 <= i < ms.len() && (#[trigger] ms[i]).feature == f by {
        lemma_features_named(ms, f);
    }
}

} // verus!
