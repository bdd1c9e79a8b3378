//! What feature marks mean. A mark `<feature>` keeps a case to the targets
//! that have the feature, `!<feature>` to those that lack it; a case without
//! marks applies everywhere.

use vstd::prelude::*;

use crate::name::{is_label, is_mark_text, label_fault, law_label_fault};

verus! {

/// One mark.
#[verifier::ext_equal]
pub struct MarkView {
    pub feature: Seq<char>,
    /// Does the mark ask for the feature to be lacking?
    pub negative: bool,
}

/// A mark as text.
pub open spec fn mark_text(m: MarkView) -> Seq<char> {
    if m.negative { seq!['!'] + m.feature } else { m.feature }
}

/// The mark that a text is read as.
pub open spec fn mark_of(s: Seq<char>) -> MarkView {
    if s.len() > 0 && s[0] == '!' {
        MarkView { feature: s.skip(1), negative: true }
    } else {
        MarkView { feature: s, negative: false }
    }
}

/// Why a text is no mark.
pub enum MarkFault {
    Empty,
    BadFeatureName(Seq<char>, Seq<char>),
}

/// Why `s` is no mark, if it is none.
pub open spec fn mark_fault(s: Seq<char>) -> Option<MarkFault> {
    let name = mark_of(s).feature;
    if name.len() == 0 {
        Some(MarkFault::Empty)
    } else {
        match label_fault(name) {
            Some(reason) => Some(MarkFault::BadFeatureName(name, reason)),
            None => None,
        }
    }
}

/// The message of a mark fault.
pub open spec fn mark_fault_text(f: MarkFault) -> Seq<char> {
    match f {
        MarkFault::Empty => "empty mark"@,
        MarkFault::BadFeatureName(name, reason) => "feature name `"@ + name
            + "` is not a WIT label ("@ + reason + ")"@,
    }
}

/// Why a list of marks is no mark set.
pub enum MarkSetFault {
    Contradiction(Seq<char>),
    Duplicate(Seq<char>),
}

/// A mark set names each feature at most once.
pub open spec fn is_mark_set(ms: Seq<MarkView>) -> bool {
    forall|i: int, j: int|
        0 <= i < j < ms.len() ==> (#[trigger] ms[i]).feature != (#[trigger] ms[j]).feature
}

/// The clash of mark `i` with an earlier one, from the `j`-th on.
pub open spec fn clash_from(ms: Seq<MarkView>, i: int, j: int) -> Option<MarkSetFault>
    decreases i - j,
{
    if j < 0 || j >= i {
        None
    } else if ms[j] == ms[i] {
        Some(MarkSetFault::Duplicate(mark_text(ms[i])))
    } else if ms[j].feature == ms[i].feature {
        Some(MarkSetFault::Contradiction(ms[i].feature))
    } else {
        clash_from(ms, i, j + 1)
    }
}

/// The first clash of a mark from the `i`-th on with an earlier one.
pub open spec fn set_fault_from(ms: Seq<MarkView>, i: int) -> Option<MarkSetFault>
    decreases ms.len() - i,
{
    if i < 0 || i >= ms.len() {
        None
    } else {
        match clash_from(ms, i, 0) {
            Some(f) => Some(f),
            None => set_fault_from(ms, i + 1),
        }
    }
}

/// Why a list of marks is no mark set, if it is none.
pub open spec fn mark_set_fault(ms: Seq<MarkView>) -> Option<MarkSetFault> {
    set_fault_from(ms, 0)
}

/// Does a target that lacks `missing` satisfy the mark?
pub open spec fn satisfied(m: MarkView, missing: Seq<Seq<char>>) -> bool {
    m.negative == missing.contains(m.feature)
}

/// Does a target that lacks `missing` get a case with these marks?
pub open spec fn applies_to(ms: Seq<MarkView>, missing: Seq<Seq<char>>) -> bool {
    forall|i: int| 0 <= i < ms.len() ==> satisfied(#[trigger] ms[i], missing)
}

/// The first mark from the `i`-th on that the target does not satisfy.
pub open spec fn excluding_from(ms: Seq<MarkView>, missing: Seq<Seq<char>>, i: int) -> Option<
    MarkView,
>
    decreases ms.len() - i,
{
    if i < 0 || i >= ms.len() {
        None
    } else if !satisfied(ms[i], missing) {
        Some(ms[i])
    } else {
        excluding_from(ms, missing, i + 1)
    }
}

/// The mark that excludes the case from the target, if one does.
pub open spec fn excluding(ms: Seq<MarkView>, missing: Seq<Seq<char>>) -> Option<MarkView> {
    excluding_from(ms, missing, 0)
}

// ---------------------------------------------------------------------
// Laws
// ---------------------------------------------------------------------

/// A text reads as a mark exactly when it is `feature` or `!feature` with a
/// label for the feature.
pub proof fn law_mark_fault(s: Seq<char>)
    ensures
        mark_fault(s) is None <==> is_mark_text(s),
{
    law_label_fault(mark_of(s).feature);
}

/// Reading a mark and writing it gives the text back.
pub proof fn law_mark_text_roundtrip(s: Seq<char>)
    ensures
        mark_text(mark_of(s)) == s,
{
    if s.len() > 0 && s[0] == '!' {
        assert(seq!['!'] + s.skip(1) =~= s);
    }
}

/// Writing a mark whose feature is a label and reading it gives the mark
/// back.
pub proof fn law_mark_roundtrip(m: MarkView)
    requires
        is_label(m.feature),
    ensures
        mark_fault(mark_text(m)) is None,
        mark_of(mark_text(m)) == m,
{
    law_label_fault(m.feature);
    if m.negative {
        assert((seq!['!'] + m.feature).skip(1) =~= m.feature);
    } else if m.feature.len() > 0 && m.feature[0] == '!' {
        lemma_label_starts(m.feature);
    }
}

proof fn lemma_label_starts(s: Seq<char>)
    requires
        s.len() > 0,
        s[0] == '!',
    ensures
        !is_label(s),
{
    let words = crate::text::split(s, '-');
    lemma_first_word(s);
    assert(!crate::name::is_word(words[0], 0));
}

proof fn lemma_first_word(s: Seq<char>)
    requires
        s.len() > 0,
        s[0] == '!',
    ensures
        crate::text::split(s, '-').len() >= 1,
        crate::text::split(s, '-')[0].len() >= 1,
        crate::text::split(s, '-')[0][0] == '!',
    decreases s.len(),
{
    crate::text::lemma_split_nonempty(s.drop_last(), '-');
    if s.len() == 1 {
        assert(s.drop_last() =~= Seq::<char>::empty());
        assert(s.last() == '!');
    } else {
        lemma_first_word(s.drop_last());
    }
}

proof fn lemma_clash(ms: Seq<MarkView>, i: int, j: int)
    requires
        0 <= j <= i < ms.len(),
    ensures
        clash_from(ms, i, j) is None <==> forall|k: int|
            j <= k < i ==> (#[trigger] ms[k]).feature != ms[i].feature,
    decreases i - j,
{
    if j < i {
        lemma_clash(ms, i, j + 1);
    }
}

proof fn lemma_set_fault(ms: Seq<MarkView>, i: int)
    requires
        0 <= i <= ms.len(),
    ensures
        set_fault_from(ms, i) is None <==> forall|a: int, b: int|
            0 <= a < b < ms.len() && i <= b ==> (#[trigger] ms[a]).feature != (
            #[trigger] ms[b]).feature,
    decreases ms.len() - i,
{
    if i < ms.len() {
        lemma_set_fault(ms, i + 1);
        lemma_clash(ms, i, 0);
    }
}

/// A list of marks has no fault exactly when no feature is marked twice.
pub proof fn law_mark_set_fault(ms: Seq<MarkView>)
    ensures
        mark_set_fault(ms) is None <==> is_mark_set(ms),
{
    lemma_set_fault(ms, 0);
}

proof fn lemma_excluding(ms: Seq<MarkView>, missing: Seq<Seq<char>>, i: int)
    requires
        0 <= i <= ms.len(),
    ensures
        excluding_from(ms, missing, i) is None <==> forall|k: int|
            i <= k < ms.len() ==> satisfied(#[trigger] ms[k], missing),
    decreases ms.len() - i,
{
    if i < ms.len() {
        lemma_excluding(ms, missing, i + 1);
    }
}

/// A case applies to a target exactly when no mark excludes it.
pub proof fn law_applies_or_excluded(ms: Seq<MarkView>, missing: Seq<Seq<char>>)
    ensures
        applies_to(ms, missing) <==> excluding(ms, missing) is None,
{
    lemma_excluding(ms, missing, 0);
}

/// A case without marks applies everywhere.
pub proof fn law_unmarked_applies(missing: Seq<Seq<char>>)
    ensures
        applies_to(Seq::<MarkView>::empty(), missing),
{
}

/// No target gets both a case and its decline twin.
pub proof fn law_decline_twin(feature: Seq<char>, missing: Seq<Seq<char>>)
    ensures
        applies_to(seq![MarkView { feature, negative: false }], missing) != applies_to(
            seq![MarkView { feature, negative: true }],
            missing,
        ),
{
    let a = seq![MarkView { feature, negative: false }];
    let b = seq![MarkView { feature, negative: true }];
    assert(a[0].feature == feature && b[0].feature == feature);
    assert(satisfied(a[0], missing) != satisfied(b[0], missing));
}

/// Is `b` the first mark of a feature that was marked before?
pub open spec fn is_first_clash(ms: Seq<MarkView>, a: int, b: int) -> bool {
    &&& 0 <= a < b < ms.len()
    &&& ms[a].feature == ms[b].feature
    &&& is_mark_set(ms.take(b))
}

proof fn lemma_clash_says(ms: Seq<MarkView>, i: int, j: int)
    requires
        0 <= j <= i < ms.len(),
    ensures
        match clash_from(ms, i, j) {
            Some(f) => exists|a: int|
                j <= a < i && (#[trigger] ms[a]).feature == ms[i].feature && f == (if ms[a]
                    == ms[i] {
                    MarkSetFault::Duplicate(mark_text(ms[i]))
                } else {
                    MarkSetFault::Contradiction(ms[i].feature)
                }),
            None => true,
        },
    decreases i - j,
{
    if j < i {
        lemma_clash_says(ms, i, j + 1);
        if ms[j].feature == ms[i].feature {
            let a = j;
            assert(ms[a].feature == ms[i].feature);
        }
    }
}

proof fn lemma_set_fault_says(ms: Seq<MarkView>, i: int)
    requires
        0 <= i <= ms.len(),
        is_mark_set(ms.take(i)),
    ensures
        match set_fault_from(ms, i) {
            Some(f) => exists|a: int, b: int| #[trigger]
                is_first_clash(ms, a, b) && f == (if ms[a] == ms[b] {
                    MarkSetFault::Duplicate(mark_text(ms[b]))
                } else {
                    MarkSetFault::Contradiction(ms[b].feature)
                }),
            None => true,
        },
    decreases ms.len() - i,
{
    if i < ms.len() {
        lemma_clash(ms, i, 0);
        lemma_clash_says(ms, i, 0);
        match clash_from(ms, i, 0) {
            Some(f) => {
                let a = choose|a: int|
                    0 <= a < i && (#[trigger] ms[a]).feature == ms[i].feature && f == (if ms[a]
                        == ms[i] {
                        MarkSetFault::Duplicate(mark_text(ms[i]))
                    } else {
                        MarkSetFault::Contradiction(ms[i].feature)
                    });
                assert(is_first_clash(ms, a, i));
            },
            None => {
                assert(is_mark_set(ms.take(i + 1))) by {
                    let more = ms.take(i + 1);
                    assert forall|a: int, b: int| 0 <= a < b < more.len() implies (
                    #[trigger] more[a]).feature != (#[trigger] more[b]).feature by {
                        if b < i {
                            assert(ms.take(i)[a].feature != ms.take(i)[b].feature);
                        } else {
                            assert(ms[a].feature != ms[i].feature);
                        }
                    }
                }
                lemma_set_fault_says(ms, i + 1);
            },
        }
    }
}

/// What is told of a list of marks is the first that comes again: the mark
/// itself where it is the same, and its feature where it is the opposite.
pub proof fn law_mark_set_fault_says(ms: Seq<MarkView>)
    ensures
        match mark_set_fault(ms) {
            Some(f) => exists|a: int, b: int| #[trigger]
                is_first_clash(ms, a, b) && f == (if ms[a] == ms[b] {
                    MarkSetFault::Duplicate(mark_text(ms[b]))
                } else {
                    MarkSetFault::Contradiction(ms[b].feature)
                }),
            None => is_mark_set(ms),
        },
{
    lemma_set_fault_says(ms, 0);
    law_mark_set_fault(ms);
}

/// A target satisfies a mark that requires a feature where it does not lack
/// it, and one that declines a feature where it does; what excludes a case is
/// its first mark that is not satisfied.
pub proof fn law_excluding(ms: Seq<MarkView>, missing: Seq<Seq<char>>)
    ensures
        match excluding(ms, missing) {
            Some(m) => exists|i: int|
                0 <= i < ms.len() && #[trigger] ms[i] == m && (m.negative <==> !missing.contains(
                    m.feature,
                )) && forall|k: int|
                    0 <= k < i ==> ((#[trigger] ms[k]).negative <==> missing.contains(
                        ms[k].feature,
                    )),
            None => forall|k: int|
                0 <= k < ms.len() ==> ((#[trigger] ms[k]).negative <==> missing.contains(
                    ms[k].feature,
                )),
        },
{
    lemma_excluding_says(ms, missing, 0);
}

proof fn lemma_excluding_says(ms: Seq<MarkView>, missing: Seq<Seq<char>>, i: int)
    requires
        0 <= i <= ms.len(),
    ensures
        match excluding_from(ms, missing, i) {
            Some(m) => exists|k: int|
                i <= k < ms.len() && #[trigger] ms[k] == m && (m.negative <==> !missing.contains(
                    m.feature,
                )) && forall|x: int|
                    i <= x < k ==> ((#[trigger] ms[x]).negative <==> missing.contains(
                        ms[x].feature,
                    )),
            None => forall|k: int|
                i <= k < ms.len() ==> ((#[trigger] ms[k]).negative <==> missing.contains(
                    ms[k].feature,
                )),
        },
    decreases ms.len() - i,
{
    if i < ms.len() {
        lemma_excluding_says(ms, missing, i + 1);
        assert(satisfied(ms[i], missing) <==> (ms[i].negative <==> missing.contains(
            ms[i].feature,
        )));
    }
}

} // verus!
