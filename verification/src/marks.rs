//! Feature marks that own their text.

use vstd::prelude::*;

use crate::feature::{
    applies_to, clash_from, excluding, excluding_from, is_mark_set, law_applies_or_excluded,
    law_mark_fault, law_mark_set_fault, law_mark_text_roundtrip, mark_fault, mark_fault_text,
    mark_of, mark_set_fault, mark_text, satisfied, set_fault_from, MarkFault, MarkSetFault,
    MarkView,
};
use crate::name::{is_mark_text, is_wit_label};
use crate::text::{chars_of, listed, owned, same, text_of, texts, Text};

verus! {

/// One mark. Feature names are WIT labels.
#[derive(Debug, PartialEq, Eq, Hash, PartialOrd, Ord)]
pub enum Mark {
    /// `<feature>`: requires the target to have the feature.
    Requires(String),
    /// `!<feature>`: requires the target to lack the feature.
    Declines(String),
}

impl View for Mark {
    type V = MarkView;

    open spec fn view(&self) -> MarkView {
        match *self {
            Mark::Requires(f) => MarkView { feature: f@, negative: false },
            Mark::Declines(f) => MarkView { feature: f@, negative: true },
        }
    }
}

impl Clone for Mark {
    fn clone(&self) -> (r: Self)
        ensures
            r@ == self@,
    {
        match self {
            Mark::Requires(f) => Mark::Requires(f.clone()),
            Mark::Declines(f) => Mark::Declines(f.clone()),
        }
    }
}

/// Why a text is no mark.
#[derive(Debug, Clone, PartialEq, Eq)]
pub enum MarkParseError {
    Empty,
    BadFeatureName { name: String, reason: &'static str },
}

impl View for MarkParseError {
    type V = MarkFault;

    open spec fn view(&self) -> MarkFault {
        match *self {
            MarkParseError::Empty => MarkFault::Empty,
            MarkParseError::BadFeatureName { name, reason } => MarkFault::BadFeatureName(
                name@,
                reason@,
            ),
        }
    }
}

impl MarkParseError {
    /// The error as a message.
    pub fn to_string(&self) -> (r: String)
        ensures
            r@ == mark_fault_text(self@),
    {
        match self {
            MarkParseError::Empty => owned("empty mark"),
            MarkParseError::BadFeatureName { name, reason } => {
                let mut r = owned("feature name `");
                r.append(name.as_str());
                r.append("` is not a WIT label (");
                r.append(reason);
                r.append(")");
                r
            },
        }
    }
}

impl Mark {
    /// Read the textual form: `feature` or `!feature`.
    pub fn parse(s: &str) -> (r: Result<Self, MarkParseError>)
        ensures
            r is Ok <==> is_mark_text(s@),
            match r {
                Ok(m) => mark_fault(s@) is None && m@ == mark_of(s@) && mark_text(m@) == s@,
                Err(e) => mark_fault(s@) == Some(e@),
            },
    {
        proof {
            law_mark_fault(s@);
            law_mark_text_roundtrip(s@);
        }
        let chars = chars_of(s);
        let negated = chars.len() > 0 && chars[0] == '!';
        let from: usize = if negated { 1 } else { 0 };
        let name = text_of(&chars, from, chars.len());
        assert(name@ =~= mark_of(s@).feature);
        if name.as_str().is_empty() {
            return Err(MarkParseError::Empty);
        }
        match is_wit_label(name.as_str()) {
            Some(reason) => Err(MarkParseError::BadFeatureName { name, reason }),
            None => if negated {
                Ok(Mark::Declines(name))
            } else {
                Ok(Mark::Requires(name))
            },
        }
    }

    /// The feature that the mark is about.
    pub fn feature(&self) -> (r: &str)
        ensures
            r@ == self@.feature,
    {
        match self {
            Mark::Requires(f) => f.as_str(),
            Mark::Declines(f) => f.as_str(),
        }
    }

    /// Is the mark of the form `!<feature>`?
    pub fn is_negative(&self) -> (r: bool)
        ensures
            r == self@.negative,
    {
        match self {
            Mark::Requires(_) => false,
            Mark::Declines(_) => true,
        }
    }

    /// The mark as text.
    pub fn to_string(&self) -> (r: String)
        ensures
            r@ == mark_text(self@),
    {
        match self {
            Mark::Requires(f) => owned(f.as_str()),
            Mark::Declines(f) => {
                let mut r = owned("!");
                r.append(f.as_str());
                proof {
                    reveal_strlit("!");
                    assert(r@ =~= mark_text(self@));
                }
                r
            },
        }
    }
}

/// The views of a list of marks.
pub open spec fn mark_views(v: Seq<Mark>) -> Seq<MarkView> {
    Seq::new(v.len(), |i: int| v[i]@)
}

/// Why a list of marks is no mark set.
#[derive(Debug, Clone, PartialEq, Eq)]
pub enum MarksError {
    /// The same feature appears with both polarities: such a case could
    /// never apply anywhere.
    Contradiction(String),
    /// The same mark appears twice.
    Duplicate(String),
}

impl View for MarksError {
    type V = MarkSetFault;

    open spec fn view(&self) -> MarkSetFault {
        match *self {
            MarksError::Contradiction(f) => MarkSetFault::Contradiction(f@),
            MarksError::Duplicate(m) => MarkSetFault::Duplicate(m@),
        }
    }
}

/// The message of a mark-set fault.
pub open spec fn marks_fault_text(f: MarkSetFault) -> Seq<char> {
    match f {
        MarkSetFault::Contradiction(feature) => "contradictory marks: both `"@ + feature
            + "` and `!"@ + feature + "`"@,
        MarkSetFault::Duplicate(mark) => "duplicate mark `"@ + mark + "`"@,
    }
}

impl MarksError {
    /// The error as a message.
    pub fn to_string(&self) -> (r: String)
        ensures
            r@ == marks_fault_text(self@),
    {
        match self {
            MarksError::Contradiction(feature) => {
                let mut r = owned("contradictory marks: both `");
                r.append(feature.as_str());
                r.append("` and `!");
                r.append(feature.as_str());
                r.append("`");
                r
            },
            MarksError::Duplicate(mark) => {
                let mut r = owned("duplicate mark `");
                r.append(mark.as_str());
                r.append("`");
                r
            },
        }
    }
}

/// Are two marks the same?
fn same_mark(a: &Mark, b: &Mark) -> (r: bool)
    ensures
        r == (a@ == b@),
{
    a.is_negative() == b.is_negative() && same(a.feature(), b.feature())
}

/// Does a target that lacks `missing` satisfy the mark?
fn mark_satisfied<S: Text>(mark: &Mark, missing: &[S]) -> (r: bool)
    ensures
        r == satisfied(mark@, texts(missing@)),
{
    mark.is_negative() == listed(missing, mark.feature())
}

/// A case's validated mark set: at most one mark per feature.
#[derive(Debug, PartialEq, Eq)]
pub struct Marks(Vec<Mark>);

impl View for Marks {
    type V = Seq<MarkView>;

    closed spec fn view(&self) -> Seq<MarkView> {
        mark_views(self.0@)
    }
}

impl Clone for Marks {
    fn clone(&self) -> (r: Self)
        ensures
            r@ == self@,
    {
        proof {
            use_type_invariant(self);
        }
        let mut v: Vec<Mark> = Vec::new();
        for i in 0..self.0.len()
            invariant
                v@.len() == i,
                forall|k: int| 0 <= k < i ==> (#[trigger] v@[k])@ == self.0@[k]@,
        {
            v.push(self.0[i].clone());
        }
        assert(mark_views(v@) =~= self@);
        Marks(v)
    }
}

impl Default for Marks {
    fn default() -> (r: Self)
        ensures
            r@ == Seq::<MarkView>::empty(),
    {
        let v: Vec<Mark> = Vec::new();
        assert(mark_views(v@) =~= Seq::<MarkView>::empty());
        Marks(v)
    }
}

impl Marks {
    /// Every value names each feature at most once.
    #[verifier::type_invariant]
    spec fn well_formed(self) -> bool {
        is_mark_set(self@)
    }

    /// Validate and construct.
    pub fn new(marks: Vec<Mark>) -> (r: Result<Self, MarksError>)
        ensures
            r is Ok <==> is_mark_set(mark_views(marks@)),
            match r {
                Ok(s) => mark_set_fault(mark_views(marks@)) is None && s@ == mark_views(marks@),
                Err(e) => mark_set_fault(mark_views(marks@)) == Some(e@),
            },
    {
        let ghost ms = mark_views(marks@);
        proof {
            law_mark_set_fault(ms);
        }
        let mut i: usize = 0;
        while i < marks.len()
            invariant
                i <= marks@.len(),
                ms == mark_views(marks@),
                mark_set_fault(ms) is None <==> is_mark_set(ms),
                mark_set_fault(ms) == set_fault_from(ms, i as int),
            decreases marks.len() - i,
        {
            let mut j: usize = 0;
            while j < i
                invariant
                    j <= i < marks@.len(),
                    ms == mark_views(marks@),
                    mark_set_fault(ms) is None <==> is_mark_set(ms),
                    mark_set_fault(ms) == set_fault_from(ms, i as int),
                    clash_from(ms, i as int, 0) == clash_from(ms, i as int, j as int),
                decreases i - j,
            {
                assert(ms[i as int] == marks@[i as int]@ && ms[j as int] == marks@[j as int]@);
                if same_mark(&marks[j], &marks[i]) {
                    return Err(MarksError::Duplicate(marks[i].to_string()));
                }
                if same(marks[j].feature(), marks[i].feature()) {
                    return Err(MarksError::Contradiction(owned(marks[i].feature())));
                }
                j += 1;
            }
            i += 1;
        }
        Ok(Marks(marks))
    }

    /// The marks in order.
    pub fn iter(&self) -> (r: std::slice::Iter<'_, Mark>)
        ensures
            mark_views(vstd::std_specs::iter::IteratorSpec::remaining(&r).unref()) == self@,
    {
        let s = self.as_slice();
        let r = s.iter();
        assert(vstd::std_specs::iter::IteratorSpec::remaining(&r).unref() =~= s@);
        r
    }

    /// The marks in order.
    pub fn as_slice(&self) -> (r: &[Mark])
        ensures
            mark_views(r@) == self@,
            is_mark_set(self@),
    {
        proof {
            use_type_invariant(self);
        }
        self.0.as_slice()
    }

    /// Is there no mark?
    pub fn is_empty(&self) -> (r: bool)
        ensures
            r == (self@.len() == 0),
    {
        self.as_slice().len() == 0
    }

    /// Does a target that lacks `missing_features` get this case? Every
    /// required feature has to be there and every declined one missing.
    pub fn applies<S: Text>(&self, missing_features: &[S]) -> (r: bool)
        ensures
            r == applies_to(self@, texts(missing_features@)),
            r == (excluding(self@, texts(missing_features@)) is None),
    {
        proof {
            law_applies_or_excluded(self@, texts(missing_features@));
        }
        self.excluding_mark(missing_features).is_none()
    }

    /// The mark that excludes this case from a target that lacks
    /// `missing_features`, if one does.
    pub fn excluding_mark<S: Text>(&self, missing_features: &[S]) -> (r: Option<&Mark>)
        ensures
            match r {
                Some(m) => excluding(self@, texts(missing_features@)) == Some(m@),
                None => excluding(self@, texts(missing_features@)) is None,
            },
    {
        let marks = self.as_slice();
        let ghost ms = self@;
        let mut i: usize = 0;
        while i < marks.len()
            invariant
                i <= marks@.len(),
                ms == self@,
                ms == mark_views(marks@),
                excluding(ms, texts(missing_features@)) == excluding_from(
                    ms,
                    texts(missing_features@),
                    i as int,
                ),
            decreases marks.len() - i,
        {
            assert(ms[i as int] == marks@[i as int]@);
            if !mark_satisfied(&marks[i], missing_features) {
                return Some(&marks[i]);
            }
            i += 1;
        }
        None
    }
}

} // verus!
