//! The cases of a suite at run time, in the order in which they were
//! registered.

use vstd::prelude::*;
use vstd::utf8::encode_utf8;

use crate::feature::{
    is_mark_set, law_mark_fault, law_mark_set_fault, mark_fault_text, mark_set_fault, MarkView,
};
use crate::name::{
    fault_text, is_case_name, is_mark_text, law_name_fault, law_parts_roundtrip, name_fault,
    parts_of, CaseName, NameParts,
};
use crate::table::{has_key, law_lookup_put, Table};
use crate::tags::{marks_of, tag_views, tags_fault_text, Tag, Tags};
use crate::text::{owned, texts, Text};

verus! {

/// One registered case: its name, its marks, and what runs it.
pub struct Case<B> {
    pub name: CaseName,
    pub tags: Tags,
    pub run: B,
}

/// A [`Case`] over texts.
pub struct RegisteredView<B> {
    pub name: NameParts,
    pub tags: Seq<MarkView>,
    pub run: B,
}

impl<B> View for Case<B> {
    type V = RegisteredView<B>;

    open spec fn view(&self) -> RegisteredView<B> {
        RegisteredView { name: self.name@, tags: self.tags@, run: self.run }
    }
}

/// The views of a list of cases.
pub open spec fn registered<B>(v: Seq<Case<B>>) -> Seq<RegisteredView<B>> {
    Seq::new(v.len(), |i: int| v[i]@)
}

/// Is there a case of that name?
pub open spec fn has_case<B>(cases: Seq<RegisteredView<B>>, name: Seq<char>) -> bool {
    exists|i: int| 0 <= i < cases.len() && (#[trigger] cases[i]).name.text() == name
}

/// The first text from the `i`-th on that is no mark, with its fault.
pub open spec fn bad_mark(ts: Seq<Seq<char>>, i: int) -> Option<Seq<char>>
    decreases ts.len() - i,
{
    if i < 0 || i >= ts.len() {
        None
    } else {
        match crate::feature::mark_fault(ts[i]) {
            Some(f) => Some("invalid mark `"@ + ts[i] + "`: "@ + mark_fault_text(f)),
            None => bad_mark(ts, i + 1),
        }
    }
}

/// Why a case cannot be registered, if it cannot.
pub open spec fn register_fault<B>(
    cases: Seq<RegisteredView<B>>,
    name: Seq<char>,
    tags: Seq<Seq<char>>,
) -> Option<Seq<char>> {
    match name_fault(name) {
        Some(f) => Some("invalid case name `"@ + name + "`: "@ + fault_text(f)),
        None => if has_case(cases, name) {
            Some(
                "duplicate case name `"@ + name + "` (check post-normalization collisions)"@,
            )
        } else {
            match bad_mark(tags, 0) {
                Some(e) => Some(e),
                None => match mark_set_fault(marks_of(tags)) {
                    Some(f) => Some("invalid tags on `"@ + name + "`: "@ + tags_fault_text(f)),
                    None => None,
                },
            }
        },
    }
}

fn parse_marks<S: Text>(tags: &[S]) -> (r: Result<Vec<Tag>, String>)
    ensures
        match r {
            Ok(v) => bad_mark(texts(tags@), 0) is None && tag_views(v@) == marks_of(texts(tags@)),
            Err(e) => bad_mark(texts(tags@), 0) == Some(e@),
        },
{
    let ghost ts = texts(tags@);
    let mut v: Vec<Tag> = Vec::new();
    let mut i: usize = 0;
    assert(tag_views(v@) =~= marks_of(ts).take(0));
    while i < tags.len()
        invariant
            i <= tags@.len(),
            ts == texts(tags@),
            tag_views(v@) == marks_of(ts).take(i as int),
            bad_mark(ts, 0) == bad_mark(ts, i as int),
        decreases tags.len() - i,
    {
        let text = tags[i].as_text();
        assert(ts[i as int] == text@);
        match Tag::parse(text) {
            Ok(t) => {
                let ghost was = tag_views(v@);
                let ghost tv = t@;
                v.push(t);
                assert(tag_views(v@) =~= was.push(tv));
                assert(marks_of(ts).take(i + 1) =~= marks_of(ts).take(i as int).push(tv));
            },
            Err(e) => {
                let mut m = owned("invalid mark `");
                m.append(text);
                m.append("`: ");
                m.append(e.to_string().as_str());
                return Err(m);
            },
        }
        i += 1;
    }
    assert(marks_of(ts).take(i as int) =~= marks_of(ts));
    Ok(v)
}

/// Cases in the order of their registration, no name twice.
pub struct Registry<B> {
    cases: Vec<Case<B>>,
    names: Table<()>,
}

impl<B> View for Registry<B> {
    type V = Seq<RegisteredView<B>>;

    closed spec fn view(&self) -> Seq<RegisteredView<B>> {
        registered(self.cases@)
    }
}

/// Does no name occur twice?
pub open spec fn names_distinct<B>(cases: Seq<RegisteredView<B>>) -> bool {
    forall|i: int, j: int|
        0 <= i < j < cases.len() ==> (#[trigger] cases[i]).name.text() != (
        #[trigger] cases[j]).name.text()
}

impl<B> Default for Registry<B> {
    fn default() -> (r: Self)
        ensures
            r@ == Seq::<RegisteredView<B>>::empty(),
    {
        Registry::new()
    }
}

impl<B> Registry<B> {
    /// The names are those of the cases, none of them twice.
    #[verifier::type_invariant]
    spec fn well_formed(self) -> bool {
        &&& forall|n: Seq<char>|
            #[trigger] has_key(self.names@, n) <==> has_case(registered(self.cases@), n)
        &&& names_distinct(registered(self.cases@))
    }

    /// No case yet.
    pub fn new() -> (r: Self)
        ensures
            r@ == Seq::<RegisteredView<B>>::empty(),
    {
        let cases: Vec<Case<B>> = Vec::new();
        let names: Table<()> = Table::new();
        assert(registered(cases@) =~= Seq::<RegisteredView<B>>::empty());
        Registry { cases, names }
    }

    /// Register a case. A name or mark that is none, or a name that is
    /// taken, is a bug of the suite.
    pub fn case<S: Text>(&mut self, name: &str, tags: &[S], body: B) -> (r: Result<(), String>)
        ensures
            match r {
                Ok(_) => register_fault(old(self)@, name@, texts(tags@)) is None && final(self)@
                    == old(self)@.push(
                    RegisteredView {
                        name: parts_of(name@),
                        tags: marks_of(texts(tags@)),
                        run: body,
                    },
                ),
                Err(e) => register_fault(old(self)@, name@, texts(tags@)) == Some(e@)
                    && final(self)@ == old(self)@,
            },
            names_distinct(final(self)@),
    {
        proof {
            use_type_invariant(&*self);
        }
        let ghost was = self@;
        let parsed = match CaseName::parse(name) {
            Ok(n) => n,
            Err(e) => {
                let mut m = owned("invalid case name `");
                m.append(name);
                m.append("`: ");
                m.append(e.to_string().as_str());
                return Err(m);
            },
        };
        if self.names.contains_key(name) {
            let mut m = owned("duplicate case name `");
            m.append(name);
            m.append("` (check post-normalization collisions)");
            return Err(m);
        }
        let marks = match parse_marks(tags) {
            Ok(v) => v,
            Err(e) => return Err(e),
        };
        let tags = match Tags::new(marks) {
            Ok(t) => t,
            Err(e) => {
                let mut m = owned("invalid tags on `");
                m.append(name);
                m.append("`: ");
                m.append(e.to_string().as_str());
                return Err(m);
            },
        };
        let mut whole = Registry::new();
        std::mem::swap(&mut whole, self);
        proof {
            use_type_invariant(&whole);
        }
        let Registry { mut cases, mut names } = whole;
        let ghost old_names = names@;
        let case = Case { name: parsed, tags, run: body };
        let ghost cv = case@;
        cases.push(case);
        names.insert(owned(name), ());
        proof {
            let now = registered(cases@);
            assert(now =~= was.push(cv));
            law_name_fault(name@);
            law_parts_roundtrip(name@);
            assert(cv.name.text() == name@);
            assert forall|n: Seq<char>| #[trigger] has_key(names@, n) <==> has_case(now, n) by {
                law_lookup_put(old_names, name@, (), n);
                assert(has_key(old_names, n) <==> has_case(was, n));
                if has_case(was, n) {
                    let i = choose|i: int|
                        0 <= i < was.len() && (#[trigger] was[i]).name.text() == n;
                    assert(now[i].name.text() == n);
                }
                if has_case(now, n) {
                    let i = choose|i: int|
                        0 <= i < now.len() && (#[trigger] now[i]).name.text() == n;
                    if i < was.len() {
                        assert(was[i].name.text() == n);
                    }
                }
                assert(now[was.len() as int].name.text() == name@);
            }
            assert(names_distinct(now)) by {
                assert forall|i: int, j: int| 0 <= i < j < now.len() implies (
                #[trigger] now[i]).name.text() != (#[trigger] now[j]).name.text() by {
                    assert(now[i] == was[i]);
                    if j < was.len() {
                        assert(now[j] == was[j]);
                    } else {
                        assert(!has_case(was, name@));
                    }
                }
            }
        }
        let mut next = Registry { cases, names };
        std::mem::swap(&mut next, self);
        Ok(())
    }

    /// The cases in order.
    pub fn cases(&self) -> (r: &[Case<B>])
        ensures
            registered(r@) == self@,
    {
        self.cases.as_slice()
    }

    /// How many cases there are.
    pub fn len(&self) -> (r: usize)
        ensures
            r == self@.len(),
    {
        self.cases.len()
    }

    /// Is there no case?
    pub fn is_empty(&self) -> (r: bool)
        ensures
            r == (self@.len() == 0),
    {
        self.cases.len() == 0
    }

    /// The case at a place, if there is one.
    pub fn get(&self, index: usize) -> (r: Option<&Case<B>>)
        ensures
            match r {
                Some(c) => index < self@.len() && c@ == self@[index as int],
                None => index >= self@.len(),
            },
    {
        if index < self.cases.len() {
            Some(&self.cases[index])
        } else {
            None
        }
    }
}

/// The first `N` bytes of a text.
pub fn str_to_array<const N: usize>(s: &str) -> (r: [u8; N])
    requires
        N <= encode_utf8(s@).len(),
    ensures
        r@ == encode_utf8(s@).take(N as int),
{
    let b = s.as_bytes();
    let mut out = [0u8;N];
    let mut i: usize = 0;
    while i < N
        invariant
            i <= N,
            N <= b@.len(),
            b@ == encode_utf8(s@),
            forall|k: int| 0 <= k < i ==> out@[k] == b@[k],
        decreases N - i,
    {
        out[i] = b[i];
        i += 1;
    }
    assert(out@ =~= encode_utf8(s@).take(N as int));
    out
}

proof fn lemma_bad_mark(ts: Seq<Seq<char>>, i: int)
    requires
        0 <= i <= ts.len(),
    ensures
        bad_mark(ts, i) is None <==> forall|k: int|
            i <= k < ts.len() ==> is_mark_text(#[trigger] ts[k]),
    decreases ts.len() - i,
{
    if i < ts.len() {
        law_mark_fault(ts[i]);
        lemma_bad_mark(ts, i + 1);
    }
}

/// A case is registered exactly where its name is one, no case has it yet, and
/// its marks are well written and of features that differ.
pub proof fn law_register_fault<B>(
    cases: Seq<RegisteredView<B>>,
    name: Seq<char>,
    tags: Seq<Seq<char>>,
)
    ensures
        register_fault(cases, name, tags) is None <==> {
            &&& is_case_name(name)
            &&& forall|i: int| 0 <= i < cases.len() ==> (#[trigger] cases[i]).name.text() != name
            &&& forall|k: int| 0 <= k < tags.len() ==> is_mark_text(#[trigger] tags[k])
            &&& is_mark_set(marks_of(tags))
        },
{
    law_name_fault(name);
    lemma_bad_mark(tags, 0);
    law_mark_set_fault(marks_of(tags));
}

} // verus!
