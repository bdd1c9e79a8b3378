//! Joining the documents of several targets against the lockfile and the
//! manifest, and checking every declaration against every other.
//!
//! - The lockfile and the manifest are valid by themselves.
//! - Every mark names a declared feature, and every declared (gated) feature
//!   is named by a mark.
//! - Every case applies on some declared target.
//! - Every result set belongs to a declared target, and every declared
//!   target has one (unless it is optional).
//! - Every target reports every case exactly once.
//! - A case's status agrees with what its marks say about the target.
//! - Known failures are declared for cases that can fail, and fail.
//! - Targets agree on the leaves of generated rows.

use vstd::prelude::*;

use crate::debug::{debug_texts, debug_texts_text};
use crate::feature::{applies_to, excluding, mark_set_fault, mark_text, MarkView};
use crate::lockfile::{
    all_marks, coverage_fault, lock_fault, row_of, EntryView, LockView, Lockfile, RowView,
};
use crate::manifest::{
    manifest_fault, missing_of, FeatureKind, KnownFailure, KnownView, Manifest, ManifestView,
};
use crate::results::{bare_case, case_views, CaseResult, CaseView, Document, DocumentView, Status};
use crate::table::{has_key, keys, lookup, put, Table};
use crate::tags::{clone_tags, features_named, Tags};
use crate::text::{
    among, decimal, decimal_text, join, join_texts, lemma_texts_of_strings, owned, same, views,
};

verus! {

// ---------------------------------------------------------------------
// The joined view
// ---------------------------------------------------------------------

/// What a declared known failure turned out to be. The result itself keeps
/// its status.
#[derive(Debug, PartialEq, Eq)]
pub enum Assessment {
    /// It failed, as declared: tracked, and no failure of the corpus.
    ExpectedFail { reason: String, tracking: String },
    /// It passed: the declaration is stale.
    UnexpectedPass,
}

/// An [`Assessment`] over texts.
pub enum AssessmentView {
    ExpectedFail(Seq<char>, Seq<char>),
    UnexpectedPass,
}

impl View for Assessment {
    type V = AssessmentView;

    open spec fn view(&self) -> AssessmentView {
        match *self {
            Assessment::ExpectedFail { reason, tracking } => AssessmentView::ExpectedFail(
                reason@,
                tracking@,
            ),
            Assessment::UnexpectedPass => AssessmentView::UnexpectedPass,
        }
    }
}

/// Per-target results and everything that validation found. Errors mean
/// that the corpus is invalid whatever its verdicts.
#[derive(Debug, PartialEq, Eq)]
pub struct Aggregate {
    /// The declared targets in order.
    pub targets: Vec<String>,
    /// Results by target and case.
    pub results: Table<Table<CaseResult>>,
    /// Assessments of declared known failures, by target and case.
    pub assessments: Table<Table<Assessment>>,
    /// Validation failures.
    pub errors: Vec<String>,
    /// Tolerated oddities.
    pub warnings: Vec<String>,
}

/// Results by case.
pub type CaseTable = Seq<(Seq<char>, CaseView)>;

/// Assessments by case.
pub type AssessmentTable = Seq<(Seq<char>, AssessmentView)>;

/// An [`Aggregate`] over texts.
#[verifier::ext_equal]
pub struct AggregateView {
    pub targets: Seq<Seq<char>>,
    pub results: Seq<(Seq<char>, CaseTable)>,
    pub assessments: Seq<(Seq<char>, AssessmentTable)>,
    pub errors: Seq<Seq<char>>,
    pub warnings: Seq<Seq<char>>,
}

impl View for Aggregate {
    type V = AggregateView;

    open spec fn view(&self) -> AggregateView {
        AggregateView {
            targets: views(self.targets@),
            results: self.results@,
            assessments: self.assessments@,
            errors: views(self.errors@),
            warnings: views(self.warnings@),
        }
    }
}

/// The assessment of a case on a target, if it has one.
pub open spec fn assessment_of(a: AggregateView, target: Seq<char>, case: Seq<char>) -> Option<
    AssessmentView,
> {
    match lookup(a.assessments, target) {
        Some(m) => lookup(m, case),
        None => None,
    }
}

/// Is the result a failure of the corpus? One that failed as declared is
/// not.
pub open spec fn corpus_failing(a: AggregateView, target: Seq<char>, r: CaseView) -> bool {
    r.status.is_failing() && !(assessment_of(a, target, r.case) is Some && assessment_of(
        a,
        target,
        r.case,
    )->0 is ExpectedFail)
}

/// Is there a failure of the corpus?
pub open spec fn any_failing(a: AggregateView) -> bool {
    exists|i: int, k: int|
        0 <= i < a.results.len() && 0 <= k < a.results[i].1.len() && corpus_failing(
            a,
            a.results[i].0,
            (#[trigger] a.results[i].1[k]).1,
        )
}

/// How many of the first `n` assessments are expected failures.
pub open spec fn expected_in(m: AssessmentTable, n: int) -> nat
    decreases n,
{
    if n <= 0 {
        0
    } else {
        expected_in(m, n - 1) + if m[n - 1].1 is ExpectedFail { 1nat } else { 0nat }
    }
}

/// How many assessments of the first `n` targets are expected failures.
pub open spec fn expected_among(a: Seq<(Seq<char>, AssessmentTable)>, n: int) -> nat
    decreases n,
{
    if n <= 0 {
        0
    } else {
        expected_among(a, n - 1) + expected_in(a[n - 1].1, a[n - 1].1.len() as int)
    }
}

impl Aggregate {
    /// Did validation pass, with no case failed or left unreached?
    pub fn ok(&self) -> (r: bool)
        ensures
            r == (self@.errors.len() == 0 && !any_failing(self@)),
    {
        self.errors.len() == 0 && !self.has_failures()
    }

    /// Is this result a failure of the corpus? `fail` and `not-reached` are,
    /// except a case that failed as declared.
    pub fn result_failing(&self, target: &str, r: &CaseResult) -> (b: bool)
        ensures
            b == corpus_failing(self@, target@, r@),
    {
        if !r.status.failing() {
            return false;
        }
        match self.assessments.get(target) {
            Some(m) => match m.get(r.case.as_str()) {
                Some(Assessment::ExpectedFail { .. }) => false,
                _ => true,
            },
            None => true,
        }
    }

    /// Is there a failure of the corpus on any target?
    pub fn has_failures(&self) -> (b: bool)
        ensures
            b == any_failing(self@),
    {
        let n = self.results.len();
        let mut i: usize = 0;
        while i < n
            invariant
                i <= n,
                n == self@.results.len(),
                forall|x: int, y: int|
                    0 <= x < i && 0 <= y < self@.results[x].1.len() ==> !corpus_failing(
                        self@,
                        self@.results[x].0,
                        (#[trigger] self@.results[x].1[y]).1,
                    ),
            decreases n - i,
        {
            let target = self.results.key_at(i);
            let cases = self.results.value_at(i);
            let m = cases.len();
            let mut k: usize = 0;
            while k < m
                invariant
                    k <= m,
                    i < n,
                    n == self@.results.len(),
                    target@ == self@.results[i as int].0,
                    cases@ == self@.results[i as int].1,
                    m == cases@.len(),
                    forall|y: int|
                        0 <= y < k ==> !corpus_failing(
                            self@,
                            self@.results[i as int].0,
                            (#[trigger] self@.results[i as int].1[y]).1,
                        ),
                decreases m - k,
            {
                assert(self@.results[i as int].1[k as int] == cases@[k as int]);
                if self.result_failing(target, cases.value_at(k)) {
                    return true;
                }
                k += 1;
            }
            i += 1;
        }
        false
    }

    /// How many known failures failed as declared.
    pub fn expected_fail_count(&self) -> (r: u128)
        ensures
            r == expected_among(self@.assessments, self@.assessments.len() as int),
    {
        let n = self.assessments.len();
        let mut total: u128 = 0;
        let mut i: usize = 0;
        while i < n
            invariant
                i <= n,
                n == self@.assessments.len(),
                total == expected_among(self@.assessments, i as int),
                total <= i * 0xffff_ffff_ffff_ffff,
            decreases n - i,
        {
            let m = self.assessments.value_at(i);
            let len = m.len();
            let mut count: usize = 0;
            let mut k: usize = 0;
            while k < len
                invariant
                    k <= len,
                    count <= k,
                    len == m@.len(),
                    count == expected_in(m@, k as int),
                decreases len - k,
            {
                match m.value_at(k) {
                    Assessment::ExpectedFail { .. } => {
                        count += 1;
                    },
                    _ => {},
                }
                k += 1;
            }
            assert(i * 0xffff_ffff_ffff_ffff + 0xffff_ffff_ffff_ffff == (i + 1)
                * 0xffff_ffff_ffff_ffff) by (nonlinear_arith);
            assert((i + 1) * 0xffff_ffff_ffff_ffff <= 0xffff_ffff_ffff_ffff
                * 0xffff_ffff_ffff_ffff) by (nonlinear_arith)
                requires
                    i + 1 <= 0xffff_ffff_ffff_ffff,
            ;
            total += count as u128;
            i += 1;
        }
        total
    }
}

// ---------------------------------------------------------------------
// What the marks of a case are
// ---------------------------------------------------------------------

/// The valid mark sets of the first `n` cases, by name.
pub open spec fn case_mark_table(cases: Seq<EntryView>, n: int) -> Seq<(Seq<char>, Seq<MarkView>)>
    decreases n,
{
    if n <= 0 {
        Seq::<(Seq<char>, Seq<MarkView>)>::empty()
    } else {
        let init = case_mark_table(cases, n - 1);
        if mark_set_fault(cases[n - 1].tags) is None {
            put(init, cases[n - 1].name.text(), cases[n - 1].tags)
        } else {
            init
        }
    }
}

/// The valid mark sets of the first `n` rows, by prefix.
pub open spec fn row_mark_table(rows: Seq<RowView>, n: int) -> Seq<(Seq<char>, Seq<MarkView>)>
    decreases n,
{
    if n <= 0 {
        Seq::<(Seq<char>, Seq<MarkView>)>::empty()
    } else {
        let init = row_mark_table(rows, n - 1);
        if mark_set_fault(rows[n - 1].tags) is None {
            put(init, rows[n - 1].prefix, rows[n - 1].tags)
        } else {
            init
        }
    }
}

/// The marks of a case: its own, or else those of the row that it belongs
/// to; nothing for a case that the lockfile does not know.
pub open spec fn marks_for(l: LockView, case: Seq<char>) -> Option<Seq<MarkView>> {
    match lookup(case_mark_table(l.case, l.case.len() as int), case) {
        Some(ms) => Some(ms),
        None => {
            let row = row_of(l.generated, case);
            if row < 0 {
                None
            } else {
                lookup(
                    row_mark_table(l.generated, l.generated.len() as int),
                    l.generated[row].prefix,
                )
            }
        },
    }
}

/// The marks of every case and row, ready for lookup.
struct MarkIndex<'a> {
    lock: &'a Lockfile,
    cases: Table<Tags>,
    rows: Table<Tags>,
}

impl<'a> MarkIndex<'a> {
    spec fn wf(&self) -> bool {
        &&& self.cases@ == case_mark_table(self.lock@.case, self.lock@.case.len() as int)
        &&& self.rows@ == row_mark_table(self.lock@.generated, self.lock@.generated.len() as int)
    }

    fn build(lock: &'a Lockfile) -> (r: Self)
        ensures
            r.wf(),
            r.lock@ == lock@,
    {
        let ghost cs = lock@.case;
        let ghost rs = lock@.generated;
        let mut cases: Table<Tags> = Table::new();
        let mut i: usize = 0;
        while i < lock.case.len()
            invariant
                i <= lock.case@.len(),
                cs == lock@.case,
                cases@ == case_mark_table(cs, i as int),
            decreases lock.case.len() - i,
        {
            let entry = &lock.case[i];
            assert(cs[i as int] == entry@);
            match Tags::new(clone_tags(&entry.tags)) {
                Ok(tags) => cases.insert(entry.name.as_str(), tags),
                Err(_) => {},
            }
            i += 1;
        }
        let mut rows: Table<Tags> = Table::new();
        let mut k: usize = 0;
        while k < lock.generated.len()
            invariant
                k <= lock.generated@.len(),
                rs == lock@.generated,
                rows@ == row_mark_table(rs, k as int),
            decreases lock.generated.len() - k,
        {
            let row = &lock.generated[k];
            assert(rs[k as int] == row@);
            match Tags::new(clone_tags(&row.tags)) {
                Ok(tags) => rows.insert(row.prefix.clone(), tags),
                Err(_) => {},
            }
            k += 1;
        }
        MarkIndex { lock, cases, rows }
    }

    fn tags_for(&self, case: &str) -> (r: Option<&Tags>)
        requires
            self.wf(),
        ensures
            match r {
                Some(tags) => marks_for(self.lock@, case@) == Some(tags@),
                None => marks_for(self.lock@, case@) is None,
            },
    {
        match self.cases.get(case) {
            Some(tags) => Some(tags),
            None => match self.lock.prefix_of(case) {
                Some(row) => self.rows.get(row.prefix.as_str()),
                None => None,
            },
        }
    }
}

// ---------------------------------------------------------------------
// The declarations against each other
// ---------------------------------------------------------------------

/// `items` with one more where there is one.
pub open spec fn with_opt(items: Seq<Seq<char>>, more: Option<Seq<char>>) -> Seq<Seq<char>> {
    match more {
        Some(m) => items.push(m),
        None => items,
    }
}

/// The features that the marks of a valid lockfile name.
pub open spec fn lock_features(l: LockView) -> Seq<(Seq<char>, ())> {
    if lock_fault(l) is None {
        features_named(all_marks(l.case, l.generated))
    } else {
        Seq::empty()
    }
}

/// What is wrong with the lockfile and the manifest by themselves.
pub open spec fn own_errors(l: LockView, m: ManifestView) -> Seq<Seq<char>> {
    let first = match lock_fault(l) {
        Some(f) => seq!["lockfile: "@ + f],
        None => Seq::<Seq<char>>::empty(),
    };
    with_opt(
        first,
        match manifest_fault(m) {
            Some(f) => Some("manifest: "@ + f),
            None => None,
        },
    )
}

/// The message about a marked feature that is not declared.
pub open spec fn undeclared_text(feature: Seq<char>) -> Seq<char> {
    "lockfile tag names feature `"@ + feature
        + "`, which is not classified in the manifest [features] table"@
}

/// Of the first `n` marked features, those that are not declared.
pub open spec fn undeclared_errors(
    named: Seq<(Seq<char>, ())>,
    m: ManifestView,
    n: int,
) -> Seq<Seq<char>>
    decreases n,
{
    if n <= 0 {
        Seq::<Seq<char>>::empty()
    } else {
        let init = undeclared_errors(named, m, n - 1);
        if has_key(m.features, named[n - 1].0) {
            init
        } else {
            init.push(undeclared_text(named[n - 1].0))
        }
    }
}

/// Does a case with these marks apply on some declared target?
pub open spec fn applies_somewhere(m: ManifestView, marks: Seq<MarkView>) -> bool {
    exists|i: int|
        0 <= i < m.targets.len() && applies_to(marks, (#[trigger] m.targets[i]).1.missing_features)
}

/// The message about a case that applies nowhere.
pub open spec fn dead_case_text(name: Seq<char>) -> Seq<char> {
    "case `"@ + name + "` is applicable on no declared target (dead coverage)"@
}

/// The message about a row that applies nowhere.
pub open spec fn dead_row_text(prefix: Seq<char>) -> Seq<char> {
    "generated row `"@ + prefix + "/*` is applicable on no declared target (dead coverage)"@
}

/// Of the first `n` cases with a valid mark set, those that apply nowhere.
pub open spec fn dead_cases(cases: Seq<EntryView>, m: ManifestView, n: int) -> Seq<Seq<char>>
    decreases n,
{
    if n <= 0 {
        Seq::<Seq<char>>::empty()
    } else {
        let init = dead_cases(cases, m, n - 1);
        let e = cases[n - 1];
        if mark_set_fault(e.tags) is None && !applies_somewhere(m, e.tags) {
            init.push(dead_case_text(e.name.text()))
        } else {
            init
        }
    }
}

/// Of the first `n` rows with a valid mark set, those that apply nowhere.
pub open spec fn dead_rows(rows: Seq<RowView>, m: ManifestView, n: int) -> Seq<Seq<char>>
    decreases n,
{
    if n <= 0 {
        Seq::<Seq<char>>::empty()
    } else {
        let init = dead_rows(rows, m, n - 1);
        let r = rows[n - 1];
        if mark_set_fault(r.tags) is None && !applies_somewhere(m, r.tags) {
            init.push(dead_row_text(r.prefix))
        } else {
            init
        }
    }
}

/// The message about a declared feature that no mark names.
pub open spec fn unreferenced_text(feature: Seq<char>) -> Seq<char> {
    "manifest classifies gated feature `"@ + feature
        + "`, which no lockfile tag references (retired feature not fully deleted?)"@
}

/// Of the first `n` declared features, the gated ones that no mark names.
pub open spec fn unreferenced_errors(
    named: Seq<(Seq<char>, ())>,
    m: ManifestView,
    n: int,
) -> Seq<Seq<char>>
    decreases n,
{
    if n <= 0 {
        Seq::<Seq<char>>::empty()
    } else {
        let init = unreferenced_errors(named, m, n - 1);
        let (feature, kind) = m.features[n - 1];
        if kind is Gated && !has_key(named, feature) {
            init.push(unreferenced_text(feature))
        } else {
            init
        }
    }
}

/// What is wrong with the declarations, before any result is looked at.
pub open spec fn declaration_errors(l: LockView, m: ManifestView) -> Seq<Seq<char>> {
    let named = lock_features(l);
    own_errors(l, m) + undeclared_errors(named, m, named.len() as int) + dead_cases(
        l.case,
        m,
        l.case.len() as int,
    ) + dead_rows(l.generated, m, l.generated.len() as int) + unreferenced_errors(
        named,
        m,
        m.features.len() as int,
    )
}

fn push_text(list: &mut Vec<String>, s: String)
    ensures
        views(final(list)@) == views(old(list)@).push(s@),
{
    let ghost was = views(list@);
    let ghost sv = s@;
    list.push(s);
    assert(views(list@) =~= was.push(sv));
}

/// `a`, `b` and `c` one after the other.
fn text3(a: &str, b: &str, c: &str) -> (r: String)
    ensures
        r@ == a@ + b@ + c@,
{
    let mut r = owned(a);
    r.append(b);
    r.append(c);
    r
}

fn somewhere(manifest: &Manifest, tags: &Tags) -> (r: bool)
    ensures
        r == applies_somewhere(manifest@, tags@),
{
    let n = manifest.targets.len();
    let mut i: usize = 0;
    while i < n
        invariant
            i <= n,
            n == manifest@.targets.len(),
            forall|k: int|
                0 <= k < i ==> !applies_to(
                    tags@,
                    (#[trigger] manifest@.targets[k]).1.missing_features,
                ),
        decreases n - i,
    {
        let missing = &manifest.targets.value_at(i).missing_features;
        proof {
            lemma_texts_of_strings(missing@);
        }
        assert(manifest@.targets[i as int].1.missing_features == views(missing@));
        if tags.applies(missing) {
            return true;
        }
        i += 1;
    }
    false
}

fn check_declarations(lockfile: &Lockfile, manifest: &Manifest) -> (errors: Vec<String>)
    ensures
        views(errors@) == declaration_errors(lockfile@, manifest@),
{
    let ghost l = lockfile@;
    let ghost m = manifest@;
    let mut errors: Vec<String> = Vec::new();
    assert(views(errors@) =~= Seq::<Seq<char>>::empty());
    let named = match lockfile.validate() {
        Ok(features) => features,
        Err(e) => {
            push_text(&mut errors, text3("lockfile: ", e.as_str(), ""));
            proof {
                reveal_strlit("");
                assert("lockfile: "@ + e@ + ""@ =~= "lockfile: "@ + e@);
                assert(views(errors@) =~= seq!["lockfile: "@ + e@]);
            }
            Table::new()
        },
    };
    match manifest.validate() {
        Ok(_) => {},
        Err(e) => {
            push_text(&mut errors, text3("manifest: ", e.as_str(), ""));
            proof {
                reveal_strlit("");
                assert("manifest: "@ + e@ + ""@ =~= "manifest: "@ + e@);
            }
        },
    }
    assert(named@ == lock_features(l));
    let ghost base1 = own_errors(l, m);
    assert(views(errors@) =~= base1);
    let n1 = named.len();
    let mut i: usize = 0;
    assert(views(errors@) =~= base1 + undeclared_errors(named@, m, 0));
    while i < n1
        invariant
            i <= n1,
            n1 == named@.len(),
            m == manifest@,
            views(errors@) == base1 + undeclared_errors(named@, m, i as int),
        decreases n1 - i,
    {
        let feature = named.key_at(i);
        if !manifest.features.contains_key(feature) {
            let ghost was = views(errors@);
            push_text(
                &mut errors,
                text3(
                    "lockfile tag names feature `",
                    feature,
                    "`, which is not classified in the manifest [features] table",
                ),
            );
            assert(views(errors@) =~= base1 + undeclared_errors(named@, m, i + 1));
        }
        i += 1;
    }
    let ghost base2 = views(errors@);
    let mut k: usize = 0;
    assert(views(errors@) =~= base2 + dead_cases(l.case, m, 0));
    while k < lockfile.case.len()
        invariant
            k <= lockfile.case@.len(),
            l == lockfile@,
            m == manifest@,
            views(errors@) == base2 + dead_cases(l.case, m, k as int),
        decreases lockfile.case.len() - k,
    {
        let entry = &lockfile.case[k];
        assert(l.case[k as int] == entry@);
        match Tags::new(clone_tags(&entry.tags)) {
            Ok(tags) => {
                if !somewhere(manifest, &tags) {
                    push_text(
                        &mut errors,
                        text3(
                            "case `",
                            entry.name.as_str().as_str(),
                            "` is applicable on no declared target (dead coverage)",
                        ),
                    );
                    assert(views(errors@) =~= base2 + dead_cases(l.case, m, k + 1));
                }
            },
            Err(_) => {},
        }
        k += 1;
    }
    let ghost base3 = views(errors@);
    let mut j: usize = 0;
    assert(views(errors@) =~= base3 + dead_rows(l.generated, m, 0));
    while j < lockfile.generated.len()
        invariant
            j <= lockfile.generated@.len(),
            l == lockfile@,
            m == manifest@,
            views(errors@) == base3 + dead_rows(l.generated, m, j as int),
        decreases lockfile.generated.len() - j,
    {
        let row = &lockfile.generated[j];
        assert(l.generated[j as int] == row@);
        match Tags::new(clone_tags(&row.tags)) {
            Ok(tags) => {
                if !somewhere(manifest, &tags) {
                    push_text(
                        &mut errors,
                        text3(
                            "generated row `",
                            row.prefix.as_str(),
                            "/*` is applicable on no declared target (dead coverage)",
                        ),
                    );
                    assert(views(errors@) =~= base3 + dead_rows(l.generated, m, j + 1));
                }
            },
            Err(_) => {},
        }
        j += 1;
    }
    let ghost base4 = views(errors@);
    let n4 = manifest.features.len();
    let mut x: usize = 0;
    assert(views(errors@) =~= base4 + unreferenced_errors(named@, m, 0));
    while x < n4
        invariant
            x <= n4,
            n4 == m.features.len(),
            m == manifest@,
            views(errors@) == base4 + unreferenced_errors(named@, m, x as int),
        decreases n4 - x,
    {
        let feature = manifest.features.key_at(x);
        let gated = match manifest.features.value_at(x).kind {
            FeatureKind::Gated => true,
            _ => false,
        };
        if gated && !named.contains_key(feature) {
            push_text(
                &mut errors,
                text3(
                    "manifest classifies gated feature `",
                    feature,
                    "`, which no lockfile tag references (retired feature not fully deleted?)",
                ),
            );
            assert(views(errors@) =~= base4 + unreferenced_errors(named@, m, x + 1));
        }
        x += 1;
    }
    errors
}

// ---------------------------------------------------------------------
// Applicability
// ---------------------------------------------------------------------

/// What comes of one reported result once the marks are looked at.
pub struct Judged {
    pub result: CaseView,
    pub error: Option<Seq<char>>,
    /// Was the result of an unscheduled stream taken to be not applicable?
    pub reclassified: bool,
    /// Did it pass although a feature that it requires is declared missing?
    pub smell: bool,
}

/// Nothing to say about the result.
pub open spec fn judged_fine(r: CaseView) -> Judged {
    Judged { result: r, error: None, reclassified: false, smell: false }
}

/// The message about a case that ran where its marks keep it out.
pub open spec fn ran_text(target: Seq<char>, r: CaseView, missing: Seq<Seq<char>>) -> Seq<char> {
    "target `"@ + target + "`: case `"@ + r.case + "` reported "@ + r.status.debug()
        + " but its tags make it not applicable given missing-features "@ + debug_texts(missing)
}

/// The message about a case that was kept out where its marks let it run.
pub open spec fn kept_out_text(target: Seq<char>, r: CaseView, missing: Seq<Seq<char>>) -> Seq<
    char,
> {
    "target `"@ + target + "`: case `"@ + r.case
        + "` reported not-applicable but its tags apply given missing-features "@ + debug_texts(
        missing,
    )
}

/// Judge a result by the marks of its case. A scheduled stream has to agree
/// with them; in a stream that executed everything, a case that does not
/// apply becomes not-applicable, as a scheduling runner would have said.
pub open spec fn judge(
    target: Seq<char>,
    missing: Seq<Seq<char>>,
    scheduled: bool,
    marks: Option<Seq<MarkView>>,
    r: CaseView,
) -> Judged {
    match marks {
        None => judged_fine(r),
        Some(ms) => if applies_to(ms, missing) {
            if r.status is NotApplicable {
                Judged { error: Some(kept_out_text(target, r, missing)), ..judged_fine(r) }
            } else {
                judged_fine(r)
            }
        } else if r.status is NotApplicable || r.status is NotReached {
            judged_fine(r)
        } else if scheduled {
            Judged { error: Some(ran_text(target, r, missing)), ..judged_fine(r) }
        } else {
            let mark = excluding(ms, missing);
            Judged {
                result: bare_case(
                    r.case,
                    Status::NotApplicable,
                    match mark {
                        Some(k) => Some(mark_text(k)),
                        None => None,
                    },
                ),
                error: None,
                reclassified: true,
                smell: r.status is Pass && mark is Some && !mark->0.negative,
            }
        },
    }
}

/// The judgment of the `i`-th result of a target.
pub open spec fn judge_at(
    l: LockView,
    target: Seq<char>,
    missing: Seq<Seq<char>>,
    scheduled: bool,
    table: CaseTable,
    i: int,
) -> Judged {
    judge(target, missing, scheduled, marks_for(l, table[i].1.case), table[i].1)
}

/// The results of a target after judgment.
pub open spec fn judged_table(
    l: LockView,
    target: Seq<char>,
    missing: Seq<Seq<char>>,
    scheduled: bool,
    table: CaseTable,
) -> CaseTable {
    Seq::new(
        table.len(),
        |i: int| (table[i].0, judge_at(l, target, missing, scheduled, table, i).result),
    )
}

/// The errors of the first `n` judgments.
pub open spec fn judged_errors(
    l: LockView,
    target: Seq<char>,
    missing: Seq<Seq<char>>,
    scheduled: bool,
    table: CaseTable,
    n: int,
) -> Seq<Seq<char>>
    decreases n,
{
    if n <= 0 {
        Seq::<Seq<char>>::empty()
    } else {
        with_opt(
            judged_errors(l, target, missing, scheduled, table, n - 1),
            judge_at(l, target, missing, scheduled, table, n - 1).error,
        )
    }
}

/// How many of the first `n` results were reclassified.
pub open spec fn reclassified_count(
    l: LockView,
    target: Seq<char>,
    missing: Seq<Seq<char>>,
    scheduled: bool,
    table: CaseTable,
    n: int,
) -> nat
    decreases n,
{
    if n <= 0 {
        0
    } else {
        reclassified_count(l, target, missing, scheduled, table, n - 1) + if judge_at(
            l,
            target,
            missing,
            scheduled,
            table,
            n - 1,
        ).reclassified {
            1nat
        } else {
            0nat
        }
    }
}

/// How many of the first `n` results passed without a feature they require.
pub open spec fn smell_count(
    l: LockView,
    target: Seq<char>,
    missing: Seq<Seq<char>>,
    scheduled: bool,
    table: CaseTable,
    n: int,
) -> nat
    decreases n,
{
    if n <= 0 {
        0
    } else {
        smell_count(l, target, missing, scheduled, table, n - 1) + if judge_at(
            l,
            target,
            missing,
            scheduled,
            table,
            n - 1,
        ).smell {
            1nat
        } else {
            0nat
        }
    }
}

/// The note about reclassified results, where there are any.
pub open spec fn reclassified_note(target: Seq<char>, count: nat, smells: nat) -> Option<Seq<char>> {
    if count == 0 {
        None
    } else {
        Some(
            "target `"@ + target + "`: "@ + decimal(count)
                + " case(s) executed by an unscheduled runner reclassified to not-applicable"@
                + if smells > 0 {
                "; "@ + decimal(smells)
                    + " of them passed despite requiring a declared-missing feature (manifest drift?)"@
            } else {
                Seq::<char>::empty()
            },
        )
    }
}

/// What is wrong with one result, and what it becomes.
struct Judgment {
    result: CaseResult,
    error: Option<String>,
    reclassified: bool,
    smell: bool,
}

impl View for Judgment {
    type V = Judged;

    closed spec fn view(&self) -> Judged {
        Judged {
            result: self.result@,
            error: crate::text::opt_text(self.error),
            reclassified: self.reclassified,
            smell: self.smell,
        }
    }
}

fn judge_result(
    target: &str,
    missing: &[String],
    scheduled: bool,
    tags: Option<&Tags>,
    r: &CaseResult,
) -> (j: Judgment)
    ensures
        j@ == judge(
            target@,
            views(missing@),
            scheduled,
            match tags {
                Some(t) => Some(t@),
                None => None,
            },
            r@,
        ),
{
    proof {
        lemma_texts_of_strings(missing@);
    }
    let tags = match tags {
        Some(t) => t,
        None => {
            return Judgment {
                result: r.clone(),
                error: None,
                reclassified: false,
                smell: false,
            };
        },
    };
    if tags.applies(missing) {
        match r.status {
            Status::NotApplicable => {
                let mut e = text3("target `", target, "`: case `");
                e.append(r.case.as_str());
                e.append("` reported not-applicable but its tags apply given missing-features ");
                e.append(debug_texts_text(missing).as_str());
                Judgment { result: r.clone(), error: Some(e), reclassified: false, smell: false }
            },
            _ => Judgment { result: r.clone(), error: None, reclassified: false, smell: false },
        }
    } else {
        match r.status {
            Status::NotApplicable | Status::NotReached => Judgment {
                result: r.clone(),
                error: None,
                reclassified: false,
                smell: false,
            },
            _ => {
                if scheduled {
                    let mut e = text3("target `", target, "`: case `");
                    e.append(r.case.as_str());
                    e.append("` reported ");
                    e.append(r.status.variant());
                    e.append(" but its tags make it not applicable given missing-features ");
                    e.append(debug_texts_text(missing).as_str());
                    Judgment { result: r.clone(), error: Some(e), reclassified: false, smell: false }
                } else {
                    let mark = tags.excluding_mark(missing);
                    let passed = match r.status {
                        Status::Pass => true,
                        _ => false,
                    };
                    let (detail, smell) = match mark {
                        Some(m) => (Some(m.to_string()), passed && !m.is_negative()),
                        None => (None, false),
                    };
                    Judgment {
                        result: crate::results::bare_result(
                            r.case.as_str(),
                            Status::NotApplicable,
                            detail,
                        ),
                        error: None,
                        reclassified: true,
                        smell,
                    }
                }
            },
        }
    }
}

/// Judge every result of a target, in place. Gives the errors and the note.
fn judge_table(
    index: &MarkIndex<'_>,
    target: &str,
    missing: &[String],
    scheduled: bool,
    table: &mut Table<CaseResult>,
    errors: &mut Vec<String>,
) -> (note: Option<String>)
    requires
        index.wf(),
    ensures
        final(table)@ == judged_table(
            index.lock@,
            target@,
            views(missing@),
            scheduled,
            old(table)@,
        ),
        views(final(errors)@) == views(old(errors)@) + judged_errors(
            index.lock@,
            target@,
            views(missing@),
            scheduled,
            old(table)@,
            old(table)@.len() as int,
        ),
        crate::text::opt_text(note) == reclassified_note(
            target@,
            reclassified_count(
                index.lock@,
                target@,
                views(missing@),
                scheduled,
                old(table)@,
                old(table)@.len() as int,
            ),
            smell_count(
                index.lock@,
                target@,
                views(missing@),
                scheduled,
                old(table)@,
                old(table)@.len() as int,
            ),
        ),
{
    let ghost l = index.lock@;
    let ghost ms = views(missing@);
    let ghost start = table@;
    let ghost base = views(errors@);
    let ghost end = judged_table(l, target@, ms, scheduled, start);
    let n = table.len();
    let mut count: usize = 0;
    let mut smells: usize = 0;
    let mut i: usize = 0;
    assert(table@ =~= end.take(0) + start.skip(0));
    assert(views(errors@) =~= base + judged_errors(l, target@, ms, scheduled, start, 0));
    while i < n
        invariant
            i <= n,
            n == start.len(),
            index.wf(),
            l == index.lock@,
            ms == views(missing@),
            end == judged_table(l, target@, ms, scheduled, start),
            count <= i,
            smells <= i,
            table@ == end.take(i as int) + start.skip(i as int),
            views(errors@) == base + judged_errors(l, target@, ms, scheduled, start, i as int),
            count == reclassified_count(l, target@, ms, scheduled, start, i as int),
            smells == smell_count(l, target@, ms, scheduled, start, i as int),
        decreases n - i,
    {
        assert(table@[i as int] == start[i as int]);
        let r = table.value_at(i);
        let j = judge_result(target, missing, scheduled, index.tags_for(r.case.as_str()), r);
        let ghost jv = judge_at(l, target@, ms, scheduled, start, i as int);
        assert(j@ == jv);
        match j.error {
            Some(e) => push_text(errors, e),
            None => {},
        }
        assert(views(errors@) =~= base + judged_errors(l, target@, ms, scheduled, start, i + 1));
        if j.reclassified {
            count += 1;
        }
        if j.smell {
            smells += 1;
        }
        let ghost was = table@;
        table.replace_at(i, j.result);
        assert(table@ =~= end.take(i + 1) + start.skip(i + 1));
        i += 1;
    }
    assert(table@ =~= end);
    if count > 0 {
        let mut w = text3("target `", target, "`: ");
        w.append(decimal_text(count as u128).as_str());
        w.append(" case(s) executed by an unscheduled runner reclassified to not-applicable");
        if smells > 0 {
            let ghost head = w@;
            w.append("; ");
            w.append(decimal_text(smells as u128).as_str());
            w.append(
                " of them passed despite requiring a declared-missing feature (manifest drift?)",
            );
            assert(w@ =~= head + ("; "@ + decimal(smells as nat)
                + " of them passed despite requiring a declared-missing feature (manifest drift?)"@));
        } else {
            assert(w@ =~= w@ + Seq::<char>::empty());
        }
        Some(w)
    } else {
        None
    }
}

// ---------------------------------------------------------------------
// Known failures
// ---------------------------------------------------------------------

/// What looking at the known failures of a target has given so far.
#[verifier::ext_equal]
pub struct KnownState {
    pub assessments: AssessmentTable,
    pub errors: Seq<Seq<char>>,
    pub warnings: Seq<Seq<char>>,
}

/// The head of every message about a known failure.
pub open spec fn known_head(target: Seq<char>, what: Seq<char>, case: Seq<char>) -> Seq<char> {
    "target `"@ + target + "`: "@ + what + case
}

/// What one declared known failure turns out to be.
pub open spec fn known_step(
    l: LockView,
    target: Seq<char>,
    missing: Seq<Seq<char>>,
    table: CaseTable,
    st: KnownState,
    k: KnownView,
) -> KnownState {
    match marks_for(l, k.case) {
        None => KnownState {
            errors: st.errors.push(
                known_head(target, "expected-fail declaration for `"@, k.case)
                    + "` names no known case (not in the lockfile, not under a generated prefix) — stale declaration?"@,
            ),
            ..st
        },
        Some(ms) => if !applies_to(ms, missing) {
            KnownState {
                errors: st.errors.push(
                    known_head(target, "expected-fail declaration for `"@, k.case)
                        + "` is stale: the case is not applicable given missing-features "@
                        + debug_texts(missing),
                ),
                ..st
            }
        } else {
            match lookup(table, k.case) {
                None => KnownState {
                    warnings: st.warnings.push(
                        known_head(target, "expected-fail case `"@, k.case)
                            + "` did not materialize in this run — the declared failure went unexercised"@,
                    ),
                    ..st
                },
                Some(r) => match r.status {
                    Status::Fail => KnownState {
                        assessments: put(
                            st.assessments,
                            k.case,
                            AssessmentView::ExpectedFail(k.reason, k.tracking),
                        ),
                        ..st
                    },
                    Status::Pass => KnownState {
                        assessments: put(st.assessments, k.case, AssessmentView::UnexpectedPass),
                        errors: st.errors.push(
                            known_head(target, "expected-fail case `"@, k.case)
                                + "` passed — remove the stale declaration (reason was: "@
                                + k.reason + "; tracking: "@ + k.tracking + ")"@,
                        ),
                        ..st
                    },
                    Status::Skipped => KnownState {
                        warnings: st.warnings.push(
                            known_head(target, "expected-fail case `"@, k.case)
                                + "` was skipped: the declared failure went unexercised"@,
                        ),
                        ..st
                    },
                    _ => st,
                },
            }
        },
    }
}

/// What the first `n` declared known failures turn out to be.
pub open spec fn known_steps(
    l: LockView,
    target: Seq<char>,
    missing: Seq<Seq<char>>,
    table: CaseTable,
    known: Seq<KnownView>,
    n: int,
) -> KnownState
    decreases n,
{
    if n <= 0 {
        KnownState {
            assessments: Seq::empty(),
            errors: Seq::empty(),
            warnings: Seq::empty(),
        }
    } else {
        known_step(
            l,
            target,
            missing,
            table,
            known_steps(l, target, missing, table, known, n - 1),
            known[n - 1],
        )
    }
}

struct Knowing {
    assessments: Table<Assessment>,
    errors: Vec<String>,
    warnings: Vec<String>,
}

impl View for Knowing {
    type V = KnownState;

    closed spec fn view(&self) -> KnownState {
        KnownState {
            assessments: self.assessments@,
            errors: views(self.errors@),
            warnings: views(self.warnings@),
        }
    }
}

fn known_message(target: &str, what: &str, case: &str, rest: &str) -> (r: String)
    ensures
        r@ == known_head(target@, what@, case@) + rest@,
{
    let mut r = text3("target `", target, "`: ");
    r.append(what);
    r.append(case);
    r.append(rest);
    r
}

fn assess(
    index: &MarkIndex<'_>,
    target: &str,
    missing: &[String],
    table: &Table<CaseResult>,
    st: &mut Knowing,
    k: &KnownFailure,
)
    requires
        index.wf(),
    ensures
        final(st)@ == known_step(
            index.lock@,
            target@,
            views(missing@),
            table@,
            old(st)@,
            k@,
        ),
{
    proof {
        lemma_texts_of_strings(missing@);
    }
    let case = k.case.as_str();
    let tags = match index.tags_for(case) {
        Some(t) => t,
        None => {
            push_text(
                &mut st.errors,
                known_message(
                    target,
                    "expected-fail declaration for `",
                    case,
                    "` names no known case (not in the lockfile, not under a generated prefix) — stale declaration?",
                ),
            );
            return;
        },
    };
    if !tags.applies(missing) {
        let mut m = known_message(
            target,
            "expected-fail declaration for `",
            case,
            "` is stale: the case is not applicable given missing-features ",
        );
        m.append(debug_texts_text(missing).as_str());
        push_text(&mut st.errors, m);
        return;
    }
    match table.get(case) {
        None => push_text(
            &mut st.warnings,
            known_message(
                target,
                "expected-fail case `",
                case,
                "` did not materialize in this run — the declared failure went unexercised",
            ),
        ),
        Some(r) => match r.status {
            Status::Fail => st.assessments.insert(
                k.case.clone(),
                Assessment::ExpectedFail {
                    reason: k.reason.clone(),
                    tracking: k.tracking.clone(),
                },
            ),
            Status::Pass => {
                st.assessments.insert(k.case.clone(), Assessment::UnexpectedPass);
                let mut m = known_message(
                    target,
                    "expected-fail case `",
                    case,
                    "` passed — remove the stale declaration (reason was: ",
                );
                m.append(k.reason.as_str());
                m.append("; tracking: ");
                m.append(k.tracking.as_str());
                m.append(")");
                push_text(&mut st.errors, m);
            },
            Status::Skipped => push_text(
                &mut st.warnings,
                known_message(
                    target,
                    "expected-fail case `",
                    case,
                    "` was skipped: the declared failure went unexercised",
                ),
            ),
            _ => {},
        },
    }
}

fn assess_all(
    index: &MarkIndex<'_>,
    target: &str,
    missing: &[String],
    table: &Table<CaseResult>,
    known: &[KnownFailure],
) -> (r: Knowing)
    requires
        index.wf(),
    ensures
        r@ == known_steps(
            index.lock@,
            target@,
            views(missing@),
            table@,
            crate::manifest::known_views(known@),
            known@.len() as int,
        ),
{
    let ghost ks = crate::manifest::known_views(known@);
    let mut st = Knowing { assessments: Table::new(), errors: Vec::new(), warnings: Vec::new() };
    proof {
        assert(st@.errors =~= Seq::<Seq<char>>::empty());
        assert(st@.warnings =~= Seq::<Seq<char>>::empty());
    }
    let mut i: usize = 0;
    while i < known.len()
        invariant
            i <= known@.len(),
            index.wf(),
            ks == crate::manifest::known_views(known@),
            st@ == known_steps(
                index.lock@,
                target@,
                views(missing@),
                table@,
                ks,
                i as int,
            ),
        decreases known.len() - i,
    {
        assert(ks[i as int] == known@[i as int]@);
        assess(index, target, missing, table, &mut st, &known[i]);
        i += 1;
    }
    st
}

// ---------------------------------------------------------------------
// One result set
// ---------------------------------------------------------------------

/// What has been joined so far.
#[verifier::ext_equal]
pub struct JoinState {
    /// The targets that had a result set.
    pub seen: Seq<Seq<char>>,
    pub results: Seq<(Seq<char>, CaseTable)>,
    pub assessments: Seq<(Seq<char>, AssessmentTable)>,
    /// The artifact hashes that envelopes carry, by target.
    pub hashes: Seq<(Seq<char>, Seq<char>)>,
    /// The leaves of generated rows that were reported, by target.
    pub leaves: Seq<(Seq<char>, Seq<(Seq<char>, ())>)>,
    pub errors: Seq<Seq<char>>,
    pub warnings: Seq<Seq<char>>,
}

/// The warnings about an envelope that does not say what was expected.
pub open spec fn envelope_warnings(l: LockView, target: Seq<char>, d: DocumentView) -> Seq<
    Seq<char>,
> {
    let first = if d.envelope.target != target {
        seq![
            "target `"@ + target + "`: results envelope names target `"@ + d.envelope.target + "`"@,
        ]
    } else {
        Seq::<Seq<char>>::empty()
    };
    if d.envelope.suite.name != l.suite_name {
        first.push(
            "target `"@ + target + "`: results envelope names suite `"@ + d.envelope.suite.name
                + "`, lockfile names `"@ + l.suite_name + "`"@,
        )
    } else {
        first
    }
}

/// The messages about the first `n` run errors.
pub open spec fn run_error_texts(target: Seq<char>, errors: Seq<Seq<char>>, n: int) -> Seq<
    Seq<char>,
>
    decreases n,
{
    if n <= 0 {
        Seq::<Seq<char>>::empty()
    } else {
        run_error_texts(target, errors, n - 1).push(
            "target `"@ + target + "`: run error: "@ + errors[n - 1],
        )
    }
}

/// The notes about the first `n` statuses that were not understood.
pub open spec fn unknown_texts(
    target: Seq<char>,
    unknown: Seq<(Seq<char>, Seq<char>)>,
    n: int,
) -> Seq<Seq<char>>
    decreases n,
{
    if n <= 0 {
        Seq::<Seq<char>>::empty()
    } else {
        unknown_texts(target, unknown, n - 1).push(
            "target `"@ + target + "`: case `"@ + unknown[n - 1].0 + "` has unknown status `"@
                + unknown[n - 1].1 + "`"@,
        )
    }
}

/// The names of the results.
pub open spec fn result_names(results: Seq<CaseView>) -> Seq<Seq<char>> {
    Seq::new(results.len(), |i: int| results[i].case)
}

/// What is wrong with a result set as a whole.
pub open spec fn transport_errors(
    l: LockView,
    m: ManifestView,
    target: Seq<char>,
    d: DocumentView,
) -> Seq<Seq<char>> {
    let declared = if missing_of(m, target) is None {
        seq!["target `"@ + target + "`: not declared in the manifest [targets] table"@]
    } else {
        Seq::<Seq<char>>::empty()
    };
    let ended = if d.terminated {
        declared
    } else {
        declared.push("target `"@ + target + "`: unterminated segment"@)
    };
    with_opt(
        ended + run_error_texts(target, d.run_errors, d.run_errors.len() as int),
        match coverage_fault(l, result_names(d.results)) {
            Some(f) => Some("target `"@ + target + "`: coverage: "@ + f),
            None => None,
        },
    )
}

/// The leaves of generated rows among the first `n` results.
pub open spec fn leaf_set(l: LockView, results: Seq<CaseView>, n: int) -> Seq<(Seq<char>, ())>
    decreases n,
{
    if n <= 0 {
        Seq::<(Seq<char>, ())>::empty()
    } else {
        let init = leaf_set(l, results, n - 1);
        if row_of(l.generated, results[n - 1].case) >= 0 {
            put(init, results[n - 1].case, ())
        } else {
            init
        }
    }
}

/// The first `n` results by case; a later report replaces an earlier one.
pub open spec fn result_table(results: Seq<CaseView>, n: int) -> CaseTable
    decreases n,
{
    if n <= 0 {
        Seq::<(Seq<char>, CaseView)>::empty()
    } else {
        put(result_table(results, n - 1), results[n - 1].case, results[n - 1])
    }
}

/// The results of a target once its marks are looked at.
pub open spec fn target_table(
    l: LockView,
    m: ManifestView,
    target: Seq<char>,
    d: DocumentView,
) -> CaseTable {
    let raw = result_table(d.results, d.results.len() as int);
    match missing_of(m, target) {
        Some(missing) => judged_table(l, target, missing, d.envelope.scheduled(), raw),
        None => raw,
    }
}

/// The errors of a target's results against their marks.
pub open spec fn mark_errors(
    l: LockView,
    m: ManifestView,
    target: Seq<char>,
    d: DocumentView,
) -> Seq<Seq<char>> {
    let raw = result_table(d.results, d.results.len() as int);
    match missing_of(m, target) {
        Some(missing) => judged_errors(
            l,
            target,
            missing,
            d.envelope.scheduled(),
            raw,
            raw.len() as int,
        ),
        None => Seq::empty(),
    }
}

/// The note about a target's reclassified results.
pub open spec fn mark_note(
    l: LockView,
    m: ManifestView,
    target: Seq<char>,
    d: DocumentView,
) -> Option<Seq<char>> {
    let raw = result_table(d.results, d.results.len() as int);
    let scheduled = d.envelope.scheduled();
    match missing_of(m, target) {
        Some(missing) => reclassified_note(
            target,
            reclassified_count(l, target, missing, scheduled, raw, raw.len() as int),
            smell_count(l, target, missing, scheduled, raw, raw.len() as int),
        ),
        None => None,
    }
}

/// What a target's known failures turn out to be.
pub open spec fn target_known(
    l: LockView,
    m: ManifestView,
    target: Seq<char>,
    d: DocumentView,
) -> KnownState {
    match lookup(m.targets, target) {
        Some(decl) => known_steps(
            l,
            target,
            decl.missing_features,
            target_table(l, m, target, d),
            decl.expected_fail,
            decl.expected_fail.len() as int,
        ),
        None => KnownState {
            assessments: Seq::empty(),
            errors: Seq::empty(),
            warnings: Seq::empty(),
        },
    }
}

/// What one result set does.
pub open spec fn join_step(
    l: LockView,
    m: ManifestView,
    st: JoinState,
    target: Seq<char>,
    d: DocumentView,
) -> JoinState {
    if st.seen.contains(target) {
        JoinState {
            errors: st.errors.push("target `"@ + target + "`: multiple result sets"@),
            ..st
        }
    } else {
        let known = target_known(l, m, target, d);
        JoinState {
            seen: st.seen.push(target),
            results: put(st.results, target, target_table(l, m, target, d)),
            assessments: if known.assessments.len() > 0 {
                put(st.assessments, target, known.assessments)
            } else {
                st.assessments
            },
            hashes: match d.envelope.suite.artifact_sha256 {
                Some(h) => st.hashes.push((target, h)),
                None => st.hashes,
            },
            leaves: st.leaves.push((target, leaf_set(l, d.results, d.results.len() as int))),
            errors: st.errors + transport_errors(l, m, target, d) + mark_errors(l, m, target, d)
                + known.errors,
            warnings: with_opt(
                st.warnings + envelope_warnings(l, target, d) + unknown_texts(
                    target,
                    d.unknown_statuses,
                    d.unknown_statuses.len() as int,
                ),
                mark_note(l, m, target, d),
            ) + known.warnings,
        }
    }
}

/// What the first `n` result sets do.
pub open spec fn join_steps(
    l: LockView,
    m: ManifestView,
    docs: Seq<(Seq<char>, DocumentView)>,
    n: int,
) -> JoinState
    decreases n,
{
    if n <= 0 {
        JoinState {
            seen: Seq::empty(),
            results: Seq::empty(),
            assessments: Seq::empty(),
            hashes: Seq::empty(),
            leaves: Seq::empty(),
            errors: declaration_errors(l, m),
            warnings: Seq::empty(),
        }
    } else {
        join_step(l, m, join_steps(l, m, docs, n - 1), docs[n - 1].0, docs[n - 1].1)
    }
}

/// The targets' leaf sets while they are collected.
struct LeafSet {
    target: String,
    leaves: Table<()>,
}

impl View for LeafSet {
    type V = (Seq<char>, Seq<(Seq<char>, ())>);

    closed spec fn view(&self) -> (Seq<char>, Seq<(Seq<char>, ())>) {
        (self.target@, self.leaves@)
    }
}

struct Joining {
    seen: Vec<String>,
    results: Table<Table<CaseResult>>,
    assessments: Table<Table<Assessment>>,
    hashes: Vec<(String, String)>,
    leaves: Vec<LeafSet>,
    errors: Vec<String>,
    warnings: Vec<String>,
}

spec fn pair_views(v: Seq<(String, String)>) -> Seq<(Seq<char>, Seq<char>)> {
    Seq::new(v.len(), |i: int| (v[i].0@, v[i].1@))
}

spec fn leaf_views(v: Seq<LeafSet>) -> Seq<(Seq<char>, Seq<(Seq<char>, ())>)> {
    Seq::new(v.len(), |i: int| v[i]@)
}

impl View for Joining {
    type V = JoinState;

    closed spec fn view(&self) -> JoinState {
        JoinState {
            seen: views(self.seen@),
            results: self.results@,
            assessments: self.assessments@,
            hashes: pair_views(self.hashes@),
            leaves: leaf_views(self.leaves@),
            errors: views(self.errors@),
            warnings: views(self.warnings@),
        }
    }
}

fn note_envelope(l: &Lockfile, target: &str, d: &Document, warnings: &mut Vec<String>)
    ensures
        views(final(warnings)@) == views(old(warnings)@) + envelope_warnings(l@, target@, d@),
{
    let ghost base = views(warnings@);
    if !same(d.envelope.target.as_str(), target) {
        let mut w = text3("target `", target, "`: results envelope names target `");
        w.append(d.envelope.target.as_str());
        w.append("`");
        push_text(warnings, w);
    }
    let ghost first = if d@.envelope.target != target@ {
        seq![
            "target `"@ + target@ + "`: results envelope names target `"@ + d@.envelope.target
                + "`"@,
        ]
    } else {
        Seq::<Seq<char>>::empty()
    };
    assert(views(warnings@) =~= base + first);
    if !same(d.envelope.suite.name.as_str(), l.suite.name.as_str()) {
        let mut w = text3("target `", target, "`: results envelope names suite `");
        w.append(d.envelope.suite.name.as_str());
        w.append("`, lockfile names `");
        w.append(l.suite.name.as_str());
        w.append("`");
        push_text(warnings, w);
    }
    assert(views(warnings@) =~= base + envelope_warnings(l@, target@, d@));
}

fn note_unknown(target: &str, unknown: &Table<String>, warnings: &mut Vec<String>)
    ensures
        views(final(warnings)@) == views(old(warnings)@) + unknown_texts(
            target@,
            unknown@,
            unknown@.len() as int,
        ),
{
    let ghost base = views(warnings@);
    let n = unknown.len();
    let mut i: usize = 0;
    assert(views(warnings@) =~= base + unknown_texts(target@, unknown@, 0));
    while i < n
        invariant
            i <= n,
            n == unknown@.len(),
            views(warnings@) == base + unknown_texts(target@, unknown@, i as int),
        decreases n - i,
    {
        let mut w = text3("target `", target, "`: case `");
        w.append(unknown.key_at(i));
        w.append("` has unknown status `");
        w.append(unknown.value_at(i).as_str());
        w.append("`");
        push_text(warnings, w);
        assert(views(warnings@) =~= base + unknown_texts(target@, unknown@, i + 1));
        i += 1;
    }
}

fn names_of(results: &[CaseResult]) -> (r: Vec<String>)
    ensures
        views(r@) == result_names(case_views(results@)),
{
    let mut r: Vec<String> = Vec::new();
    for i in 0..results.len()
        invariant
            r@.len() == i,
            forall|k: int| 0 <= k < i ==> (#[trigger] r@[k])@ == results@[k].case@,
    {
        r.push(results[i].case.clone());
    }
    assert(views(r@) =~= result_names(case_views(results@)));
    r
}

fn check_transport(
    l: &Lockfile,
    m: &Manifest,
    target: &str,
    d: &Document,
    errors: &mut Vec<String>,
)
    ensures
        views(final(errors)@) == views(old(errors)@) + transport_errors(l@, m@, target@, d@),
{
    let ghost base = views(errors@);
    if m.missing(target).is_none() {
        push_text(
            errors,
            text3("target `", target, "`: not declared in the manifest [targets] table"),
        );
    }
    let ghost declared = if missing_of(m@, target@) is None {
        seq!["target `"@ + target@ + "`: not declared in the manifest [targets] table"@]
    } else {
        Seq::<Seq<char>>::empty()
    };
    assert(views(errors@) =~= base + declared);
    if !d.terminated {
        push_text(errors, text3("target `", target, "`: unterminated segment"));
    }
    let ghost ended = if d.terminated {
        declared
    } else {
        declared.push("target `"@ + target@ + "`: unterminated segment"@)
    };
    assert(views(errors@) =~= base + ended);
    let ghost rs = d@.run_errors;
    let mut i: usize = 0;
    assert(views(errors@) =~= base + (ended + run_error_texts(target@, rs, 0)));
    while i < d.run_errors.len()
        invariant
            i <= d.run_errors@.len(),
            rs == views(d.run_errors@),
            views(errors@) == base + (ended + run_error_texts(target@, rs, i as int)),
        decreases d.run_errors.len() - i,
    {
        assert(rs[i as int] == d.run_errors@[i as int]@);
        let mut e = text3("target `", target, "`: run error: ");
        e.append(d.run_errors[i].as_str());
        push_text(errors, e);
        assert(views(errors@) =~= base + (ended + run_error_texts(target@, rs, i + 1)));
        i += 1;
    }
    let names = names_of(&d.results);
    proof {
        lemma_texts_of_strings(names@);
    }
    match l.check_coverage(&names) {
        Ok(_) => {},
        Err(f) => {
            let mut e = text3("target `", target, "`: coverage: ");
            e.append(f.as_str());
            push_text(errors, e);
        },
    }
    assert(views(errors@) =~= base + transport_errors(l@, m@, target@, d@));
}

fn collect_leaves(l: &Lockfile, results: &[CaseResult]) -> (r: Table<()>)
    ensures
        r@ == leaf_set(l@, case_views(results@), results@.len() as int),
{
    let ghost rs = case_views(results@);
    let mut r: Table<()> = Table::new();
    let mut i: usize = 0;
    while i < results.len()
        invariant
            i <= results@.len(),
            rs == case_views(results@),
            r@ == leaf_set(l@, rs, i as int),
        decreases results.len() - i,
    {
        assert(rs[i as int] == results@[i as int]@);
        if l.prefix_of(results[i].case.as_str()).is_some() {
            r.insert(results[i].case.clone(), ());
        }
        i += 1;
    }
    r
}

fn collect_results(results: &[CaseResult]) -> (r: Table<CaseResult>)
    ensures
        r@ == result_table(case_views(results@), results@.len() as int),
{
    let ghost rs = case_views(results@);
    let mut r: Table<CaseResult> = Table::new();
    let mut i: usize = 0;
    while i < results.len()
        invariant
            i <= results@.len(),
            rs == case_views(results@),
            r@ == result_table(rs, i as int),
        decreases results.len() - i,
    {
        assert(rs[i as int] == results@[i as int]@);
        r.insert(results[i].case.clone(), results[i].clone());
        i += 1;
    }
    r
}

fn append_texts(list: &mut Vec<String>, mut more: Vec<String>)
    ensures
        views(final(list)@) == views(old(list)@) + views(more@),
{
    let ghost was = views(list@);
    let ghost m = views(more@);
    list.append(&mut more);
    assert(views(list@) =~= was + m);
}

fn join_document(
    index: &MarkIndex<'_>,
    manifest: &Manifest,
    st: &mut Joining,
    target: &str,
    d: &Document,
)
    requires
        index.wf(),
    ensures
        final(st)@ == join_step(index.lock@, manifest@, old(st)@, target@, d@),
{
    let lock = index.lock;
    let ghost l = lock@;
    let ghost m = manifest@;
    let ghost was = st@;
    let ghost dv = d@;
    if among(&st.seen, target) {
        push_text(&mut st.errors, text3("target `", target, "`: multiple result sets"));
        return;
    }
    push_text(&mut st.seen, owned(target));
    note_envelope(lock, target, d, &mut st.warnings);
    match &d.envelope.suite.artifact_sha256 {
        Some(h) => {
            st.hashes.push((owned(target), h.clone()));
            assert(st@.hashes =~= was.hashes.push((target@, h@)));
        },
        None => {},
    }
    check_transport(lock, manifest, target, d, &mut st.errors);
    note_unknown(target, &d.unknown_statuses, &mut st.warnings);
    let leaves = LeafSet { target: owned(target), leaves: collect_leaves(lock, &d.results) };
    let ghost lv = leaves@;
    st.leaves.push(leaves);
    assert(st@.leaves =~= was.leaves.push(lv));
    let mut table = collect_results(&d.results);
    let ghost raw = table@;
    assert(raw == result_table(dv.results, dv.results.len() as int));
    match manifest.targets.get(target) {
        Some(decl) => {
            let missing = decl.missing_features.as_slice();
            assert(missing_of(m, target@) == Some(views(missing@)));
            match judge_table(
                index,
                target,
                missing,
                d.envelope.scheduled(),
                &mut table,
                &mut st.errors,
            ) {
                Some(w) => push_text(&mut st.warnings, w),
                None => {},
            }
            assert(table@ == target_table(l, m, target@, dv));
            let known = assess_all(index, target, missing, &table, &decl.expected_fail);
            let Knowing { assessments, errors, warnings } = known;
            append_texts(&mut st.errors, errors);
            append_texts(&mut st.warnings, warnings);
            if !assessments.is_empty() {
                st.assessments.insert(owned(target), assessments);
            }
        },
        None => {
            assert(missing_of(m, target@) is None);
            assert(table@ == target_table(l, m, target@, dv));
        },
    }
    st.results.insert(owned(target), table);
    proof {
        let end = join_step(l, m, was, target@, dv);
        assert(st@.errors =~= end.errors);
        assert(st@.warnings =~= end.warnings);
        assert(st@.hashes =~= end.hashes);
        assert(st@.leaves =~= end.leaves);
        assert(st@ =~= end);
    }
}

// ---------------------------------------------------------------------
// The targets against each other
// ---------------------------------------------------------------------

/// The errors about the first `n` declared targets without results.
pub open spec fn silent_errors(m: ManifestView, seen: Seq<Seq<char>>, n: int) -> Seq<Seq<char>>
    decreases n,
{
    if n <= 0 {
        Seq::<Seq<char>>::empty()
    } else {
        let init = silent_errors(m, seen, n - 1);
        let (target, decl) = m.targets[n - 1];
        if !seen.contains(target) && !decl.optional {
            init.push("target `"@ + target + "`: no results"@)
        } else {
            init
        }
    }
}

/// The warnings about the first `n` optional targets without results.
pub open spec fn silent_warnings(m: ManifestView, seen: Seq<Seq<char>>, n: int) -> Seq<Seq<char>>
    decreases n,
{
    if n <= 0 {
        Seq::<Seq<char>>::empty()
    } else {
        let init = silent_warnings(m, seen, n - 1);
        let (target, decl) = m.targets[n - 1];
        if !seen.contains(target) && decl.optional {
            init.push("target `"@ + target + "`: no results (declared optional)"@)
        } else {
            init
        }
    }
}

/// Do two envelopes carry different artifact hashes?
pub open spec fn hashes_differ(hashes: Seq<(Seq<char>, Seq<char>)>) -> bool {
    exists|i: int| 0 <= i < hashes.len() && (#[trigger] hashes[i]).1 != hashes[0].1
}

/// `target=hash` for every envelope.
pub open spec fn hash_list(hashes: Seq<(Seq<char>, Seq<char>)>) -> Seq<Seq<char>> {
    Seq::new(hashes.len(), |i: int| hashes[i].0 + "="@ + hashes[i].1)
}

/// The warning about artifacts of different builds, where there is one.
pub open spec fn hash_warning(hashes: Seq<(Seq<char>, Seq<char>)>) -> Option<Seq<char>> {
    if hashes_differ(hashes) {
        Some(
            "targets report differing suite artifact hashes (mixed builds?): "@ + join(
                hash_list(hashes),
                ", "@,
            ),
        )
    } else {
        None
    }
}

/// `set` with the keys of `more`, the first `n` of them.
pub open spec fn with_keys(
    set: Seq<(Seq<char>, ())>,
    more: Seq<(Seq<char>, ())>,
    n: int,
) -> Seq<(Seq<char>, ())>
    decreases n,
{
    if n <= 0 {
        set
    } else {
        put(with_keys(set, more, n - 1), more[n - 1].0, ())
    }
}

/// The leaves that any of the first `n` targets reported.
pub open spec fn leaf_union(leaves: Seq<(Seq<char>, Seq<(Seq<char>, ())>)>, n: int) -> Seq<
    (Seq<char>, ()),
>
    decreases n,
{
    if n <= 0 {
        Seq::<(Seq<char>, ())>::empty()
    } else {
        with_keys(leaf_union(leaves, n - 1), leaves[n - 1].1, leaves[n - 1].1.len() as int)
    }
}

/// Of the first `n` leaves of `all`, those that `mine` lacks.
pub open spec fn lacking(
    all: Seq<(Seq<char>, ())>,
    mine: Seq<(Seq<char>, ())>,
    n: int,
) -> Seq<Seq<char>>
    decreases n,
{
    if n <= 0 {
        Seq::<Seq<char>>::empty()
    } else {
        let init = lacking(all, mine, n - 1);
        if has_key(mine, all[n - 1].0) { init } else { init.push(all[n - 1].0) }
    }
}

/// How many missing leaves a message names.
pub const LEAVES_SHOWN: usize = 5;

/// The message about leaves that a target lacks.
pub open spec fn lacking_text(target: Seq<char>, missing: Seq<Seq<char>>) -> Seq<char> {
    let shown = if missing.len() > LEAVES_SHOWN {
        missing.take(LEAVES_SHOWN as int)
    } else {
        missing
    };
    let head = "target `"@ + target + "`: generated rows missing "@ + decimal(missing.len())
        + " leaf case(s) other targets report: "@ + join(shown, ", "@);
    if missing.len() > LEAVES_SHOWN {
        head + " (+"@ + decimal((missing.len() - LEAVES_SHOWN) as nat) + " more)"@
    } else {
        head
    }
}

/// The errors about the leaves that the first `n` targets lack.
pub open spec fn leaf_errors(
    leaves: Seq<(Seq<char>, Seq<(Seq<char>, ())>)>,
    all: Seq<(Seq<char>, ())>,
    n: int,
) -> Seq<Seq<char>>
    decreases n,
{
    if n <= 0 {
        Seq::<Seq<char>>::empty()
    } else {
        let init = leaf_errors(leaves, all, n - 1);
        let missing = lacking(all, leaves[n - 1].1, all.len() as int);
        if missing.len() > 0 {
            init.push(lacking_text(leaves[n - 1].0, missing))
        } else {
            init
        }
    }
}

/// The join of the documents of several targets.
pub open spec fn aggregated(
    l: LockView,
    m: ManifestView,
    docs: Seq<(Seq<char>, DocumentView)>,
) -> AggregateView {
    let st = join_steps(l, m, docs, docs.len() as int);
    let n = m.targets.len() as int;
    AggregateView {
        targets: keys(m.targets),
        results: st.results,
        assessments: st.assessments,
        errors: st.errors + silent_errors(m, st.seen, n) + leaf_errors(
            st.leaves,
            leaf_union(st.leaves, st.leaves.len() as int),
            st.leaves.len() as int,
        ),
        warnings: with_opt(
            st.warnings + silent_warnings(m, st.seen, n),
            hash_warning(st.hashes),
        ),
    }
}

/// The view of a list of result sets.
pub open spec fn docs_view(docs: Seq<(String, Document)>) -> Seq<(Seq<char>, DocumentView)> {
    Seq::new(docs.len(), |i: int| (docs[i].0@, docs[i].1@))
}

fn check_silent(
    manifest: &Manifest,
    seen: &[String],
    errors: &mut Vec<String>,
    warnings: &mut Vec<String>,
)
    ensures
        views(final(errors)@) == views(old(errors)@) + silent_errors(
            manifest@,
            views(seen@),
            manifest@.targets.len() as int,
        ),
        views(final(warnings)@) == views(old(warnings)@) + silent_warnings(
            manifest@,
            views(seen@),
            manifest@.targets.len() as int,
        ),
{
    let ghost m = manifest@;
    let ghost s = views(seen@);
    let ghost e0 = views(errors@);
    let ghost w0 = views(warnings@);
    let n = manifest.targets.len();
    let mut i: usize = 0;
    assert(views(errors@) =~= e0 + silent_errors(m, s, 0));
    assert(views(warnings@) =~= w0 + silent_warnings(m, s, 0));
    while i < n
        invariant
            i <= n,
            n == m.targets.len(),
            m == manifest@,
            s == views(seen@),
            views(errors@) == e0 + silent_errors(m, s, i as int),
            views(warnings@) == w0 + silent_warnings(m, s, i as int),
        decreases n - i,
    {
        let target = manifest.targets.key_at(i);
        if !among(seen, target) {
            if manifest.targets.value_at(i).optional {
                push_text(
                    warnings,
                    text3("target `", target, "`: no results (declared optional)"),
                );
            } else {
                push_text(errors, text3("target `", target, "`: no results"));
            }
        }
        assert(views(errors@) =~= e0 + silent_errors(m, s, i + 1));
        assert(views(warnings@) =~= w0 + silent_warnings(m, s, i + 1));
        i += 1;
    }
}

fn check_hashes(hashes: &[(String, String)]) -> (r: Option<String>)
    ensures
        crate::text::opt_text(r) == hash_warning(pair_views(hashes@)),
{
    let ghost hs = pair_views(hashes@);
    let mut differ = false;
    let mut i: usize = 0;
    while i < hashes.len()
        invariant
            i <= hashes@.len(),
            hs == pair_views(hashes@),
            differ ==> hashes_differ(hs),
            !differ ==> forall|k: int| 0 <= k < i ==> (#[trigger] hs[k]).1 == hs[0].1,
        decreases hashes.len() - i,
    {
        assert(hs[i as int].1 == hashes@[i as int].1@);
        assert(hs[0].1 == hashes@[0].1@);
        if !same(hashes[i].1.as_str(), hashes[0].1.as_str()) {
            differ = true;
        }
        i += 1;
    }
    if !differ {
        return None;
    }
    let mut list: Vec<String> = Vec::new();
    let mut k: usize = 0;
    assert(views(list@) =~= hash_list(hs).take(0));
    while k < hashes.len()
        invariant
            k <= hashes@.len(),
            hs == pair_views(hashes@),
            views(list@) == hash_list(hs).take(k as int),
        decreases hashes.len() - k,
    {
        let item = text3(hashes[k].0.as_str(), "=", hashes[k].1.as_str());
        assert(item@ == hash_list(hs)[k as int]);
        push_text(&mut list, item);
        assert(hash_list(hs).take(k + 1) =~= hash_list(hs).take(k as int).push(
            hash_list(hs)[k as int],
        ));
        k += 1;
    }
    assert(hash_list(hs).take(k as int) =~= hash_list(hs));
    let mut w = owned("targets report differing suite artifact hashes (mixed builds?): ");
    w.append(join_texts(&list, ", ").as_str());
    Some(w)
}

fn add_keys(set: &mut Table<()>, more: &Table<()>)
    ensures
        final(set)@ == with_keys(old(set)@, more@, more@.len() as int),
{
    let ghost start = set@;
    let n = more.len();
    let mut i: usize = 0;
    while i < n
        invariant
            i <= n,
            n == more@.len(),
            set@ == with_keys(start, more@, i as int),
        decreases n - i,
    {
        set.insert(owned(more.key_at(i)), ());
        i += 1;
    }
}

fn lacking_of(all: &Table<()>, mine: &Table<()>) -> (r: Vec<String>)
    ensures
        views(r@) == lacking(all@, mine@, all@.len() as int),
{
    let mut r: Vec<String> = Vec::new();
    let n = all.len();
    let mut i: usize = 0;
    assert(views(r@) =~= lacking(all@, mine@, 0));
    while i < n
        invariant
            i <= n,
            n == all@.len(),
            views(r@) == lacking(all@, mine@, i as int),
        decreases n - i,
    {
        let k = all.key_at(i);
        if !mine.contains_key(k) {
            push_text(&mut r, owned(k));
        }
        i += 1;
    }
    r
}

fn lacking_message(target: &str, missing: &[String]) -> (r: String)
    ensures
        r@ == lacking_text(target@, views(missing@)),
{
    let ghost ms = views(missing@);
    let n = missing.len();
    let mut r = text3("target `", target, "`: generated rows missing ");
    r.append(decimal_text(n as u128).as_str());
    r.append(" leaf case(s) other targets report: ");
    if n > LEAVES_SHOWN {
        let mut shown: Vec<String> = Vec::new();
        let mut i: usize = 0;
        assert(views(shown@) =~= ms.take(0));
        while i < LEAVES_SHOWN
            invariant
                i <= LEAVES_SHOWN < missing@.len(),
                ms == views(missing@),
                views(shown@) == ms.take(i as int),
            decreases LEAVES_SHOWN - i,
        {
            assert(ms.take(i + 1) =~= ms.take(i as int).push(ms[i as int]));
            push_text(&mut shown, missing[i].clone());
            i += 1;
        }
        r.append(join_texts(&shown, ", ").as_str());
        r.append(" (+");
        r.append(decimal_text((n - LEAVES_SHOWN) as u128).as_str());
        r.append(" more)");
    } else {
        r.append(join_texts(missing, ", ").as_str());
    }
    r
}

fn check_leaf_sets(leaves: &[LeafSet], errors: &mut Vec<String>)
    ensures
        views(final(errors)@) == views(old(errors)@) + leaf_errors(
            leaf_views(leaves@),
            leaf_union(leaf_views(leaves@), leaves@.len() as int),
            leaves@.len() as int,
        ),
{
    let ghost lv = leaf_views(leaves@);
    let mut all: Table<()> = Table::new();
    let mut i: usize = 0;
    while i < leaves.len()
        invariant
            i <= leaves@.len(),
            lv == leaf_views(leaves@),
            all@ == leaf_union(lv, i as int),
        decreases leaves.len() - i,
    {
        assert(lv[i as int] == leaves@[i as int]@);
        add_keys(&mut all, &leaves[i].leaves);
        i += 1;
    }
    let ghost base = views(errors@);
    let mut k: usize = 0;
    assert(views(errors@) =~= base + leaf_errors(lv, all@, 0));
    while k < leaves.len()
        invariant
            k <= leaves@.len(),
            lv == leaf_views(leaves@),
            views(errors@) == base + leaf_errors(lv, all@, k as int),
        decreases leaves.len() - k,
    {
        assert(lv[k as int] == leaves@[k as int]@);
        let missing = lacking_of(&all, &leaves[k].leaves);
        assert(views(missing@).len() == missing@.len());
        if missing.len() > 0 {
            push_text(errors, lacking_message(leaves[k].target.as_str(), &missing));
            assert(views(errors@) =~= base + leaf_errors(lv, all@, k + 1));
        }
        k += 1;
    }
}

/// Join the documents of several targets against the lockfile and the
/// manifest.
pub fn aggregate(lockfile: &Lockfile, manifest: &Manifest, docs: &[(String, Document)]) -> (r:
    Aggregate)
    ensures
        r@ == aggregated(lockfile@, manifest@, docs_view(docs@)),
{
    let ghost l = lockfile@;
    let ghost m = manifest@;
    let ghost dv = docs_view(docs@);
    let index = MarkIndex::build(lockfile);
    let mut st = Joining {
        seen: Vec::new(),
        results: Table::new(),
        assessments: Table::new(),
        hashes: Vec::new(),
        leaves: Vec::new(),
        errors: check_declarations(lockfile, manifest),
        warnings: Vec::new(),
    };
    proof {
        let start = join_steps(l, m, dv, 0);
        assert(st@.seen =~= start.seen);
        assert(st@.hashes =~= start.hashes);
        assert(st@.leaves =~= start.leaves);
        assert(st@.warnings =~= start.warnings);
        assert(st@ =~= start);
    }
    let mut i: usize = 0;
    while i < docs.len()
        invariant
            i <= docs@.len(),
            index.wf(),
            index.lock@ == l,
            m == manifest@,
            dv == docs_view(docs@),
            st@ == join_steps(l, m, dv, i as int),
        decreases docs.len() - i,
    {
        assert(dv[i as int] == (docs@[i as int].0@, docs@[i as int].1@));
        join_document(&index, manifest, &mut st, docs[i].0.as_str(), &docs[i].1);
        i += 1;
    }
    let ghost end = st@;
    let Joining { seen, results, assessments, hashes, leaves, mut errors, mut warnings } = st;
    check_silent(manifest, &seen, &mut errors, &mut warnings);
    match check_hashes(&hashes) {
        Some(w) => push_text(&mut warnings, w),
        None => {},
    }
    check_leaf_sets(&leaves, &mut errors);
    assert(leaf_views(leaves@).len() == leaves@.len());
    Aggregate { targets: manifest.targets.to_keys(), results, assessments, errors, warnings }
}

} // verus!
