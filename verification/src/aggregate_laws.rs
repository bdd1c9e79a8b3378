//! What a join without errors promises, and what a known failure may and
//! may not hide.

use vstd::prelude::*;

use crate::aggregate::{
    aggregated, applies_somewhere, case_mark_table, dead_case_text, dead_cases, dead_row_text,
    dead_rows, declaration_errors, envelope_warnings, hashes_differ, join_step, join_steps, judge,
    judge_at, judged_errors, judged_table, known_head, known_steps, lacking, lacking_text,
    leaf_errors, leaf_set, leaf_union, lock_features, mark_errors, mark_note, marks_for, own_errors,
    reclassified_count, result_names, result_table, row_mark_table, run_error_texts, silent_errors,
    silent_warnings, smell_count, target_known, target_table, transport_errors, undeclared_errors,
    undeclared_text, unknown_texts, unreferenced_errors, unreferenced_text, with_keys,
    AssessmentView, CaseTable, JoinState, Judged,
};
use crate::debug::debug_texts;
use crate::feature::{
    applies_to, excluding, is_mark_set, law_applies_or_excluded, law_mark_set_fault,
    mark_set_fault, mark_text, MarkView,
};
use crate::lockfile::{
    absent, all_marks, case_fault, cases_apart, cases_fault, closest_row, coverage_fault,
    hangs_from, law_all_marks, law_coverage_fault, law_lock_fault, law_longest_prefix,
    law_name_belongs_to_closest_row, lemma_contains_sum, lock_fault, lock_is_sound,
    marks_somewhere, may_be_reported, must_be_reported, names_case, records, report_fault,
    reports_fault, row_fault, row_is_sound, row_of, rows_apart, rows_fault, wanted_names, EntryView,
    LockView, RowView,
};
use crate::manifest::{
    is_closed, law_manifest_fault, manifest_fault, missing_of, FeatureKind, KnownView, ManifestView,
    TargetView,
};
use crate::results::{bare_case, CaseView, DocumentView, EnvelopeView, RunView, Status};
use crate::schedule::{keeps_out, law_first_mark_excludes};
use crate::table::{has_key, keys, law_lookup_put, lemma_lookup, lookup, put};
use crate::tags::{features_named, law_features_named, lemma_keys};
use crate::text::text_lt;

verus! {

// ---------------------------------------------------------------------
// Lockfiles and coverage
// ---------------------------------------------------------------------

proof fn lemma_cases_fault(cases: Seq<EntryView>, i: int)
    requires
        0 <= i <= cases.len(),
        cases_fault(cases, i) is None,
    ensures
        forall|k: int| i <= k < cases.len() ==> #[trigger] case_fault(cases, k) is None,
    decreases cases.len() - i,
{
    if i < cases.len() {
        lemma_cases_fault(cases, i + 1);
    }
}

proof fn lemma_rows_fault(rows: Seq<RowView>, i: int)
    requires
        0 <= i <= rows.len(),
        rows_fault(rows, i) is None,
    ensures
        forall|k: int| i <= k < rows.len() ==> #[trigger] row_fault(rows, k) is None,
    decreases rows.len() - i,
{
    if i < rows.len() {
        lemma_rows_fault(rows, i + 1);
    }
}

/// In a sound lockfile every case and row has a mark set.
pub proof fn law_sound_lock_has_mark_sets(l: LockView)
    requires
        lock_fault(l) is None,
    ensures
        forall|i: int|
            0 <= i < l.case.len() ==> mark_set_fault((#[trigger] l.case[i]).tags) is None,
        forall|i: int|
            0 <= i < l.generated.len() ==> mark_set_fault((#[trigger] l.generated[i]).tags)
                is None,
{
    lemma_cases_fault(l.case, 0);
    lemma_rows_fault(l.generated, 0);
    assert forall|i: int| 0 <= i < l.case.len() implies mark_set_fault(
        (#[trigger] l.case[i]).tags,
    ) is None by {
        assert(case_fault(l.case, i) is None);
    }
    assert forall|i: int| 0 <= i < l.generated.len() implies mark_set_fault(
        (#[trigger] l.generated[i]).tags,
    ) is None by {
        assert(row_fault(l.generated, i) is None);
    }
}

proof fn lemma_reports(l: LockView, names: Seq<Seq<char>>, i: int)
    requires
        0 <= i <= names.len(),
        reports_fault(l, names, i) is None,
    ensures
        forall|k: int| i <= k < names.len() ==> #[trigger] report_fault(l, names, k) is None,
    decreases names.len() - i,
{
    if i < names.len() {
        lemma_reports(l, names, i + 1);
    }
}

proof fn lemma_absent(wanted: Seq<Seq<char>>, names: Seq<Seq<char>>)
    requires
        absent(wanted, names).len() == 0,
    ensures
        forall|i: int| 0 <= i < wanted.len() ==> names.contains(#[trigger] wanted[i]),
    decreases wanted.len(),
{
    if wanted.len() > 0 {
        lemma_absent(wanted.drop_last(), names);
        assert forall|i: int| 0 <= i < wanted.len() implies names.contains(#[trigger] wanted[i]) by {
            if i < wanted.len() - 1 {
                assert(wanted.drop_last()[i] == wanted[i]);
            }
        }
    }
}

/// Coverage without a fault is coverage both ways: every wanted case is
/// reported, and every report is acceptable by itself.
pub proof fn law_covered(l: LockView, names: Seq<Seq<char>>)
    requires
        coverage_fault(l, names) is None,
    ensures
        forall|i: int|
            0 <= i < wanted_names(l).len() ==> names.contains(#[trigger] wanted_names(l)[i]),
        forall|k: int| 0 <= k < names.len() ==> #[trigger] report_fault(l, names, k) is None,
{
    lemma_reports(l, names, 0);
    lemma_absent(wanted_names(l), names);
}

// ---------------------------------------------------------------------
// A join without errors
// ---------------------------------------------------------------------

proof fn lemma_undeclared(named: Seq<(Seq<char>, ())>, m: ManifestView, n: int)
    requires
        0 <= n <= named.len(),
    ensures
        undeclared_errors(named, m, n).len() == 0 <==> forall|i: int|
            0 <= i < n ==> has_key(m.features, (#[trigger] named[i]).0),
    decreases n,
{
    if n > 0 {
        lemma_undeclared(named, m, n - 1);
    }
}

proof fn lemma_dead_cases(cases: Seq<EntryView>, m: ManifestView, n: int)
    requires
        0 <= n <= cases.len(),
    ensures
        dead_cases(cases, m, n).len() == 0 <==> forall|i: int|
            0 <= i < n && mark_set_fault((#[trigger] cases[i]).tags) is None ==> applies_somewhere(
                m,
                cases[i].tags,
            ),
    decreases n,
{
    if n > 0 {
        lemma_dead_cases(cases, m, n - 1);
    }
}

proof fn lemma_dead_rows(rows: Seq<RowView>, m: ManifestView, n: int)
    requires
        0 <= n <= rows.len(),
    ensures
        dead_rows(rows, m, n).len() == 0 <==> forall|i: int|
            0 <= i < n && mark_set_fault((#[trigger] rows[i]).tags) is None ==> applies_somewhere(
                m,
                rows[i].tags,
            ),
    decreases n,
{
    if n > 0 {
        lemma_dead_rows(rows, m, n - 1);
    }
}

proof fn lemma_unreferenced(named: Seq<(Seq<char>, ())>, m: ManifestView, n: int)
    requires
        0 <= n <= m.features.len(),
    ensures
        unreferenced_errors(named, m, n).len() == 0 <==> forall|i: int|
            0 <= i < n && (#[trigger] m.features[i]).1 is Gated ==> has_key(named, m.features[i].0),
    decreases n,
{
    if n > 0 {
        lemma_unreferenced(named, m, n - 1);
    }
}

/// The features of lockfile and manifest are the same: every marked feature
/// is declared, every gated one is marked, and no case or row is dead.
pub open spec fn declarations_agree(l: LockView, m: ManifestView) -> bool {
    let named = lock_features(l);
    &&& lock_fault(l) is None
    &&& manifest_fault(m) is None
    &&& forall|i: int| 0 <= i < named.len() ==> has_key(m.features, (#[trigger] named[i]).0)
    &&& forall|i: int|
        0 <= i < m.features.len() && (#[trigger] m.features[i]).1 is Gated ==> has_key(
            named,
            m.features[i].0,
        )
    &&& forall|i: int| 0 <= i < l.case.len() ==> applies_somewhere(m, (#[trigger] l.case[i]).tags)
    &&& forall|i: int|
        0 <= i < l.generated.len() ==> applies_somewhere(m, (#[trigger] l.generated[i]).tags)
}

proof fn lemma_declarations(l: LockView, m: ManifestView)
    requires
        declaration_errors(l, m).len() == 0,
    ensures
        declarations_agree(l, m),
{
    let named = lock_features(l);
    assert(own_errors(l, m).len() == 0);
    lemma_undeclared(named, m, named.len() as int);
    lemma_dead_cases(l.case, m, l.case.len() as int);
    lemma_dead_rows(l.generated, m, l.generated.len() as int);
    lemma_unreferenced(named, m, m.features.len() as int);
    law_sound_lock_has_mark_sets(l);
}

proof fn lemma_run_errors(target: Seq<char>, errors: Seq<Seq<char>>, n: int)
    requires
        n >= 0,
    ensures
        run_error_texts(target, errors, n).len() == n,
    decreases n,
{
    if n > 0 {
        lemma_run_errors(target, errors, n - 1);
    }
}

proof fn lemma_judged(
    l: LockView,
    target: Seq<char>,
    missing: Seq<Seq<char>>,
    scheduled: bool,
    table: CaseTable,
    n: int,
)
    requires
        0 <= n <= table.len(),
    ensures
        judged_errors(l, target, missing, scheduled, table, n).len() == 0 <==> forall|i: int|
            0 <= i < n ==> #[trigger] judge_at(l, target, missing, scheduled, table, i).error
                is None,
    decreases n,
{
    if n > 0 {
        lemma_judged(l, target, missing, scheduled, table, n - 1);
    }
}

/// A result set that nothing is held against: its target is declared, its
/// stream ended, no run error, full coverage, and no result that the marks
/// of its case speak against.
pub open spec fn in_order(l: LockView, m: ManifestView, target: Seq<char>, d: DocumentView) -> bool {
    let raw = result_table(d.results, d.results.len() as int);
    &&& missing_of(m, target) is Some
    &&& d.terminated
    &&& d.run_errors.len() == 0
    &&& coverage_fault(l, result_names(d.results)) is None
    &&& forall|i: int|
        0 <= i < raw.len() ==> #[trigger] judge_at(
            l,
            target,
            missing_of(m, target)->0,
            d.envelope.scheduled(),
            raw,
            i,
        ).error is None
}

proof fn lemma_step(l: LockView, m: ManifestView, st: JoinState, target: Seq<char>, d: DocumentView)
    requires
        join_step(l, m, st, target, d).errors.len() == 0,
    ensures
        st.errors.len() == 0,
        !st.seen.contains(target),
        join_step(l, m, st, target, d).seen == st.seen.push(target),
        in_order(l, m, target, d),
{
    assert(transport_errors(l, m, target, d).len() == 0);
    assert(mark_errors(l, m, target, d).len() == 0);
    lemma_run_errors(target, d.run_errors, d.run_errors.len() as int);
    let raw = result_table(d.results, d.results.len() as int);
    let missing = missing_of(m, target)->0;
    lemma_judged(l, target, missing, d.envelope.scheduled(), raw, raw.len() as int);
}

proof fn lemma_join(l: LockView, m: ManifestView, docs: Seq<(Seq<char>, DocumentView)>, n: int)
    requires
        0 <= n <= docs.len(),
        join_steps(l, m, docs, n).errors.len() == 0,
    ensures
        declaration_errors(l, m).len() == 0,
        join_steps(l, m, docs, n).seen == Seq::new(n as nat, |i: int| docs[i].0),
        forall|i: int| 0 <= i < n ==> in_order(l, m, (#[trigger] docs[i]).0, docs[i].1),
        forall|i: int, j: int|
            0 <= i < j < n ==> (#[trigger] docs[i]).0 != (#[trigger] docs[j]).0,
    decreases n,
{
    if n > 0 {
        let st = join_steps(l, m, docs, n - 1);
        let (target, d) = docs[n - 1];
        lemma_step(l, m, st, target, d);
        lemma_join(l, m, docs, n - 1);
        assert(st.seen.push(target) =~= Seq::new(n as nat, |i: int| docs[i].0));
        assert forall|i: int, j: int| 0 <= i < j < n implies (#[trigger] docs[i]).0 != (
        #[trigger] docs[j]).0 by {
            if j == n - 1 {
                assert(st.seen[i] == docs[i].0);
            }
        }
    } else {
        assert(join_steps(l, m, docs, 0).seen =~= Seq::new(0, |i: int| docs[i].0));
    }
}

proof fn lemma_silent(m: ManifestView, seen: Seq<Seq<char>>, n: int)
    requires
        0 <= n <= m.targets.len(),
    ensures
        silent_errors(m, seen, n).len() == 0 <==> forall|i: int|
            0 <= i < n && !(#[trigger] m.targets[i]).1.optional ==> seen.contains(m.targets[i].0),
    decreases n,
{
    if n > 0 {
        lemma_silent(m, seen, n - 1);
    }
}

/// A join without errors means that everything is in order: lockfile and
/// manifest agree, every result set is in order and no target has two, and
/// every target that is not optional has one.
pub proof fn law_no_errors_means_in_order(
    l: LockView,
    m: ManifestView,
    docs: Seq<(Seq<char>, DocumentView)>,
)
    requires
        aggregated(l, m, docs).errors.len() == 0,
    ensures
        declarations_agree(l, m),
        forall|i: int|
            0 <= i < docs.len() ==> in_order(l, m, (#[trigger] docs[i]).0, docs[i].1),
        forall|i: int, j: int|
            0 <= i < j < docs.len() ==> (#[trigger] docs[i]).0 != (#[trigger] docs[j]).0,
        forall|t: int|
            0 <= t < m.targets.len() && !(#[trigger] m.targets[t]).1.optional ==> exists|i: int|
                0 <= i < docs.len() && (#[trigger] docs[i]).0 == m.targets[t].0,
{
    let st = join_steps(l, m, docs, docs.len() as int);
    lemma_join(l, m, docs, docs.len() as int);
    lemma_declarations(l, m);
    lemma_silent(m, st.seen, m.targets.len() as int);
    assert forall|t: int| 0 <= t < m.targets.len() && !(#[trigger] m.targets[t]).1.optional implies
        exists|i: int| 0 <= i < docs.len() && (#[trigger] docs[i]).0 == m.targets[t].0 by {
        let i = choose|i: int| 0 <= i < st.seen.len() && st.seen[i] == m.targets[t].0;
        assert(docs[i].0 == m.targets[t].0);
    }
}

/// The leaves of generated rows that a result set reports.
pub open spec fn reported_leaves(l: LockView, d: DocumentView) -> Seq<(Seq<char>, ())> {
    leaf_set(l, d.results, d.results.len() as int)
}

proof fn lemma_leaves(l: LockView, m: ManifestView, docs: Seq<(Seq<char>, DocumentView)>, n: int)
    requires
        0 <= n <= docs.len(),
        join_steps(l, m, docs, n).errors.len() == 0,
    ensures
        join_steps(l, m, docs, n).leaves == Seq::new(
            n as nat,
            |i: int| (docs[i].0, reported_leaves(l, docs[i].1)),
        ),
    decreases n,
{
    if n > 0 {
        let st = join_steps(l, m, docs, n - 1);
        lemma_step(l, m, st, docs[n - 1].0, docs[n - 1].1);
        lemma_leaves(l, m, docs, n - 1);
    }
}

proof fn lemma_with_keys(
    set: Seq<(Seq<char>, ())>,
    more: Seq<(Seq<char>, ())>,
    n: int,
    q: Seq<char>,
)
    requires
        0 <= n <= more.len(),
        has_key(set, q) || exists|i: int| 0 <= i < n && (#[trigger] more[i]).0 == q,
    ensures
        has_key(with_keys(set, more, n), q),
    decreases n,
{
    if n > 0 {
        law_lookup_put(with_keys(set, more, n - 1), more[n - 1].0, (), q);
        if more[n - 1].0 != q {
            lemma_with_keys(set, more, n - 1, q);
        }
    }
}

proof fn lemma_union(
    leaves: Seq<(Seq<char>, Seq<(Seq<char>, ())>)>,
    n: int,
    j: int,
    q: Seq<char>,
)
    requires
        0 <= j < n <= leaves.len(),
        has_key(leaves[j].1, q),
    ensures
        has_key(leaf_union(leaves, n), q),
    decreases n,
{
    let more = leaves[n - 1].1;
    if j == n - 1 {
        lemma_lookup(more, q);
    } else {
        lemma_union(leaves, n - 1, j, q);
    }
    lemma_with_keys(leaf_union(leaves, n - 1), more, more.len() as int, q);
}

proof fn lemma_lacking(all: Seq<(Seq<char>, ())>, mine: Seq<(Seq<char>, ())>, n: int)
    requires
        0 <= n <= all.len(),
        lacking(all, mine, n).len() == 0,
    ensures
        forall|i: int| 0 <= i < n ==> has_key(mine, (#[trigger] all[i]).0),
    decreases n,
{
    if n > 0 {
        lemma_lacking(all, mine, n - 1);
    }
}

proof fn lemma_leaf_errors(
    leaves: Seq<(Seq<char>, Seq<(Seq<char>, ())>)>,
    all: Seq<(Seq<char>, ())>,
    n: int,
    i: int,
)
    requires
        0 <= i < n <= leaves.len(),
        leaf_errors(leaves, all, n).len() == 0,
    ensures
        lacking(all, leaves[i].1, all.len() as int).len() == 0,
    decreases n,
{
    if i < n - 1 {
        lemma_leaf_errors(leaves, all, n - 1, i);
    }
}

/// In a join without errors the targets agree on the leaves of generated
/// rows: what one reports, every other one reports too.
pub proof fn law_no_errors_means_leaves_agree(
    l: LockView,
    m: ManifestView,
    docs: Seq<(Seq<char>, DocumentView)>,
    i: int,
    j: int,
    case: Seq<char>,
)
    requires
        aggregated(l, m, docs).errors.len() == 0,
        0 <= i < docs.len(),
        0 <= j < docs.len(),
    ensures
        has_key(reported_leaves(l, docs[i].1), case) <==> has_key(
            reported_leaves(l, docs[j].1),
            case,
        ),
{
    let n = docs.len() as int;
    let leaves = join_steps(l, m, docs, n).leaves;
    let all = leaf_union(leaves, n);
    lemma_leaves(l, m, docs, n);
    assert forall|a: int, b: int|
        0 <= a < n && 0 <= b < n && has_key((#[trigger] leaves[a]).1, case) implies has_key(
        (#[trigger] leaves[b]).1,
        case,
    ) by {
        lemma_union(leaves, n, a, case);
        lemma_lookup(all, case);
        lemma_leaf_errors(leaves, all, n, b);
        lemma_lacking(all, leaves[b].1, all.len() as int);
    }
    assert(leaves[i].1 == reported_leaves(l, docs[i].1));
    assert(leaves[j].1 == reported_leaves(l, docs[j].1));
}

/// A declared failure that is still due: the lockfile knows the case, it
/// applies on the target, and it did not pass.
pub open spec fn known_is_current(
    l: LockView,
    missing: Seq<Seq<char>>,
    table: CaseTable,
    k: KnownView,
) -> bool {
    &&& marks_for(l, k.case) is Some
    &&& applies_to(marks_for(l, k.case)->0, missing)
    &&& lookup(table, k.case) is Some ==> lookup(table, k.case)->0.status !is Pass
}

proof fn lemma_known_current(
    l: LockView,
    target: Seq<char>,
    missing: Seq<Seq<char>>,
    table: CaseTable,
    known: Seq<KnownView>,
    n: int,
)
    requires
        0 <= n <= known.len(),
        known_steps(l, target, missing, table, known, n).errors.len() == 0,
    ensures
        forall|i: int| 0 <= i < n ==> known_is_current(l, missing, table, #[trigger] known[i]),
    decreases n,
{
    if n > 0 {
        lemma_known_current(l, target, missing, table, known, n - 1);
    }
}

proof fn lemma_join_known(
    l: LockView,
    m: ManifestView,
    docs: Seq<(Seq<char>, DocumentView)>,
    n: int,
    i: int,
)
    requires
        0 <= i < n <= docs.len(),
        join_steps(l, m, docs, n).errors.len() == 0,
    ensures
        target_known(l, m, docs[i].0, docs[i].1).errors.len() == 0,
    decreases n,
{
    let st = join_steps(l, m, docs, n - 1);
    lemma_step(l, m, st, docs[n - 1].0, docs[n - 1].1);
    if i < n - 1 {
        lemma_join_known(l, m, docs, n - 1, i);
    }
}

/// A join without errors leaves no stale declaration of a known failure: a
/// case that was fixed, retired or no longer applies has to lose its own.
pub proof fn law_no_errors_means_known_failures_are_due(
    l: LockView,
    m: ManifestView,
    docs: Seq<(Seq<char>, DocumentView)>,
    i: int,
)
    requires
        aggregated(l, m, docs).errors.len() == 0,
        0 <= i < docs.len(),
    ensures
        lookup(m.targets, docs[i].0) is Some,
        forall|k: int|
            0 <= k < lookup(m.targets, docs[i].0)->0.expected_fail.len() ==> known_is_current(
                l,
                lookup(m.targets, docs[i].0)->0.missing_features,
                target_table(l, m, docs[i].0, docs[i].1),
                #[trigger] lookup(m.targets, docs[i].0)->0.expected_fail[k],
            ),
{
    law_no_errors_means_in_order(l, m, docs);
    assert(in_order(l, m, docs[i].0, docs[i].1));
    lemma_join_known(l, m, docs, docs.len() as int, i);
    let decl = lookup(m.targets, docs[i].0)->0;
    lemma_known_current(
        l,
        docs[i].0,
        decl.missing_features,
        target_table(l, m, docs[i].0, docs[i].1),
        decl.expected_fail,
        decl.expected_fail.len() as int,
    );
}

/// Errors only add up: what was wrong before a result set is looked at stays
/// wrong.
pub proof fn law_errors_only_grow(
    l: LockView,
    m: ManifestView,
    st: JoinState,
    target: Seq<char>,
    d: DocumentView,
)
    ensures
        st.errors.is_prefix_of(join_step(l, m, st, target, d).errors),
        st.warnings.is_prefix_of(join_step(l, m, st, target, d).warnings),
{
    let next = join_step(l, m, st, target, d);
    assert(next.errors.take(st.errors.len() as int) =~= st.errors);
    assert(next.warnings.take(st.warnings.len() as int) =~= st.warnings);
}

/// A target that is not declared gets no error per case: nothing says which
/// features it lacks.
pub proof fn law_undeclared_target_is_not_judged(
    l: LockView,
    m: ManifestView,
    target: Seq<char>,
    d: DocumentView,
)
    requires
        missing_of(m, target) is None,
    ensures
        transport_errors(l, m, target, d).len() > 0,
        mark_errors(l, m, target, d).len() == 0,
        target_known(l, m, target, d).errors.len() == 0,
        target_table(l, m, target, d) == result_table(d.results, d.results.len() as int),
{
}

// ---------------------------------------------------------------------
// Judgments
// ---------------------------------------------------------------------

/// In a scheduled stream a judged result is the reported one, and it is in
/// order exactly where it says not-applicable just when the marks do (a case
/// that was not reached may be either).
pub proof fn law_scheduled_is_held_to_its_marks(
    target: Seq<char>,
    missing: Seq<Seq<char>>,
    ms: Seq<MarkView>,
    r: CaseView,
)
    requires
        r.status !is NotReached,
    ensures
        judge(target, missing, true, Some(ms), r).result == r,
        judge(target, missing, true, Some(ms), r).error is None <==> (r.status is NotApplicable
            <==> !applies_to(ms, missing)),
{
}

/// What executed everything reads as if it had been scheduled: a case that
/// does not apply becomes the very result that a scheduling runner reports,
/// and one that applies is left alone.
pub proof fn law_unscheduled_reads_as_scheduled(
    target: Seq<char>,
    missing: Seq<Seq<char>>,
    ms: Seq<MarkView>,
    r: CaseView,
)
    requires
        r.status is Pass || r.status is Fail || r.status is Skipped || r.status is Deselected,
    ensures
        judge(target, missing, false, Some(ms), r).error is None,
        judge(target, missing, false, Some(ms), r).result == if applies_to(ms, missing) {
            r
        } else {
            bare_case(
                r.case,
                Status::NotApplicable,
                Some(mark_text(excluding(ms, missing)->0)),
            )
        },
{
    law_applies_or_excluded(ms, missing);
}

/// `r` as a scheduling runner would have reported it: a case that does not
/// apply and was executed all the same becomes not-applicable.
pub open spec fn as_scheduled(
    l: LockView,
    target: Seq<char>,
    missing: Seq<Seq<char>>,
    r: CaseView,
) -> CaseView {
    judge(target, missing, false, marks_for(l, r.case), r).result
}

/// A result set as a scheduling runner would have reported it. One that is
/// scheduled already stays, and so does that of a target that is not declared.
pub open spec fn scheduled_twin(
    l: LockView,
    m: ManifestView,
    target: Seq<char>,
    d: DocumentView,
) -> DocumentView {
    match missing_of(m, target) {
        Some(missing) => if d.envelope.scheduled() {
            d
        } else {
            DocumentView {
                envelope: EnvelopeView {
                    run: RunView { scheduling: Some("tags"@), ..d.envelope.run },
                    ..d.envelope
                },
                results: Seq::new(
                    d.results.len(),
                    |i: int| as_scheduled(l, target, missing, d.results[i]),
                ),
                ..d
            }
        },
        None => d,
    }
}

/// Result sets as scheduling runners would have reported them.
pub open spec fn scheduled_twins(
    l: LockView,
    m: ManifestView,
    docs: Seq<(Seq<char>, DocumentView)>,
) -> Seq<(Seq<char>, DocumentView)> {
    Seq::new(docs.len(), |i: int| (docs[i].0, scheduled_twin(l, m, docs[i].0, docs[i].1)))
}

spec fn table_map(t: CaseTable, f: spec_fn(CaseView) -> CaseView) -> CaseTable {
    Seq::new(t.len(), |i: int| (t[i].0, f(t[i].1)))
}

proof fn lemma_put_map(t: CaseTable, k: Seq<char>, v: CaseView, f: spec_fn(CaseView) -> CaseView)
    ensures
        put(table_map(t, f), k, f(v)) == table_map(put(t, k, v), f),
    decreases t.len(),
{
    let a = table_map(t, f);
    if t.len() == 0 {
        assert(put(a, k, f(v)) =~= table_map(put(t, k, v), f));
    } else {
        assert(a[0].0 == t[0].0);
        assert(a.drop_first() =~= table_map(t.drop_first(), f));
        lemma_put_map(t.drop_first(), k, v, f);
        assert(put(a, k, f(v)) =~= table_map(put(t, k, v), f));
    }
}

proof fn lemma_result_table_map(
    rs: Seq<CaseView>,
    mapped: Seq<CaseView>,
    f: spec_fn(CaseView) -> CaseView,
    n: int,
)
    requires
        0 <= n <= rs.len(),
        mapped.len() == rs.len(),
        forall|i: int| 0 <= i < rs.len() ==> #[trigger] mapped[i] == f(rs[i]),
        forall|r: CaseView| (#[trigger] f(r)).case == r.case,
    ensures
        result_table(mapped, n) == table_map(result_table(rs, n), f),
    decreases n,
{
    if n > 0 {
        lemma_result_table_map(rs, mapped, f, n - 1);
        lemma_put_map(result_table(rs, n - 1), rs[n - 1].case, rs[n - 1], f);
        assert(mapped[n - 1] == f(rs[n - 1]));
    } else {
        assert(result_table(mapped, 0) =~= table_map(result_table(rs, 0), f));
    }
}

proof fn lemma_judged_twins(
    l: LockView,
    target: Seq<char>,
    missing: Seq<Seq<char>>,
    raw: CaseTable,
    twin: CaseTable,
    n: int,
)
    requires
        0 <= n <= raw.len(),
        twin == table_map(raw, |r: CaseView| as_scheduled(l, target, missing, r)),
    ensures
        judged_errors(l, target, missing, false, raw, n) == judged_errors(
            l,
            target,
            missing,
            true,
            twin,
            n,
        ),
    decreases n,
{
    if n > 0 {
        lemma_judged_twins(l, target, missing, raw, twin, n - 1);
        let r = raw[n - 1].1;
        assert(twin[n - 1].1 == as_scheduled(l, target, missing, r));
        assert(twin[n - 1].1.case == r.case);
    }
}

proof fn lemma_leaf_twins(l: LockView, a: Seq<CaseView>, b: Seq<CaseView>, n: int)
    requires
        0 <= n <= a.len(),
        a.len() == b.len(),
        forall|i: int| 0 <= i < a.len() ==> (#[trigger] a[i]).case == b[i].case,
    ensures
        leaf_set(l, a, n) == leaf_set(l, b, n),
    decreases n,
{
    if n > 0 {
        lemma_leaf_twins(l, a, b, n - 1);
        assert(a[n - 1].case == b[n - 1].case);
    }
}

proof fn lemma_twin(l: LockView, m: ManifestView, target: Seq<char>, d: DocumentView)
    ensures
        ({
            let e = scheduled_twin(l, m, target, d);
            &&& target_table(l, m, target, e) == target_table(l, m, target, d)
            &&& transport_errors(l, m, target, e) == transport_errors(l, m, target, d)
            &&& mark_errors(l, m, target, e) == mark_errors(l, m, target, d)
            &&& target_known(l, m, target, e) == target_known(l, m, target, d)
            &&& reported_leaves(l, e) == reported_leaves(l, d)
            &&& e.envelope.suite == d.envelope.suite
        }),
{
    let e = scheduled_twin(l, m, target, d);
    if missing_of(m, target) is Some && !d.envelope.scheduled() {
        let missing = missing_of(m, target)->0;
        let f = |r: CaseView| as_scheduled(l, target, missing, r);
        reveal_strlit("tags");
        reveal_strlit("none");
        assert("tags"@[0] != "none"@[0]);
        assert(e.envelope.scheduled());
        assert forall|r: CaseView| (#[trigger] f(r)).case == r.case by {
        }
        assert forall|i: int| 0 <= i < d.results.len() implies #[trigger] e.results[i] == f(
            d.results[i],
        ) by {
        }
        let n = d.results.len() as int;
        lemma_result_table_map(d.results, e.results, f, n);
        let raw = result_table(d.results, n);
        let twin = result_table(e.results, n);
        assert(twin == table_map(raw, f));
        assert(target_table(l, m, target, e) =~= target_table(l, m, target, d)) by {
            assert forall|i: int| 0 <= i < raw.len() implies #[trigger] target_table(
                l,
                m,
                target,
                e,
            )[i] == target_table(l, m, target, d)[i] by {
                assert(twin[i].1 == f(raw[i].1));
            }
        }
        lemma_judged_twins(l, target, missing, raw, twin, raw.len() as int);
        assert(result_names(e.results) =~= result_names(d.results)) by {
            assert forall|i: int| 0 <= i < n implies #[trigger] result_names(e.results)[i]
                == result_names(d.results)[i] by {
                assert(e.results[i] == f(d.results[i]));
            }
        }
        assert forall|i: int| 0 <= i < d.results.len() implies (#[trigger] d.results[i]).case
            == e.results[i].case by {
            assert(e.results[i] == f(d.results[i]));
        }
        lemma_leaf_twins(l, d.results, e.results, n);
    }
}

/// Are the states alike but for their warnings?
spec fn alike(a: JoinState, b: JoinState) -> bool {
    &&& a.seen == b.seen
    &&& a.results == b.results
    &&& a.assessments == b.assessments
    &&& a.hashes == b.hashes
    &&& a.leaves == b.leaves
    &&& a.errors == b.errors
}

proof fn lemma_join_twins(
    l: LockView,
    m: ManifestView,
    docs: Seq<(Seq<char>, DocumentView)>,
    n: int,
)
    requires
        0 <= n <= docs.len(),
    ensures
        alike(join_steps(l, m, docs, n), join_steps(l, m, scheduled_twins(l, m, docs), n)),
    decreases n,
{
    if n > 0 {
        lemma_join_twins(l, m, docs, n - 1);
        lemma_twin(l, m, docs[n - 1].0, docs[n - 1].1);
        let twins = scheduled_twins(l, m, docs);
        assert(twins[n - 1] == (
            docs[n - 1].0,
            scheduled_twin(l, m, docs[n - 1].0, docs[n - 1].1),
        ));
    }
}

/// Streams that executed everything, joined as a whole, read as the streams
/// that scheduling runners would have written: the same results, the same
/// assessments and the same errors. Only a note tells them apart.
pub proof fn law_unscheduled_join_reads_as_scheduled(
    l: LockView,
    m: ManifestView,
    docs: Seq<(Seq<char>, DocumentView)>,
)
    ensures
        ({
            let a = aggregated(l, m, docs);
            let b = aggregated(l, m, scheduled_twins(l, m, docs));
            &&& a.targets == b.targets
            &&& a.results == b.results
            &&& a.assessments == b.assessments
            &&& a.errors == b.errors
        }),
        forall|i: int|
            0 <= i < docs.len() && missing_of(m, (#[trigger] docs[i]).0) is Some
                ==> scheduled_twins(l, m, docs)[i].1.envelope.scheduled(),
{
    lemma_join_twins(l, m, docs, docs.len() as int);
    reveal_strlit("tags");
    reveal_strlit("none");
    assert("tags"@[0] != "none"@[0]);
}

proof fn lemma_known(
    l: LockView,
    target: Seq<char>,
    missing: Seq<Seq<char>>,
    table: CaseTable,
    known: Seq<KnownView>,
    n: int,
    case: Seq<char>,
)
    requires
        0 <= n <= known.len(),
    ensures
        ({
            let a = lookup(known_steps(l, target, missing, table, known, n).assessments, case);
            a is Some && a->0 is ExpectedFail ==> lookup(table, case) is Some && lookup(
                table,
                case,
            )->0.status is Fail
        }),
    decreases n,
{
    if n > 0 {
        lemma_known(l, target, missing, table, known, n - 1, case);
        let st = known_steps(l, target, missing, table, known, n - 1);
        let k = known[n - 1];
        law_lookup_put(
            st.assessments,
            k.case,
            AssessmentView::ExpectedFail(k.reason, k.tracking),
            case,
        );
        law_lookup_put(st.assessments, k.case, AssessmentView::UnexpectedPass, case);
    }
}

/// A declared failure hides nothing but a failure: what counts as expected
/// did fail, and was not merely left unreached.
pub proof fn law_only_failures_are_expected(
    l: LockView,
    m: ManifestView,
    target: Seq<char>,
    d: DocumentView,
    case: Seq<char>,
)
    ensures
        ({
            let a = lookup(target_known(l, m, target, d).assessments, case);
            let table = target_table(l, m, target, d);
            a is Some && a->0 is ExpectedFail ==> lookup(table, case) is Some && lookup(
                table,
                case,
            )->0.status is Fail
        }),
{
    match lookup(m.targets, target) {
        Some(decl) => {
            lemma_known(
                l,
                target,
                decl.missing_features,
                target_table(l, m, target, d),
                decl.expected_fail,
                decl.expected_fail.len() as int,
                case,
            );
        },
        None => {},
    }
}

// ---------------------------------------------------------------------
// Errors, exactly
// ---------------------------------------------------------------------

proof fn lemma_case_marks(cases: Seq<EntryView>, n: int, name: Seq<char>)
    requires
        0 <= n <= cases.len(),
        cases_apart(cases),
        forall|i: int| 0 <= i < cases.len() ==> is_mark_set((#[trigger] cases[i]).tags),
    ensures
        forall|i: int|
            0 <= i < n && (#[trigger] cases[i]).name.text() == name ==> lookup(
                case_mark_table(cases, n),
                name,
            ) == Some(cases[i].tags),
        (forall|i: int| 0 <= i < n ==> (#[trigger] cases[i]).name.text() != name) ==> lookup(
            case_mark_table(cases, n),
            name,
        ) is None,
    decreases n,
{
    if n > 0 {
        lemma_case_marks(cases, n - 1, name);
        let e = cases[n - 1];
        law_mark_set_fault(e.tags);
        law_lookup_put(case_mark_table(cases, n - 1), e.name.text(), e.tags, name);
        if e.name.text() == name {
            assert forall|i: int| 0 <= i < n && (#[trigger] cases[i]).name.text() == name implies i
                == n - 1 by {
                if i < n - 1 {
                    assert(cases[i].name.text() != cases[n - 1].name.text());
                }
            }
        }
    }
}

proof fn lemma_row_marks(rows: Seq<RowView>, n: int, prefix: Seq<char>)
    requires
        0 <= n <= rows.len(),
        rows_apart(rows),
        forall|i: int| 0 <= i < rows.len() ==> is_mark_set((#[trigger] rows[i]).tags),
    ensures
        forall|i: int|
            0 <= i < n && (#[trigger] rows[i]).prefix == prefix ==> lookup(
                row_mark_table(rows, n),
                prefix,
            ) == Some(rows[i].tags),
    decreases n,
{
    if n > 0 {
        lemma_row_marks(rows, n - 1, prefix);
        let r = rows[n - 1];
        law_mark_set_fault(r.tags);
        law_lookup_put(row_mark_table(rows, n - 1), r.prefix, r.tags, prefix);
        if r.prefix == prefix {
            assert forall|i: int| 0 <= i < n && (#[trigger] rows[i]).prefix == prefix implies i
                == n - 1 by {
                if i < n - 1 {
                    assert(rows[i].prefix != rows[n - 1].prefix);
                }
            }
        }
    }
}

/// The marks that a case is judged by are those that the lockfile records: the
/// marks of the case that has its name, or else those of the closest row that
/// it hangs from. A name that is no case and hangs from no row has none.
pub proof fn law_judged_by_the_recorded_marks(l: LockView, name: Seq<char>)
    requires
        cases_apart(l.case),
        rows_apart(l.generated),
        forall|i: int| 0 <= i < l.case.len() ==> is_mark_set((#[trigger] l.case[i]).tags),
        forall|i: int|
            0 <= i < l.generated.len() ==> is_mark_set((#[trigger] l.generated[i]).tags),
    ensures
        forall|ms: Seq<MarkView>| #[trigger]
            records(l.case, l.generated, name, ms) <==> marks_for(l, name) == Some(ms),
        marks_for(l, name) is None <==> !names_case(l.case, name) && forall|r: int|
            0 <= r < l.generated.len() ==> !hangs_from(name, (#[trigger] l.generated[r]).prefix),
{
    lemma_case_marks(l.case, l.case.len() as int, name);
    law_name_belongs_to_closest_row(l.generated, name);
    law_longest_prefix(l.generated, name, l.generated.len() as int);
    let row = row_of(l.generated, name);
    if row >= 0 {
        lemma_row_marks(l.generated, l.generated.len() as int, l.generated[row].prefix);
        assert(closest_row(l.generated, name, row));
    }
    if names_case(l.case, name) {
        let i = choose|i: int| 0 <= i < l.case.len() && (#[trigger] l.case[i]).name.text() == name;
        assert(marks_for(l, name) == Some(l.case[i].tags));
    }
}

/// Do marks keep a case from a target that lacks these features?
pub open spec fn kept_out(ms: Seq<MarkView>, missing: Seq<Seq<char>>) -> bool {
    exists|k: int| 0 <= k < ms.len() && keeps_out(#[trigger] ms[k], missing)
}

/// Does a result agree with the marks recorded for its case? A case that they
/// keep out is not applicable, unless it was not reached or everything was
/// executed; one that they let in is not.
pub open spec fn result_agrees(
    l: LockView,
    missing: Seq<Seq<char>>,
    scheduled: bool,
    r: CaseView,
) -> bool {
    forall|ms: Seq<MarkView>| #[trigger]
        records(l.case, l.generated, r.case, ms) ==> if kept_out(ms, missing) {
            !scheduled || r.status is NotApplicable || r.status is NotReached
        } else {
            !(r.status is NotApplicable)
        }
}

/// Is a declared failure due: is the case recorded, do its marks let it in,
/// and did it not pass?
pub open spec fn failure_is_due(
    l: LockView,
    missing: Seq<Seq<char>>,
    results: Seq<CaseView>,
    case: Seq<char>,
) -> bool {
    &&& exists|ms: Seq<MarkView>| #[trigger]
        records(l.case, l.generated, case, ms) && !kept_out(ms, missing)
    &&& forall|i: int|
        0 <= i < results.len() && (#[trigger] results[i]).case == case ==> !(
        results[i].status is Pass)
}

/// Does a result set agree with lockfile and manifest: is its target declared,
/// did its stream end without run errors, are the right cases reported, and
/// does each result agree with the marks and each declared failure with the
/// results?
pub open spec fn results_agree(
    l: LockView,
    m: ManifestView,
    target: Seq<char>,
    d: DocumentView,
) -> bool {
    &&& lookup(m.targets, target) is Some
    &&& d.terminated
    &&& d.run_errors.len() == 0
    &&& forall|i: int, j: int|
        0 <= i < j < d.results.len() ==> (#[trigger] d.results[i]).case != (
        #[trigger] d.results[j]).case
    &&& forall|i: int|
        0 <= i < d.results.len() ==> may_be_reported(l, (#[trigger] d.results[i]).case)
    &&& forall|name: Seq<char>| #[trigger]
        must_be_reported(l, name) ==> exists|i: int|
            0 <= i < d.results.len() && (#[trigger] d.results[i]).case == name
    &&& forall|i: int|
        0 <= i < d.results.len() ==> result_agrees(
            l,
            lookup(m.targets, target)->0.missing_features,
            d.envelope.run.scheduling != Some("none"@),
            #[trigger] d.results[i],
        )
    &&& forall|k: int|
        0 <= k < lookup(m.targets, target)->0.expected_fail.len() ==> failure_is_due(
            l,
            lookup(m.targets, target)->0.missing_features,
            d.results,
            (#[trigger] lookup(m.targets, target)->0.expected_fail[k]).case,
        )
}

/// Does some mark of the lockfile name a feature?
pub open spec fn is_marked(l: LockView, feature: Seq<char>) -> bool {
    marks_somewhere(l, MarkView { feature, negative: false }) || marks_somewhere(
        l,
        MarkView { feature, negative: true },
    )
}

/// Do marks let a case in on some declared target?
pub open spec fn let_in_somewhere(m: ManifestView, ms: Seq<MarkView>) -> bool {
    exists|t: int|
        0 <= t < m.targets.len() && !kept_out(ms, (#[trigger] m.targets[t]).1.missing_features)
}

/// Do lockfile and manifest agree: each sound by itself, the features of marks
/// and of missing features declared, the gated ones marked, and no case or row
/// kept out everywhere?
pub open spec fn inputs_agree(l: LockView, m: ManifestView) -> bool {
    &&& lock_is_sound(l)
    &&& m.version == "0.1"@
    &&& m.targets.len() > 0
    &&& forall|t: int, k: int|
        0 <= t < m.targets.len() && 0 <= k < m.targets[t].1.missing_features.len()
            ==> keys(m.features).contains(#[trigger] m.targets[t].1.missing_features[k])
    &&& forall|f: Seq<char>| #[trigger] is_marked(l, f) ==> keys(m.features).contains(f)
    &&& forall|i: int|
        0 <= i < m.features.len() && (#[trigger] m.features[i]).1 is Gated ==> is_marked(
            l,
            m.features[i].0,
        )
    &&& forall|i: int| 0 <= i < l.case.len() ==> let_in_somewhere(m, (#[trigger] l.case[i]).tags)
    &&& forall|i: int|
        0 <= i < l.generated.len() ==> let_in_somewhere(m, (#[trigger] l.generated[i]).tags)
}

/// Is a case a leaf: does it hang from a row?
pub open spec fn is_leaf(l: LockView, case: Seq<char>) -> bool {
    exists|r: int| 0 <= r < l.generated.len() && hangs_from(case, (#[trigger] l.generated[r]).prefix)
}

/// Is a case among the results?
pub open spec fn reports(d: DocumentView, case: Seq<char>) -> bool {
    exists|i: int| 0 <= i < d.results.len() && (#[trigger] d.results[i]).case == case
}

/// Does everything agree: lockfile and manifest with each other, every result
/// set with both, one result set for each target but the optional ones, and
/// the result sets on the leaves of rows?
pub open spec fn everything_agrees(
    l: LockView,
    m: ManifestView,
    docs: Seq<(Seq<char>, DocumentView)>,
) -> bool {
    &&& inputs_agree(l, m)
    &&& forall|i: int, j: int|
        0 <= i < j < docs.len() ==> (#[trigger] docs[i]).0 != (#[trigger] docs[j]).0
    &&& forall|t: int|
        0 <= t < m.targets.len() && !(#[trigger] m.targets[t]).1.optional ==> exists|i: int|
            0 <= i < docs.len() && (#[trigger] docs[i]).0 == m.targets[t].0
    &&& forall|i: int| 0 <= i < docs.len() ==> results_agree(l, m, (#[trigger] docs[i]).0, docs[i].1)
    &&& forall|i: int, j: int, case: Seq<char>|
        0 <= i < docs.len() && 0 <= j < docs.len() && is_leaf(l, case) && #[trigger] reports(
            docs[i].1,
            case,
        ) ==> #[trigger] reports(docs[j].1, case)
}

proof fn lemma_kept_out(ms: Seq<MarkView>, missing: Seq<Seq<char>>)
    ensures
        applies_to(ms, missing) <==> !kept_out(ms, missing),
{
    law_first_mark_excludes(ms, missing);
}

proof fn lemma_named_features(l: LockView, f: Seq<char>)
    requires
        lock_fault(l) is None,
    ensures
        has_key(lock_features(l), f) <==> is_marked(l, f),
{
    let ms = all_marks(l.case, l.generated);
    law_features_named(ms);
    law_all_marks(l, MarkView { feature: f, negative: false });
    law_all_marks(l, MarkView { feature: f, negative: true });
    if has_key(lock_features(l), f) {
        let i = choose|i: int| 0 <= i < ms.len() && (#[trigger] ms[i]).feature == f;
        assert(ms.contains(ms[i]));
        assert(ms[i] == MarkView { feature: f, negative: ms[i].negative });
    }
    if is_marked(l, f) {
        if ms.contains(MarkView { feature: f, negative: false }) {
            let i = choose|i: int|
                0 <= i < ms.len() && ms[i] == (MarkView { feature: f, negative: false });
            assert(ms[i].feature == f);
        } else {
            let i = choose|i: int|
                0 <= i < ms.len() && ms[i] == (MarkView { feature: f, negative: true });
            assert(ms[i].feature == f);
        }
    }
}

proof fn lemma_applies_somewhere(m: ManifestView, ms: Seq<MarkView>)
    ensures
        applies_somewhere(m, ms) <==> let_in_somewhere(m, ms),
{
    assert forall|t: int| 0 <= t < m.targets.len() implies applies_to(
        ms,
        (#[trigger] m.targets[t]).1.missing_features,
    ) == !kept_out(ms, m.targets[t].1.missing_features) by {
        lemma_kept_out(ms, m.targets[t].1.missing_features);
    }
    if applies_somewhere(m, ms) {
        let t = choose|t: int|
            0 <= t < m.targets.len() && applies_to(ms, (#[trigger] m.targets[t]).1.missing_features);
        assert(!kept_out(ms, m.targets[t].1.missing_features));
    }
    if let_in_somewhere(m, ms) {
        let t = choose|t: int|
            0 <= t < m.targets.len() && !kept_out(ms, (#[trigger] m.targets[t]).1.missing_features);
        assert(applies_to(ms, m.targets[t].1.missing_features));
    }
}

/// The declarations have no error exactly where lockfile and manifest agree.
pub proof fn law_declaration_errors(l: LockView, m: ManifestView)
    ensures
        declaration_errors(l, m).len() == 0 <==> inputs_agree(l, m),
{
    let named = lock_features(l);
    law_lock_fault(l);
    law_manifest_fault(m);
    reveal_strlit("0.1");
    lemma_undeclared(named, m, named.len() as int);
    lemma_dead_cases(l.case, m, l.case.len() as int);
    lemma_dead_rows(l.generated, m, l.generated.len() as int);
    lemma_unreferenced(named, m, m.features.len() as int);
    assert forall|f: Seq<char>| #[trigger] keys(m.features).contains(f) == has_key(m.features, f) by {
        lemma_keys(m.features, f);
    }
    assert(is_closed(m) <==> forall|t: int, k: int|
        0 <= t < m.targets.len() && 0 <= k < m.targets[t].1.missing_features.len() ==> keys(
            m.features,
        ).contains(#[trigger] m.targets[t].1.missing_features[k])) by {
        if is_closed(m) {
            assert forall|t: int, k: int|
                0 <= t < m.targets.len() && 0 <= k < m.targets[t].1.missing_features.len() implies keys(
                m.features,
            ).contains(#[trigger] m.targets[t].1.missing_features[k]) by {
                lemma_keys(m.features, m.targets[t].1.missing_features[k]);
            }
        } else {
            let (t, k) = choose|t: int, k: int|
                0 <= t < m.targets.len() && 0 <= k < m.targets[t].1.missing_features.len()
                    && !has_key(m.features, #[trigger] m.targets[t].1.missing_features[k]);
            lemma_keys(m.features, m.targets[t].1.missing_features[k]);
        }
    }
    if lock_fault(l) is None {
        law_sound_lock_has_mark_sets(l);
        assert forall|f: Seq<char>| has_key(named, f) == #[trigger] is_marked(l, f) by {
            lemma_named_features(l, f);
        }
        assert((forall|i: int| 0 <= i < named.len() ==> has_key(m.features, (#[trigger] named[i]).0))
            <==> forall|f: Seq<char>| #[trigger] is_marked(l, f) ==> keys(m.features).contains(f)) by {
            if forall|i: int| 0 <= i < named.len() ==> has_key(m.features, (#[trigger] named[i]).0) {
                assert forall|f: Seq<char>| #[trigger] is_marked(l, f) implies keys(
                    m.features,
                ).contains(f) by {
                    lemma_lookup(named, f);
                    let i = choose|i: int| 0 <= i < named.len() && named[i] == (f, lookup(named, f)->0);
                    assert(has_key(m.features, named[i].0));
                }
            }
            if forall|f: Seq<char>| #[trigger] is_marked(l, f) ==> keys(m.features).contains(f) {
                assert forall|i: int| 0 <= i < named.len() implies has_key(
                    m.features,
                    (#[trigger] named[i]).0,
                ) by {
                    lemma_lookup(named, named[i].0);
                    assert(is_marked(l, named[i].0));
                    assert(keys(m.features).contains(named[i].0));
                }
            }
        }
        assert((forall|i: int|
            0 <= i < m.features.len() && (#[trigger] m.features[i]).1 is Gated ==> has_key(
                named,
                m.features[i].0,
            )) <==> forall|i: int|
            0 <= i < m.features.len() && (#[trigger] m.features[i]).1 is Gated ==> is_marked(
                l,
                m.features[i].0,
            )) by {
            assert forall|i: int| 0 <= i < m.features.len() implies has_key(
                named,
                (#[trigger] m.features[i]).0,
            ) == is_marked(l, m.features[i].0) by {
                lemma_named_features(l, m.features[i].0);
            }
        }
        assert forall|i: int| 0 <= i < l.case.len() implies mark_set_fault(
            (#[trigger] l.case[i]).tags,
        ) is None && applies_somewhere(m, l.case[i].tags) == let_in_somewhere(
            m,
            l.case[i].tags,
        ) by {
            lemma_applies_somewhere(m, l.case[i].tags);
        }
        assert forall|i: int| 0 <= i < l.generated.len() implies mark_set_fault(
            (#[trigger] l.generated[i]).tags,
        ) is None && applies_somewhere(m, l.generated[i].tags) == let_in_somewhere(
            m,
            l.generated[i].tags,
        ) by {
            lemma_applies_somewhere(m, l.generated[i].tags);
        }
    }
}

/// Is the table that of the results: under each name a result of that name,
/// and each name of a result in it?
spec fn tabulates(table: CaseTable, results: Seq<CaseView>, n: int) -> bool {
    &&& forall|i: int|
        0 <= i < table.len() ==> exists|k: int|
            0 <= k < n && (#[trigger] table[i]) == (results[k].case, #[trigger] results[k])
    &&& forall|c: Seq<char>| #[trigger]
        lookup(table, c) is Some <==> exists|k: int|
            0 <= k < n && (#[trigger] results[k]).case == c
}

proof fn lemma_put_has<T>(m: Seq<(Seq<char>, T)>, k: Seq<char>, v: T, i: int)
    requires
        0 <= i < put(m, k, v).len(),
    ensures
        put(m, k, v)[i] == (k, v) || exists|x: int| 0 <= x < m.len() && #[trigger] m[x] == put(m, k, v)[i],
    decreases m.len(),
{
    if m.len() == 0 {
    } else if m[0].0 == k {
        if i > 0 {
            assert(m[i] == put(m, k, v)[i]);
        }
    } else if text_lt(k, m[0].0) {
        if i > 0 {
            assert(m[i - 1] == put(m, k, v)[i]);
        }
    } else {
        if i == 0 {
            assert(m[0] == put(m, k, v)[0]);
        } else {
            let rest = m.drop_first();
            assert(put(m, k, v)[i] == put(rest, k, v)[i - 1]);
            lemma_put_has(rest, k, v, i - 1);
            if put(rest, k, v)[i - 1] != (k, v) {
                let x = choose|x: int| 0 <= x < rest.len() && #[trigger] rest[x] == put(rest, k, v)[i - 1];
                assert(m[x + 1] == rest[x]);
            }
        }
    }
}

proof fn lemma_tabulates(results: Seq<CaseView>, n: int)
    requires
        0 <= n <= results.len(),
    ensures
        tabulates(result_table(results, n), results, n),
    decreases n,
{
    if n > 0 {
        lemma_tabulates(results, n - 1);
        let init = result_table(results, n - 1);
        let r = results[n - 1];
        let table = result_table(results, n);
        assert forall|i: int| 0 <= i < table.len() implies exists|k: int|
            0 <= k < n && (#[trigger] table[i]) == (results[k].case, #[trigger] results[k]) by {
            lemma_put_has(init, r.case, r, i);
            if table[i] == (r.case, r) {
                assert(table[i] == (results[n - 1].case, results[n - 1]));
            } else {
                let x = choose|x: int| 0 <= x < init.len() && #[trigger] init[x] == table[i];
                let k = choose|k: int|
                    0 <= k < n - 1 && init[x] == (results[k].case, #[trigger] results[k]);
                assert(table[i] == (results[k].case, results[k]));
            }
        }
        assert forall|c: Seq<char>| #[trigger]
            lookup(table, c) is Some <==> exists|k: int|
                0 <= k < n && (#[trigger] results[k]).case == c by {
            law_lookup_put(init, r.case, r, c);
            assert(lookup(init, c) is Some <==> exists|k: int|
                0 <= k < n - 1 && (#[trigger] results[k]).case == c);
        }
    } else {
        assert forall|c: Seq<char>| lookup(result_table(results, 0), c) is None by {}
    }
}

proof fn lemma_lookup_result(results: Seq<CaseView>, n: int, k: int)
    requires
        0 <= k < n <= results.len(),
        forall|j: int| k < j < n ==> (#[trigger] results[j]).case != results[k].case,
    ensures
        lookup(result_table(results, n), results[k].case) == Some(results[k]),
    decreases n,
{
    let r = results[n - 1];
    law_lookup_put(result_table(results, n - 1), r.case, r, results[k].case);
    if k < n - 1 {
        lemma_lookup_result(results, n - 1, k);
    }
}

proof fn lemma_judge(l: LockView, target: Seq<char>, missing: Seq<Seq<char>>, scheduled: bool, r: CaseView)
    requires
        lock_is_sound(l),
    ensures
        judge(target, missing, scheduled, marks_for(l, r.case), r).error is None <==> result_agrees(
            l,
            missing,
            scheduled,
            r,
        ),
{
    assert forall|i: int| 0 <= i < l.generated.len() implies is_mark_set(
        (#[trigger] l.generated[i]).tags,
    ) by {
        assert(row_is_sound(l.generated[i]));
    }
    law_judged_by_the_recorded_marks(l, r.case);
    match marks_for(l, r.case) {
        Some(ms) => {
            lemma_kept_out(ms, missing);
            assert(records(l.case, l.generated, r.case, ms));
        },
        None => {},
    }
}

proof fn lemma_known_exactly(
    l: LockView,
    target: Seq<char>,
    missing: Seq<Seq<char>>,
    table: CaseTable,
    known: Seq<KnownView>,
    n: int,
)
    requires
        0 <= n <= known.len(),
    ensures
        known_steps(l, target, missing, table, known, n).errors.len() == 0 <==> forall|i: int|
            0 <= i < n ==> known_is_current(l, missing, table, #[trigger] known[i]),
    decreases n,
{
    if n > 0 {
        lemma_known_exactly(l, target, missing, table, known, n - 1);
    }
}

proof fn lemma_due(l: LockView, m: ManifestView, target: Seq<char>, d: DocumentView, case: Seq<char>)
    requires
        lock_is_sound(l),
        lookup(m.targets, target) is Some,
        forall|i: int, j: int|
            0 <= i < j < d.results.len() ==> (#[trigger] d.results[i]).case != (
            #[trigger] d.results[j]).case,
    ensures
        ({
            let missing = lookup(m.targets, target)->0.missing_features;
            let table = target_table(l, m, target, d);
            failure_is_due(l, missing, d.results, case) <==> {
                &&& marks_for(l, case) is Some
                &&& applies_to(marks_for(l, case)->0, missing)
                &&& lookup(table, case) is Some ==> lookup(table, case)->0.status !is Pass
            }
        }),
{
    let missing = lookup(m.targets, target)->0.missing_features;
    let n = d.results.len() as int;
    let raw = result_table(d.results, n);
    let table = target_table(l, m, target, d);
    assert forall|i: int| 0 <= i < l.generated.len() implies is_mark_set(
        (#[trigger] l.generated[i]).tags,
    ) by {
        assert(row_is_sound(l.generated[i]));
    }
    law_judged_by_the_recorded_marks(l, case);
    if marks_for(l, case) is Some {
        let ms = marks_for(l, case)->0;
        lemma_kept_out(ms, missing);
        assert(records(l.case, l.generated, case, ms));
        if applies_to(ms, missing) {
            lemma_judged_lookup(l, target, missing, d.envelope.scheduled(), raw, case);
            lemma_tabulates(d.results, n);
            assert forall|i: int| 0 <= i < n && (#[trigger] d.results[i]).case == case implies lookup(
                raw,
                case,
            ) == Some(d.results[i]) by {
                lemma_lookup_result(d.results, n, i);
            }
            if lookup(raw, case) is Some {
                lemma_lookup(raw, case);
                let x = choose|x: int| 0 <= x < raw.len() && raw[x] == (case, lookup(raw, case)->0);
                let k = choose|k: int|
                    0 <= k < n && raw[x] == (d.results[k].case, #[trigger] d.results[k]);
                assert(d.results[k].case == case);
                assert(lookup(table, case)->0.status is Pass <==> d.results[k].status is Pass);
            }
        }
    }
}

proof fn lemma_judged_lookup(
    l: LockView,
    target: Seq<char>,
    missing: Seq<Seq<char>>,
    scheduled: bool,
    table: CaseTable,
    case: Seq<char>,
)
    ensures
        ({
            let judged = judged_table(l, target, missing, scheduled, table);
            match lookup(table, case) {
                Some(r) => lookup(judged, case) == Some(
                    judge(target, missing, scheduled, marks_for(l, r.case), r).result,
                ),
                None => lookup(judged, case) is None,
            }
        }),
    decreases table.len(),
{
    let judged = judged_table(l, target, missing, scheduled, table);
    if table.len() > 0 {
        lemma_judged_lookup(l, target, missing, scheduled, table.drop_first(), case);
        assert(judged.drop_first() =~= judged_table(
            l,
            target,
            missing,
            scheduled,
            table.drop_first(),
        ));
        assert(judged[0] == (table[0].0, judge_at(l, target, missing, scheduled, table, 0).result));
    }
}

proof fn lemma_results_agree(l: LockView, m: ManifestView, target: Seq<char>, d: DocumentView)
    requires
        lock_is_sound(l),
    ensures
        (transport_errors(l, m, target, d).len() == 0 && mark_errors(l, m, target, d).len() == 0
            && target_known(l, m, target, d).errors.len() == 0) <==> results_agree(l, m, target, d),
{
    let names = result_names(d.results);
    let n = d.results.len() as int;
    let raw = result_table(d.results, n);
    lemma_run_errors(target, d.run_errors, d.run_errors.len() as int);
    law_coverage_fault(l, names);
    assert forall|i: int| 0 <= i < names.len() implies #[trigger] names[i] == d.results[i].case by {}
    assert(names.no_duplicates() <==> forall|i: int, j: int|
        0 <= i < j < n ==> (#[trigger] d.results[i]).case != (#[trigger] d.results[j]).case) by {
        if names.no_duplicates() {
            assert forall|i: int, j: int| 0 <= i < j < n implies (#[trigger] d.results[i]).case != (
            #[trigger] d.results[j]).case by {
                assert(names[i] != names[j]);
            }
        }
        if forall|i: int, j: int|
            0 <= i < j < n ==> (#[trigger] d.results[i]).case != (#[trigger] d.results[j]).case {
            assert forall|i: int, j: int|
                0 <= i < names.len() && 0 <= j < names.len() && i != j implies names[i]
                != names[j] by {
                if i < j {
                    assert(d.results[i].case != d.results[j].case);
                } else {
                    assert(d.results[j].case != d.results[i].case);
                }
            }
        }
    }
    assert((forall|i: int| 0 <= i < names.len() ==> may_be_reported(l, #[trigger] names[i]))
        <==> forall|i: int|
        0 <= i < n ==> may_be_reported(l, (#[trigger] d.results[i]).case)) by {
        if forall|i: int| 0 <= i < names.len() ==> may_be_reported(l, #[trigger] names[i]) {
            assert forall|i: int| 0 <= i < n implies may_be_reported(
                l,
                (#[trigger] d.results[i]).case,
            ) by {
                assert(may_be_reported(l, names[i]));
            }
        }
    }
    assert forall|name: Seq<char>| #[trigger] names.contains(name) <==> exists|i: int|
        0 <= i < n && (#[trigger] d.results[i]).case == name by {
        if names.contains(name) {
            let i = choose|i: int| 0 <= i < names.len() && names[i] == name;
            assert(d.results[i].case == name);
        }
        if exists|i: int| 0 <= i < n && (#[trigger] d.results[i]).case == name {
            let i = choose|i: int| 0 <= i < n && (#[trigger] d.results[i]).case == name;
            assert(names[i] == name);
        }
    }
    assert((forall|name: Seq<char>| #[trigger] must_be_reported(l, name) ==> names.contains(name))
        <==> forall|name: Seq<char>| #[trigger]
        must_be_reported(l, name) ==> exists|i: int|
            0 <= i < n && (#[trigger] d.results[i]).case == name) by {
        if forall|name: Seq<char>| #[trigger] must_be_reported(l, name) ==> exists|i: int|
            0 <= i < n && (#[trigger] d.results[i]).case == name {
            assert forall|name: Seq<char>| #[trigger] must_be_reported(l, name) implies names.contains(
                name,
            ) by {}
        }
    }
    if lookup(m.targets, target) is Some && names.no_duplicates() {
        let decl = lookup(m.targets, target)->0;
        let missing = decl.missing_features;
        let scheduled = d.envelope.scheduled();
        lemma_judged(l, target, missing, scheduled, raw, raw.len() as int);
        lemma_tabulates(d.results, n);
        assert((forall|i: int|
            0 <= i < raw.len() ==> #[trigger] judge_at(
                l,
                target,
                missing,
                scheduled,
                raw,
                i,
            ).error is None) <==> forall|i: int|
            0 <= i < n ==> result_agrees(l, missing, scheduled, #[trigger] d.results[i])) by {
            if forall|i: int|
                0 <= i < raw.len() ==> #[trigger] judge_at(
                    l,
                    target,
                    missing,
                    scheduled,
                    raw,
                    i,
                ).error is None {
                assert forall|i: int| 0 <= i < n implies result_agrees(
                    l,
                    missing,
                    scheduled,
                    #[trigger] d.results[i],
                ) by {
                    let r = d.results[i];
                    lemma_lookup_result(d.results, n, i);
                    lemma_lookup(raw, r.case);
                    let x = choose|x: int| 0 <= x < raw.len() && raw[x] == (r.case, r);
                    assert(judge_at(l, target, missing, scheduled, raw, x).error is None);
                    lemma_judge(l, target, missing, scheduled, r);
                }
            }
            if forall|i: int|
                0 <= i < n ==> result_agrees(l, missing, scheduled, #[trigger] d.results[i]) {
                assert forall|i: int| 0 <= i < raw.len() implies #[trigger] judge_at(
                    l,
                    target,
                    missing,
                    scheduled,
                    raw,
                    i,
                ).error is None by {
                    let k = choose|k: int|
                        0 <= k < n && raw[i] == (d.results[k].case, #[trigger] d.results[k]);
                    lemma_judge(l, target, missing, scheduled, d.results[k]);
                }
            }
        }
        let table = target_table(l, m, target, d);
        lemma_known_exactly(
            l,
            target,
            missing,
            table,
            decl.expected_fail,
            decl.expected_fail.len() as int,
        );
        assert forall|k: int| 0 <= k < decl.expected_fail.len() implies known_is_current(
            l,
            missing,
            table,
            #[trigger] decl.expected_fail[k],
        ) == failure_is_due(l, missing, d.results, decl.expected_fail[k].case) by {
            lemma_due(l, m, target, d, decl.expected_fail[k].case);
        }
    }
}

proof fn lemma_joins(l: LockView, m: ManifestView, docs: Seq<(Seq<char>, DocumentView)>, n: int)
    requires
        lock_is_sound(l),
        0 <= n <= docs.len(),
        forall|i: int, j: int|
            0 <= i < j < docs.len() ==> (#[trigger] docs[i]).0 != (#[trigger] docs[j]).0,
        declaration_errors(l, m).len() == 0,
        forall|i: int|
            0 <= i < docs.len() ==> results_agree(l, m, (#[trigger] docs[i]).0, docs[i].1),
    ensures
        join_steps(l, m, docs, n).errors.len() == 0,
        join_steps(l, m, docs, n).seen == Seq::new(n as nat, |i: int| docs[i].0),
    decreases n,
{
    if n > 0 {
        lemma_joins(l, m, docs, n - 1);
        let st = join_steps(l, m, docs, n - 1);
        let (target, d) = docs[n - 1];
        assert(results_agree(l, m, docs[n - 1].0, docs[n - 1].1));
        lemma_results_agree(l, m, target, d);
        if st.seen.contains(target) {
            let i = choose|i: int| 0 <= i < st.seen.len() && st.seen[i] == target;
            assert(docs[i].0 != docs[n - 1].0);
        }
        assert(st.seen.push(target) =~= Seq::new(n as nat, |i: int| docs[i].0));
    } else {
        assert(join_steps(l, m, docs, 0).seen =~= Seq::new(0, |i: int| docs[i].0));
    }
}

proof fn lemma_leaf_set(l: LockView, results: Seq<CaseView>, n: int, case: Seq<char>)
    requires
        rows_apart(l.generated),
        0 <= n <= results.len(),
    ensures
        has_key(leaf_set(l, results, n), case) <==> is_leaf(l, case) && exists|i: int|
            0 <= i < n && (#[trigger] results[i]).case == case,
    decreases n,
{
    if n > 0 {
        lemma_leaf_set(l, results, n - 1, case);
        let c = results[n - 1].case;
        law_name_belongs_to_closest_row(l.generated, c);
        law_lookup_put(leaf_set(l, results, n - 1), c, (), case);
        assert(row_of(l.generated, c) >= 0 <==> is_leaf(l, c));
    }
}

proof fn lemma_union_only(
    leaves: Seq<(Seq<char>, Seq<(Seq<char>, ())>)>,
    n: int,
    q: Seq<char>,
)
    requires
        0 <= n <= leaves.len(),
        has_key(leaf_union(leaves, n), q),
    ensures
        exists|j: int| 0 <= j < n && has_key((#[trigger] leaves[j]).1, q),
    decreases n,
{
    if n > 0 {
        let more = leaves[n - 1].1;
        lemma_with_keys_only(leaf_union(leaves, n - 1), more, more.len() as int, q);
        if has_key(leaf_union(leaves, n - 1), q) {
            lemma_union_only(leaves, n - 1, q);
        } else {
            lemma_lookup(more, q);
            assert(has_key(leaves[n - 1].1, q));
        }
    }
}

proof fn lemma_with_keys_only(
    set: Seq<(Seq<char>, ())>,
    more: Seq<(Seq<char>, ())>,
    n: int,
    q: Seq<char>,
)
    requires
        0 <= n <= more.len(),
        has_key(with_keys(set, more, n), q),
    ensures
        has_key(set, q) || exists|i: int| 0 <= i < n && (#[trigger] more[i]).0 == q,
    decreases n,
{
    if n > 0 {
        law_lookup_put(with_keys(set, more, n - 1), more[n - 1].0, (), q);
        if more[n - 1].0 != q {
            lemma_with_keys_only(set, more, n - 1, q);
        }
    }
}

proof fn lemma_lacks_nothing(all: Seq<(Seq<char>, ())>, mine: Seq<(Seq<char>, ())>, n: int)
    requires
        0 <= n <= all.len(),
        forall|i: int| 0 <= i < n ==> has_key(mine, (#[trigger] all[i]).0),
    ensures
        lacking(all, mine, n).len() == 0,
    decreases n,
{
    if n > 0 {
        lemma_lacks_nothing(all, mine, n - 1);
        assert(has_key(mine, all[n - 1].0));
    }
}

proof fn lemma_no_leaf_errors(
    leaves: Seq<(Seq<char>, Seq<(Seq<char>, ())>)>,
    all: Seq<(Seq<char>, ())>,
    n: int,
)
    requires
        0 <= n <= leaves.len(),
        forall|i: int|
            0 <= i < leaves.len() ==> lacking(all, (#[trigger] leaves[i]).1, all.len() as int).len()
                == 0,
    ensures
        leaf_errors(leaves, all, n).len() == 0,
    decreases n,
{
    if n > 0 {
        lemma_no_leaf_errors(leaves, all, n - 1);
        assert(lacking(all, leaves[n - 1].1, all.len() as int).len() == 0);
    }
}

/// A join has no error exactly where everything agrees: every disagreement is
/// an error, and nothing else is.
pub proof fn law_errors_exactly_where_something_disagrees(
    l: LockView,
    m: ManifestView,
    docs: Seq<(Seq<char>, DocumentView)>,
)
    ensures
        aggregated(l, m, docs).errors.len() == 0 <==> everything_agrees(l, m, docs),
{
    let n = docs.len() as int;
    let st = join_steps(l, m, docs, n);
    let leaves = st.leaves;
    let all = leaf_union(leaves, leaves.len() as int);
    law_declaration_errors(l, m);
    if aggregated(l, m, docs).errors.len() == 0 {
        law_no_errors_means_in_order(l, m, docs);
        lemma_join(l, m, docs, n);
        assert forall|i: int| 0 <= i < n implies results_agree(
            l,
            m,
            (#[trigger] docs[i]).0,
            docs[i].1,
        ) by {
            lemma_clean_steps(l, m, docs, n, i);
            lemma_results_agree(l, m, docs[i].0, docs[i].1);
        }
        assert forall|i: int, j: int, case: Seq<char>|
            0 <= i < docs.len() && 0 <= j < docs.len() && is_leaf(l, case) && #[trigger] reports(
                docs[i].1,
                case,
            ) implies #[trigger] reports(docs[j].1, case) by {
            law_no_errors_means_leaves_agree(l, m, docs, i, j, case);
            lemma_leaf_set(l, docs[i].1.results, docs[i].1.results.len() as int, case);
            lemma_leaf_set(l, docs[j].1.results, docs[j].1.results.len() as int, case);
        }
    }
    if everything_agrees(l, m, docs) {
        lemma_joins(l, m, docs, n);
        lemma_leaves(l, m, docs, n);
        lemma_silent(m, st.seen, m.targets.len() as int);
        assert forall|t: int| 0 <= t < m.targets.len() && !(#[trigger] m.targets[t]).1.optional implies
            st.seen.contains(m.targets[t].0) by {
            let i = choose|i: int| 0 <= i < docs.len() && (#[trigger] docs[i]).0 == m.targets[t].0;
            assert(st.seen[i] == docs[i].0);
        }
        assert forall|i: int| 0 <= i < leaves.len() implies lacking(
            all,
            (#[trigger] leaves[i]).1,
            all.len() as int,
        ).len() == 0 by {
            assert forall|x: int| 0 <= x < all.len() implies has_key(
                leaves[i].1,
                (#[trigger] all[x]).0,
            ) by {
                let case = all[x].0;
                lemma_lookup(all, case);
                lemma_union_only(leaves, leaves.len() as int, case);
                let j = choose|j: int| 0 <= j < leaves.len() && has_key((#[trigger] leaves[j]).1, case);
                lemma_leaf_set(l, docs[i].1.results, docs[i].1.results.len() as int, case);
                lemma_leaf_set(l, docs[j].1.results, docs[j].1.results.len() as int, case);
                assert(reports(docs[j].1, case));
                assert(reports(docs[i].1, case));
            }
            lemma_lacks_nothing(all, leaves[i].1, all.len() as int);
        }
        lemma_no_leaf_errors(leaves, all, leaves.len() as int);
    }
}

proof fn lemma_clean_steps(
    l: LockView,
    m: ManifestView,
    docs: Seq<(Seq<char>, DocumentView)>,
    n: int,
    i: int,
)
    requires
        0 <= i < n <= docs.len(),
        join_steps(l, m, docs, n).errors.len() == 0,
    ensures
        transport_errors(l, m, docs[i].0, docs[i].1).len() == 0,
        mark_errors(l, m, docs[i].0, docs[i].1).len() == 0,
        target_known(l, m, docs[i].0, docs[i].1).errors.len() == 0,
    decreases n,
{
    let st = join_steps(l, m, docs, n - 1);
    lemma_step(l, m, st, docs[n - 1].0, docs[n - 1].1);
    if i < n - 1 {
        lemma_clean_steps(l, m, docs, n - 1, i);
    }
}

// ---------------------------------------------------------------------
// Results and assessments
// ---------------------------------------------------------------------

/// Is the `i`-th result set the first of its target?
pub open spec fn is_first(docs: Seq<(Seq<char>, DocumentView)>, i: int) -> bool {
    0 <= i < docs.len() && forall|j: int| 0 <= j < i ==> (#[trigger] docs[j]).0 != docs[i].0
}

proof fn lemma_first_joined(
    l: LockView,
    m: ManifestView,
    docs: Seq<(Seq<char>, DocumentView)>,
    n: int,
    t: Seq<char>,
)
    requires
        0 <= n <= docs.len(),
    ensures
        ({
            let st = join_steps(l, m, docs, n);
            &&& st.seen.contains(t) <==> exists|j: int| 0 <= j < n && (#[trigger] docs[j]).0 == t
            &&& (forall|j: int| 0 <= j < n ==> (#[trigger] docs[j]).0 != t) ==> lookup(
                st.results,
                t,
            ) is None && lookup(st.assessments, t) is None
            &&& forall|i: int|
                0 <= i < n && (#[trigger] docs[i]).0 == t && is_first(docs, i) ==> lookup(
                    st.results,
                    t,
                ) == Some(target_table(l, m, t, docs[i].1)) && lookup(st.assessments, t) == (if target_known(
                    l,
                    m,
                    t,
                    docs[i].1,
                ).assessments.len() > 0 {
                    Some(target_known(l, m, t, docs[i].1).assessments)
                } else {
                    None
                })
        }),
    decreases n,
{
    if n > 0 {
        lemma_first_joined(l, m, docs, n - 1, t);
        let st = join_steps(l, m, docs, n - 1);
        let (target, d) = docs[n - 1];
        lemma_first_joined(l, m, docs, n - 1, target);
        if !st.seen.contains(target) {
            let known = target_known(l, m, target, d);
            law_lookup_put(st.results, target, target_table(l, m, target, d), t);
            law_lookup_put(st.assessments, target, known.assessments, t);
            lemma_contains_sum(st.seen, seq![target], t);
            assert(st.seen.push(target) =~= st.seen + seq![target]);
            assert(seq![target][0] == target);
            assert(seq![target].contains(t) <==> target == t);
        }
        assert(st.seen.contains(t) <==> exists|j: int| 0 <= j < n - 1 && (#[trigger] docs[j]).0 == t);
        assert forall|i: int|
            0 <= i < n && (#[trigger] docs[i]).0 == t && is_first(docs, i) implies lookup(
            join_steps(l, m, docs, n).results,
            t,
        ) == Some(target_table(l, m, t, docs[i].1)) && lookup(
            join_steps(l, m, docs, n).assessments,
            t,
        ) == (if target_known(l, m, t, docs[i].1).assessments.len() > 0 {
            Some(target_known(l, m, t, docs[i].1).assessments)
        } else {
            None
        }) by {
            if i == n - 1 {
                if st.seen.contains(target) {
                    let j = choose|j: int| 0 <= j < n - 1 && (#[trigger] docs[j]).0 == target;
                    assert(docs[j].0 != docs[i].0);
                }
            } else {
                assert(docs[i].0 == t);
                if target == t {
                    assert(st.seen.contains(target));
                }
            }
        }
    } else {
        assert(!Seq::<Seq<char>>::empty().contains(t));
    }
}

/// A join has the targets of the manifest, and results for those that result
/// sets are for; of two result sets for one target the first counts. It has a
/// result for the cases that the result set reports, and for no other.
pub proof fn law_joined_targets_and_cases(
    l: LockView,
    m: ManifestView,
    docs: Seq<(Seq<char>, DocumentView)>,
)
    ensures
        aggregated(l, m, docs).targets == m.targets.map_values(
            |x: (Seq<char>, crate::manifest::TargetView)| x.0,
        ),
        forall|t: Seq<char>| #[trigger]
            lookup(aggregated(l, m, docs).results, t) is Some <==> exists|i: int|
                0 <= i < docs.len() && (#[trigger] docs[i]).0 == t,
        forall|i: int, c: Seq<char>|
            is_first(docs, i) ==> (#[trigger] lookup(
                lookup(aggregated(l, m, docs).results, docs[i].0)->0,
                c,
            ) is Some <==> reports(docs[i].1, c)),
{
    let a = aggregated(l, m, docs);
    assert(a.targets =~= m.targets.map_values(|x: (Seq<char>, crate::manifest::TargetView)| x.0));
    assert forall|t: Seq<char>| #[trigger] lookup(a.results, t) is Some <==> exists|i: int|
        0 <= i < docs.len() && (#[trigger] docs[i]).0 == t by {
        lemma_first_joined(l, m, docs, docs.len() as int, t);
        if exists|i: int| 0 <= i < docs.len() && (#[trigger] docs[i]).0 == t {
            let i = choose|i: int| 0 <= i < docs.len() && (#[trigger] docs[i]).0 == t;
            lemma_some_first(docs, i);
            let f = choose|f: int| 0 <= f <= i && (#[trigger] docs[f]).0 == t && is_first(docs, f);
            assert(docs[f].0 == t && is_first(docs, f));
        }
    }
    assert forall|i: int, c: Seq<char>| is_first(docs, i) implies (#[trigger] lookup(
        lookup(a.results, docs[i].0)->0,
        c,
    ) is Some <==> reports(docs[i].1, c)) by {
        let (t, d) = docs[i];
        lemma_first_joined(l, m, docs, docs.len() as int, t);
        assert(docs[i].0 == t);
        let n = d.results.len() as int;
        lemma_tabulates(d.results, n);
        match missing_of(m, t) {
            Some(missing) => lemma_judged_lookup(
                l,
                t,
                missing,
                d.envelope.scheduled(),
                result_table(d.results, n),
                c,
            ),
            None => {},
        }
    }
}

proof fn lemma_some_first(docs: Seq<(Seq<char>, DocumentView)>, i: int)
    requires
        0 <= i < docs.len(),
    ensures
        exists|f: int| 0 <= f <= i && (#[trigger] docs[f]).0 == docs[i].0 && is_first(docs, f),
    decreases i,
{
    if is_first(docs, i) {
        assert(docs[i].0 == docs[i].0);
    } else {
        let j = choose|j: int| 0 <= j < i && (#[trigger] docs[j]).0 == docs[i].0;
        lemma_some_first(docs, j);
        let f = choose|f: int| 0 <= f <= j && (#[trigger] docs[f]).0 == docs[j].0 && is_first(docs, f);
        assert(docs[f].0 == docs[i].0);
    }
}

/// The joined result of a case is the reported one, the last where there are
/// several. Only where everything was executed and the recorded marks keep the
/// case from its target, it is not applicable instead, by the first mark that
/// keeps it out, unless it was not reached.
pub proof fn law_joined_results_are_the_reported_ones(
    l: LockView,
    m: ManifestView,
    docs: Seq<(Seq<char>, DocumentView)>,
    i: int,
    k: int,
)
    requires
        lock_is_sound(l),
        is_first(docs, i),
        0 <= k < docs[i].1.results.len(),
        forall|j: int|
            k < j < docs[i].1.results.len() ==> (#[trigger] docs[i].1.results[j]).case
                != docs[i].1.results[k].case,
    ensures
        ({
            let (t, d) = docs[i];
            let r = d.results[k];
            let joined = lookup(lookup(aggregated(l, m, docs).results, t)->0, r.case);
            &&& lookup(m.targets, t) is None ==> joined == Some(r)
            &&& d.envelope.run.scheduling != Some("none"@) ==> joined == Some(r)
            &&& r.status is NotApplicable || r.status is NotReached ==> joined == Some(r)
            &&& (forall|ms: Seq<MarkView>| !#[trigger] records(l.case, l.generated, r.case, ms))
                ==> joined == Some(r)
            &&& lookup(m.targets, t) is Some ==> forall|ms: Seq<MarkView>| #[trigger]
                records(l.case, l.generated, r.case, ms) ==> {
                    let missing = lookup(m.targets, t)->0.missing_features;
                    if kept_out(ms, missing) && d.envelope.run.scheduling == Some("none"@) && !(
                    r.status is NotApplicable) && !(r.status is NotReached) {
                        exists|x: int|
                            0 <= x < ms.len() && keeps_out(#[trigger] ms[x], missing) && (forall|
                                y: int,
                            |
                                0 <= y < x ==> !keeps_out(#[trigger] ms[y], missing)) && joined
                                == Some(
                                bare_case(
                                    r.case,
                                    Status::NotApplicable,
                                    Some(
                                        if ms[x].negative {
                                            seq!['!'] + ms[x].feature
                                        } else {
                                            ms[x].feature
                                        },
                                    ),
                                ),
                            )
                    } else {
                        joined == Some(r)
                    }
                }
        }),
{
    let (t, d) = docs[i];
    let r = d.results[k];
    let n = d.results.len() as int;
    lemma_first_joined(l, m, docs, docs.len() as int, t);
    assert(docs[i].0 == t);
    lemma_lookup_result(d.results, n, k);
    assert forall|x: int| 0 <= x < l.generated.len() implies is_mark_set(
        (#[trigger] l.generated[x]).tags,
    ) by {
        assert(row_is_sound(l.generated[x]));
    }
    law_judged_by_the_recorded_marks(l, r.case);
    match missing_of(m, t) {
        Some(missing) => {
            lemma_judged_lookup(
                l,
                t,
                missing,
                d.envelope.scheduled(),
                result_table(d.results, n),
                r.case,
            );
            match marks_for(l, r.case) {
                Some(ms) => {
                    lemma_kept_out(ms, missing);
                    law_first_mark_excludes(ms, missing);
                    assert(records(l.case, l.generated, r.case, ms));
                },
                None => {},
            }
        },
        None => {},
    }
}

proof fn lemma_assessed(
    l: LockView,
    target: Seq<char>,
    missing: Seq<Seq<char>>,
    table: CaseTable,
    known: Seq<KnownView>,
    n: int,
    case: Seq<char>,
)
    requires
        0 <= n <= known.len(),
    ensures
        ({
            let found = lookup(
                known_steps(l, target, missing, table, known, n).assessments,
                case,
            );
            let due = marks_for(l, case) is Some && applies_to(marks_for(l, case)->0, missing)
                && lookup(table, case) is Some;
            &&& (forall|k: int| 0 <= k < n ==> (#[trigger] known[k]).case != case) ==> found is None
            &&& forall|k: int|
                0 <= k < n && (#[trigger] known[k]).case == case && (forall|j: int|
                    k < j < n ==> (#[trigger] known[j]).case != case) ==> found == (if due && lookup(
                    table,
                    case,
                )->0.status is Fail {
                    Some(AssessmentView::ExpectedFail(known[k].reason, known[k].tracking))
                } else if due && lookup(table, case)->0.status is Pass {
                    Some(AssessmentView::UnexpectedPass)
                } else {
                    None
                })
            &&& found is Some ==> due && (lookup(table, case)->0.status is Fail || lookup(
                table,
                case,
            )->0.status is Pass)
        }),
    decreases n,
{
    if n > 0 {
        lemma_assessed(l, target, missing, table, known, n - 1, case);
        let st = known_steps(l, target, missing, table, known, n - 1);
        let k = known[n - 1];
        law_lookup_put(
            st.assessments,
            k.case,
            AssessmentView::ExpectedFail(k.reason, k.tracking),
            case,
        );
        law_lookup_put(st.assessments, k.case, AssessmentView::UnexpectedPass, case);
    }
}

/// A case is assessed exactly where its target declares it a known failure,
/// its recorded marks let it in there, and it ran: as failing as declared, with
/// the reason and the place of the declaration, where it failed, and as
/// passing unexpectedly where it passed. Of two declarations the last counts.
pub proof fn law_assessments_are_of_declared_failures(
    l: LockView,
    m: ManifestView,
    docs: Seq<(Seq<char>, DocumentView)>,
    i: int,
    case: Seq<char>,
)
    requires
        lock_is_sound(l),
        is_first(docs, i),
        forall|x: int, y: int|
            0 <= x < y < docs[i].1.results.len() ==> (#[trigger] docs[i].1.results[x]).case != (
            #[trigger] docs[i].1.results[y]).case,
    ensures
        ({
            let (t, d) = docs[i];
            let decl = lookup(m.targets, t)->0;
            let assessed = lookup(aggregated(l, m, docs).assessments, t);
            let found = if assessed is Some {
                lookup(assessed->0, case)
            } else {
                None
            };
            &&& (lookup(m.targets, t) is None || forall|k: int|
                0 <= k < decl.expected_fail.len() ==> (#[trigger] decl.expected_fail[k]).case != case)
                ==> found is None
            &&& lookup(m.targets, t) is Some ==> forall|k: int|
                0 <= k < decl.expected_fail.len() && (#[trigger] decl.expected_fail[k]).case == case
                    && (forall|j: int|
                    k < j < decl.expected_fail.len() ==> (#[trigger] decl.expected_fail[j]).case
                        != case) ==> {
                    let let_in = exists|ms: Seq<MarkView>| #[trigger]
                        records(l.case, l.generated, case, ms) && !kept_out(
                            ms,
                            decl.missing_features,
                        );
                    &&& (exists|x: int|
                        0 <= x < d.results.len() && (#[trigger] d.results[x]).case == case
                            && d.results[x].status is Fail) && let_in <==> found == Some(
                        AssessmentView::ExpectedFail(
                            decl.expected_fail[k].reason,
                            decl.expected_fail[k].tracking,
                        ),
                    )
                    &&& (exists|x: int|
                        0 <= x < d.results.len() && (#[trigger] d.results[x]).case == case
                            && d.results[x].status is Pass) && let_in <==> found == Some(
                        AssessmentView::UnexpectedPass,
                    )
                    &&& found is None || found == Some(AssessmentView::UnexpectedPass) || found
                        == Some(
                        AssessmentView::ExpectedFail(
                            decl.expected_fail[k].reason,
                            decl.expected_fail[k].tracking,
                        ),
                    )
                }
        }),
{
    let (t, d) = docs[i];
    let n = d.results.len() as int;
    lemma_first_joined(l, m, docs, docs.len() as int, t);
    assert(docs[i].0 == t);
    let known = target_known(l, m, t, d);
    if known.assessments.len() == 0 {
        assert(lookup(known.assessments, case) is None);
    }
    if lookup(m.targets, t) is Some {
        let decl = lookup(m.targets, t)->0;
        let missing = decl.missing_features;
        let raw = result_table(d.results, n);
        let table = target_table(l, m, t, d);
        lemma_assessed(
            l,
            t,
            missing,
            table,
            decl.expected_fail,
            decl.expected_fail.len() as int,
            case,
        );
        assert forall|x: int| 0 <= x < l.generated.len() implies is_mark_set(
            (#[trigger] l.generated[x]).tags,
        ) by {
            assert(row_is_sound(l.generated[x]));
        }
        law_judged_by_the_recorded_marks(l, case);
        lemma_tabulates(d.results, n);
        lemma_judged_lookup(l, t, missing, d.envelope.scheduled(), raw, case);
        assert forall|x: int| 0 <= x < n && (#[trigger] d.results[x]).case == case implies lookup(
            raw,
            case,
        ) == Some(d.results[x]) by {
            lemma_lookup_result(d.results, n, x);
        }
        if marks_for(l, case) is Some {
            let ms = marks_for(l, case)->0;
            assert(records(l.case, l.generated, case, ms));
            lemma_kept_out(ms, missing);
            if lookup(raw, case) is Some {
                let x = choose|x: int| 0 <= x < n && (#[trigger] d.results[x]).case == case;
                assert(lookup(raw, case) == Some(d.results[x]));
                if applies_to(ms, missing) {
                    assert(lookup(table, case)->0.status == d.results[x].status);
                }
            }
        }
    }
}

// ---------------------------------------------------------------------
// Warnings, exactly
// ---------------------------------------------------------------------

/// Is a result one that a stream should not have: executed although the
/// recorded marks keep the case out?
pub open spec fn ran_all_the_same(l: LockView, missing: Seq<Seq<char>>, r: CaseView) -> bool {
    !(r.status is NotApplicable) && !(r.status is NotReached) && exists|ms: Seq<MarkView>| #[trigger]
        records(l.case, l.generated, r.case, ms) && kept_out(ms, missing)
}

/// Is a declared failure exercised: where the case is recorded and let in, is
/// it among the results, and not skipped?
pub open spec fn is_exercised(
    l: LockView,
    missing: Seq<Seq<char>>,
    d: DocumentView,
    case: Seq<char>,
) -> bool {
    (exists|ms: Seq<MarkView>| #[trigger]
        records(l.case, l.generated, case, ms) && !kept_out(ms, missing)) ==> exists|i: int|
        0 <= i < d.results.len() && (#[trigger] d.results[i]).case == case && !(
        d.results[i].status is Skipped)
}

/// Is nothing about a result set odd: does its envelope name target and suite,
/// are all statuses understood, did nothing run that the marks keep out, and
/// is every declared failure exercised?
pub open spec fn nothing_odd(
    l: LockView,
    m: ManifestView,
    target: Seq<char>,
    d: DocumentView,
) -> bool {
    &&& d.envelope.target == target
    &&& d.envelope.suite.name == l.suite_name
    &&& d.unknown_statuses.len() == 0
    &&& lookup(m.targets, target) is Some ==> {
        let decl = lookup(m.targets, target)->0;
        &&& d.envelope.run.scheduling == Some("none"@) ==> forall|i: int|
            0 <= i < d.results.len() ==> !ran_all_the_same(
                l,
                decl.missing_features,
                #[trigger] d.results[i],
            )
        &&& forall|k: int|
            0 <= k < decl.expected_fail.len() ==> is_exercised(
                l,
                decl.missing_features,
                d,
                (#[trigger] decl.expected_fail[k]).case,
            )
    }
}

proof fn lemma_unknown_len(target: Seq<char>, unknown: Seq<(Seq<char>, Seq<char>)>, n: int)
    requires
        n >= 0,
    ensures
        unknown_texts(target, unknown, n).len() == n,
    decreases n,
{
    if n > 0 {
        lemma_unknown_len(target, unknown, n - 1);
    }
}

proof fn lemma_reclassified(
    l: LockView,
    target: Seq<char>,
    missing: Seq<Seq<char>>,
    scheduled: bool,
    table: CaseTable,
    n: int,
)
    requires
        0 <= n <= table.len(),
    ensures
        reclassified_count(l, target, missing, scheduled, table, n) == 0 <==> forall|i: int|
            0 <= i < n ==> !(#[trigger] judge_at(
                l,
                target,
                missing,
                scheduled,
                table,
                i,
            )).reclassified,
    decreases n,
{
    if n > 0 {
        lemma_reclassified(l, target, missing, scheduled, table, n - 1);
    }
}

/// Is a declared failure one to warn of?
spec fn warns(l: LockView, missing: Seq<Seq<char>>, table: CaseTable, k: KnownView) -> bool {
    marks_for(l, k.case) is Some && applies_to(marks_for(l, k.case)->0, missing) && (lookup(
        table,
        k.case,
    ) is None || lookup(table, k.case)->0.status is Skipped)
}

proof fn lemma_known_warnings(
    l: LockView,
    target: Seq<char>,
    missing: Seq<Seq<char>>,
    table: CaseTable,
    known: Seq<KnownView>,
    n: int,
)
    requires
        0 <= n <= known.len(),
    ensures
        known_steps(l, target, missing, table, known, n).warnings.len() == 0 <==> forall|i: int|
            0 <= i < n ==> !warns(l, missing, table, #[trigger] known[i]),
    decreases n,
{
    if n > 0 {
        lemma_known_warnings(l, target, missing, table, known, n - 1);
    }
}

proof fn lemma_nothing_odd(l: LockView, m: ManifestView, target: Seq<char>, d: DocumentView)
    requires
        lock_is_sound(l),
        forall|x: int, y: int|
            0 <= x < y < d.results.len() ==> (#[trigger] d.results[x]).case != (
            #[trigger] d.results[y]).case,
    ensures
        (envelope_warnings(l, target, d).len() == 0 && unknown_texts(
            target,
            d.unknown_statuses,
            d.unknown_statuses.len() as int,
        ).len() == 0 && mark_note(l, m, target, d) is None && target_known(
            l,
            m,
            target,
            d,
        ).warnings.len() == 0) <==> nothing_odd(l, m, target, d),
{
    lemma_unknown_len(target, d.unknown_statuses, d.unknown_statuses.len() as int);
    let n = d.results.len() as int;
    let raw = result_table(d.results, n);
    assert forall|x: int| 0 <= x < l.generated.len() implies is_mark_set(
        (#[trigger] l.generated[x]).tags,
    ) by {
        assert(row_is_sound(l.generated[x]));
    }
    if lookup(m.targets, target) is Some {
        let decl = lookup(m.targets, target)->0;
        let missing = decl.missing_features;
        let scheduled = d.envelope.scheduled();
        let table = target_table(l, m, target, d);
        lemma_reclassified(l, target, missing, scheduled, raw, raw.len() as int);
        lemma_tabulates(d.results, n);
        assert forall|i: int| 0 <= i < raw.len() implies (#[trigger] judge_at(
            l,
            target,
            missing,
            scheduled,
            raw,
            i,
        )).reclassified == (!scheduled && ran_all_the_same(l, missing, raw[i].1)) by {
            lemma_ran(l, target, missing, scheduled, raw[i].1);
        }
        assert((forall|i: int|
            0 <= i < raw.len() ==> !(#[trigger] judge_at(
                l,
                target,
                missing,
                scheduled,
                raw,
                i,
            )).reclassified) <==> (!scheduled ==> forall|i: int|
            0 <= i < n ==> !ran_all_the_same(l, missing, #[trigger] d.results[i]))) by {
            if !scheduled && forall|i: int|
                0 <= i < raw.len() ==> !(#[trigger] judge_at(
                    l,
                    target,
                    missing,
                    scheduled,
                    raw,
                    i,
                )).reclassified {
                assert forall|i: int| 0 <= i < n implies !ran_all_the_same(
                    l,
                    missing,
                    #[trigger] d.results[i],
                ) by {
                    let r = d.results[i];
                    lemma_lookup_result(d.results, n, i);
                    lemma_lookup(raw, r.case);
                    let x = choose|x: int| 0 <= x < raw.len() && raw[x] == (r.case, r);
                    assert(!judge_at(l, target, missing, scheduled, raw, x).reclassified);
                }
            }
            if !scheduled && forall|i: int|
                0 <= i < n ==> !ran_all_the_same(l, missing, #[trigger] d.results[i]) {
                assert forall|i: int| 0 <= i < raw.len() implies !(#[trigger] judge_at(
                    l,
                    target,
                    missing,
                    scheduled,
                    raw,
                    i,
                )).reclassified by {
                    let k = choose|k: int|
                        0 <= k < n && raw[i] == (d.results[k].case, #[trigger] d.results[k]);
                    assert(!ran_all_the_same(l, missing, d.results[k]));
                }
            }
        }
        lemma_known_warnings(
            l,
            target,
            missing,
            table,
            decl.expected_fail,
            decl.expected_fail.len() as int,
        );
        assert forall|k: int| 0 <= k < decl.expected_fail.len() implies is_exercised(
            l,
            missing,
            d,
            (#[trigger] decl.expected_fail[k]).case,
        ) == !warns(l, missing, table, decl.expected_fail[k]) by {
            lemma_exercised(l, m, target, d, decl.expected_fail[k]);
        }
    }
}

proof fn lemma_ran(
    l: LockView,
    target: Seq<char>,
    missing: Seq<Seq<char>>,
    scheduled: bool,
    r: CaseView,
)
    requires
        lock_is_sound(l),
    ensures
        judge(target, missing, scheduled, marks_for(l, r.case), r).reclassified == (!scheduled
            && ran_all_the_same(l, missing, r)),
{
    assert forall|x: int| 0 <= x < l.generated.len() implies is_mark_set(
        (#[trigger] l.generated[x]).tags,
    ) by {
        assert(row_is_sound(l.generated[x]));
    }
    law_judged_by_the_recorded_marks(l, r.case);
    match marks_for(l, r.case) {
        Some(ms) => {
            lemma_kept_out(ms, missing);
            assert(records(l.case, l.generated, r.case, ms));
        },
        None => {},
    }
}

proof fn lemma_exercised(
    l: LockView,
    m: ManifestView,
    target: Seq<char>,
    d: DocumentView,
    k: KnownView,
)
    requires
        lock_is_sound(l),
        lookup(m.targets, target) is Some,
        forall|x: int, y: int|
            0 <= x < y < d.results.len() ==> (#[trigger] d.results[x]).case != (
            #[trigger] d.results[y]).case,
    ensures
        is_exercised(l, lookup(m.targets, target)->0.missing_features, d, k.case) == !warns(
            l,
            lookup(m.targets, target)->0.missing_features,
            target_table(l, m, target, d),
            k,
        ),
{
    let missing = lookup(m.targets, target)->0.missing_features;
    let n = d.results.len() as int;
    let raw = result_table(d.results, n);
    let table = target_table(l, m, target, d);
    assert forall|x: int| 0 <= x < l.generated.len() implies is_mark_set(
        (#[trigger] l.generated[x]).tags,
    ) by {
        assert(row_is_sound(l.generated[x]));
    }
    law_judged_by_the_recorded_marks(l, k.case);
    lemma_tabulates(d.results, n);
    lemma_judged_lookup(l, target, missing, d.envelope.scheduled(), raw, k.case);
    assert forall|x: int| 0 <= x < n && (#[trigger] d.results[x]).case == k.case implies lookup(
        raw,
        k.case,
    ) == Some(d.results[x]) by {
        lemma_lookup_result(d.results, n, x);
    }
    if marks_for(l, k.case) is Some {
        let ms = marks_for(l, k.case)->0;
        assert(records(l.case, l.generated, k.case, ms));
        lemma_kept_out(ms, missing);
        if lookup(raw, k.case) is Some {
            let x = choose|x: int| 0 <= x < n && (#[trigger] d.results[x]).case == k.case;
            assert(lookup(raw, k.case) == Some(d.results[x]));
        }
    }
}

proof fn lemma_join_warnings(
    l: LockView,
    m: ManifestView,
    docs: Seq<(Seq<char>, DocumentView)>,
    n: int,
)
    requires
        lock_is_sound(l),
        0 <= n <= docs.len(),
        forall|i: int, j: int|
            0 <= i < j < docs.len() ==> (#[trigger] docs[i]).0 != (#[trigger] docs[j]).0,
        forall|i: int, x: int, y: int|
            0 <= i < docs.len() && 0 <= x < y < docs[i].1.results.len() ==> (
            #[trigger] docs[i].1.results[x]).case != (#[trigger] docs[i].1.results[y]).case,
    ensures
        join_steps(l, m, docs, n).seen == Seq::new(n as nat, |i: int| docs[i].0),
        join_steps(l, m, docs, n).hashes == hashes_in(docs, n),
        join_steps(l, m, docs, n).warnings.len() == 0 <==> forall|i: int|
            0 <= i < n ==> nothing_odd(l, m, (#[trigger] docs[i]).0, docs[i].1),
    decreases n,
{
    if n > 0 {
        lemma_join_warnings(l, m, docs, n - 1);
        let st = join_steps(l, m, docs, n - 1);
        let (target, d) = docs[n - 1];
        if st.seen.contains(target) {
            let i = choose|i: int| 0 <= i < st.seen.len() && st.seen[i] == target;
            assert(docs[i].0 != docs[n - 1].0);
        }
        assert forall|x: int, y: int| 0 <= x < y < d.results.len() implies (
        #[trigger] d.results[x]).case != (#[trigger] d.results[y]).case by {
            assert(docs[n - 1].1.results[x].case != docs[n - 1].1.results[y].case);
        }
        lemma_nothing_odd(l, m, target, d);
        assert(st.seen.push(target) =~= Seq::new(n as nat, |i: int| docs[i].0));
    } else {
        assert(join_steps(l, m, docs, 0).seen =~= Seq::new(0, |i: int| docs[i].0));
    }
}

/// The artifact hashes that the first `n` result sets give.
spec fn hashes_in(docs: Seq<(Seq<char>, DocumentView)>, n: int) -> Seq<(Seq<char>, Seq<char>)>
    decreases n,
{
    if n <= 0 {
        Seq::empty()
    } else {
        match docs[n - 1].1.envelope.suite.artifact_sha256 {
            Some(h) => hashes_in(docs, n - 1).push((docs[n - 1].0, h)),
            None => hashes_in(docs, n - 1),
        }
    }
}

proof fn lemma_hashes_in(docs: Seq<(Seq<char>, DocumentView)>, n: int)
    requires
        0 <= n <= docs.len(),
    ensures
        forall|i: int|
            0 <= i < n && (#[trigger] docs[i]).1.envelope.suite.artifact_sha256 is Some ==> exists|
                x: int,
            |
                0 <= x < hashes_in(docs, n).len() && (#[trigger] hashes_in(docs, n)[x]).1
                    == docs[i].1.envelope.suite.artifact_sha256->0,
        forall|x: int|
            0 <= x < hashes_in(docs, n).len() ==> exists|i: int|
                0 <= i < n && (#[trigger] docs[i]).1.envelope.suite.artifact_sha256 == Some(
                    (#[trigger] hashes_in(docs, n)[x]).1,
                ),
    decreases n,
{
    if n > 0 {
        lemma_hashes_in(docs, n - 1);
        let init = hashes_in(docs, n - 1);
        let all = hashes_in(docs, n);
        assert forall|i: int|
            0 <= i < n && (#[trigger] docs[i]).1.envelope.suite.artifact_sha256 is Some implies exists|
            x: int,
        |
            0 <= x < all.len() && (#[trigger] all[x]).1
                == docs[i].1.envelope.suite.artifact_sha256->0 by {
            if i == n - 1 {
                assert(all[init.len() as int].1 == docs[i].1.envelope.suite.artifact_sha256->0);
            } else {
                let x = choose|x: int|
                    0 <= x < init.len() && (#[trigger] init[x]).1
                        == docs[i].1.envelope.suite.artifact_sha256->0;
                assert(all[x] == init[x]);
            }
        }
        assert forall|x: int| 0 <= x < all.len() implies exists|i: int|
            0 <= i < n && (#[trigger] docs[i]).1.envelope.suite.artifact_sha256 == Some(
                (#[trigger] all[x]).1,
            ) by {
            if x < init.len() {
                assert(all[x] == init[x]);
                let i = choose|i: int|
                    0 <= i < n - 1 && (#[trigger] docs[i]).1.envelope.suite.artifact_sha256 == Some(
                        init[x].1,
                    );
                assert(docs[i].1.envelope.suite.artifact_sha256 == Some(all[x].1));
            } else {
                assert(docs[n - 1].1.envelope.suite.artifact_sha256 == Some(all[x].1));
            }
        }
    }
}

proof fn lemma_silent_warnings(m: ManifestView, seen: Seq<Seq<char>>, n: int)
    requires
        0 <= n <= m.targets.len(),
    ensures
        silent_warnings(m, seen, n).len() == 0 <==> forall|i: int|
            0 <= i < n && (#[trigger] m.targets[i]).1.optional ==> seen.contains(m.targets[i].0),
    decreases n,
{
    if n > 0 {
        lemma_silent_warnings(m, seen, n - 1);
    }
}

/// A join of result sets for different targets, with no case twice, has no
/// warning exactly where nothing about a result set is odd, every optional
/// target has one, and they are all about one artifact as far as they say.
pub proof fn law_warnings_exactly_where_something_is_odd(
    l: LockView,
    m: ManifestView,
    docs: Seq<(Seq<char>, DocumentView)>,
)
    requires
        lock_is_sound(l),
        forall|i: int, j: int|
            0 <= i < j < docs.len() ==> (#[trigger] docs[i]).0 != (#[trigger] docs[j]).0,
        forall|i: int, x: int, y: int|
            0 <= i < docs.len() && 0 <= x < y < docs[i].1.results.len() ==> (
            #[trigger] docs[i].1.results[x]).case != (#[trigger] docs[i].1.results[y]).case,
    ensures
        aggregated(l, m, docs).warnings.len() == 0 <==> {
            &&& forall|i: int|
                0 <= i < docs.len() ==> nothing_odd(l, m, (#[trigger] docs[i]).0, docs[i].1)
            &&& forall|t: int|
                0 <= t < m.targets.len() && (#[trigger] m.targets[t]).1.optional ==> exists|i: int|
                    0 <= i < docs.len() && (#[trigger] docs[i]).0 == m.targets[t].0
            &&& forall|i: int, j: int|
                0 <= i < docs.len() && 0 <= j < docs.len() && (
                #[trigger] docs[i]).1.envelope.suite.artifact_sha256 is Some && (
                #[trigger] docs[j]).1.envelope.suite.artifact_sha256 is Some
                    ==> docs[i].1.envelope.suite.artifact_sha256
                    == docs[j].1.envelope.suite.artifact_sha256
        },
{
    let n = docs.len() as int;
    let st = join_steps(l, m, docs, n);
    lemma_join_warnings(l, m, docs, n);
    lemma_silent_warnings(m, st.seen, m.targets.len() as int);
    lemma_hashes_in(docs, n);
    let hs = hashes_in(docs, n);
    assert forall|t: Seq<char>| #[trigger] st.seen.contains(t) <==> exists|i: int|
        0 <= i < docs.len() && (#[trigger] docs[i]).0 == t by {
        if st.seen.contains(t) {
            let i = choose|i: int| 0 <= i < st.seen.len() && st.seen[i] == t;
            assert(docs[i].0 == t);
        }
        if exists|i: int| 0 <= i < docs.len() && (#[trigger] docs[i]).0 == t {
            let i = choose|i: int| 0 <= i < docs.len() && (#[trigger] docs[i]).0 == t;
            assert(st.seen[i] == t);
        }
    }
    let one_artifact = forall|i: int, j: int|
        0 <= i < docs.len() && 0 <= j < docs.len() && (
        #[trigger] docs[i]).1.envelope.suite.artifact_sha256 is Some && (
        #[trigger] docs[j]).1.envelope.suite.artifact_sha256 is Some
            ==> docs[i].1.envelope.suite.artifact_sha256
            == docs[j].1.envelope.suite.artifact_sha256;
    if one_artifact && hashes_differ(hs) {
        let x = choose|x: int| 0 <= x < hs.len() && (#[trigger] hs[x]).1 != hs[0].1;
        let i = choose|i: int|
            0 <= i < n && (#[trigger] docs[i]).1.envelope.suite.artifact_sha256 == Some(hs[x].1);
        let j = choose|j: int|
            0 <= j < n && (#[trigger] docs[j]).1.envelope.suite.artifact_sha256 == Some(hs[0].1);
        assert(docs[i].1.envelope.suite.artifact_sha256
            == docs[j].1.envelope.suite.artifact_sha256);
    }
    if !hashes_differ(hs) {
        assert forall|i: int, j: int|
            0 <= i < docs.len() && 0 <= j < docs.len() && (
            #[trigger] docs[i]).1.envelope.suite.artifact_sha256 is Some && (
            #[trigger] docs[j]).1.envelope.suite.artifact_sha256 is Some implies
            docs[i].1.envelope.suite.artifact_sha256
            == docs[j].1.envelope.suite.artifact_sha256 by {
            let x = choose|x: int|
                0 <= x < hs.len() && (#[trigger] hs[x]).1
                    == docs[i].1.envelope.suite.artifact_sha256->0;
            let y = choose|y: int|
                0 <= y < hs.len() && (#[trigger] hs[y]).1
                    == docs[j].1.envelope.suite.artifact_sha256->0;
            assert(hs[x].1 == hs[0].1 && hs[y].1 == hs[0].1);
        }
    }
}

// ---------------------------------------------------------------------
// Every one of them is told
// ---------------------------------------------------------------------

proof fn lemma_kept_so_far<A, B>(
    s: Seq<A>,
    p: spec_fn(A) -> bool,
    f: spec_fn(A) -> B,
    n: int,
)
    requires
        0 <= n < s.len(),
    ensures
        s.take(n + 1).filter(p).map_values(f) == if p(s[n]) {
            s.take(n).filter(p).map_values(f).push(f(s[n]))
        } else {
            s.take(n).filter(p).map_values(f)
        },
        s.take(0).filter(p).map_values(f) == Seq::<B>::empty(),
{
    reveal(Seq::filter);
    assert(s.take(n + 1).drop_last() =~= s.take(n));
    assert(s.take(n + 1).last() == s[n]);
    assert(s.take(0).filter(p).map_values(f) =~= Seq::<B>::empty());
    if p(s[n]) {
        assert(s.take(n).filter(p).push(s[n]).map_values(f) =~= s.take(n).filter(p).map_values(
            f,
        ).push(f(s[n])));
    }
}

proof fn lemma_none_so_far<A, B>(s: Seq<A>, p: spec_fn(A) -> bool, f: spec_fn(A) -> B)
    ensures
        s.take(0).filter(p).map_values(f) == Seq::<B>::empty(),
{
    reveal(Seq::filter);
    assert(s.take(0).filter(p).map_values(f) =~= Seq::<B>::empty());
}

proof fn lemma_all_undeclared_errors(named: Seq<(Seq<char>, ())>, m: ManifestView, n: int)
    requires
        0 <= n <= named.len(),
    ensures
        undeclared_errors(named, m, n) == named.take(n).filter(
            |x: (Seq<char>, ())| !has_key(m.features, x.0),
        ).map_values(|x: (Seq<char>, ())| undeclared_text(x.0)),
    decreases n,
{
    let p = |x: (Seq<char>, ())| !has_key(m.features, x.0);
    let f = |x: (Seq<char>, ())| undeclared_text(x.0);
    if n > 0 {
        lemma_all_undeclared_errors(named, m, n - 1);
        lemma_kept_so_far(named, p, f, n - 1);
    } else {
        lemma_none_so_far(named, p, f);
    }
}

proof fn lemma_all_dead_cases(cases: Seq<EntryView>, m: ManifestView, n: int)
    requires
        0 <= n <= cases.len(),
    ensures
        dead_cases(cases, m, n) == cases.take(n).filter(
            |x: EntryView| is_mark_set(x.tags) && !applies_somewhere(m, x.tags),
        ).map_values(|x: EntryView| dead_case_text(x.name.text())),
    decreases n,
{
    let p = |x: EntryView| is_mark_set(x.tags) && !applies_somewhere(m, x.tags);
    let f = |x: EntryView| dead_case_text(x.name.text());
    if n > 0 {
        lemma_all_dead_cases(cases, m, n - 1);
        law_mark_set_fault(cases[n - 1].tags);
        lemma_kept_so_far(cases, p, f, n - 1);
    } else {
        lemma_none_so_far(cases, p, f);
    }
}

proof fn lemma_all_dead_rows(rows: Seq<RowView>, m: ManifestView, n: int)
    requires
        0 <= n <= rows.len(),
    ensures
        dead_rows(rows, m, n) == rows.take(n).filter(
            |x: RowView| is_mark_set(x.tags) && !applies_somewhere(m, x.tags),
        ).map_values(|x: RowView| dead_row_text(x.prefix)),
    decreases n,
{
    let p = |x: RowView| is_mark_set(x.tags) && !applies_somewhere(m, x.tags);
    let f = |x: RowView| dead_row_text(x.prefix);
    if n > 0 {
        lemma_all_dead_rows(rows, m, n - 1);
        law_mark_set_fault(rows[n - 1].tags);
        lemma_kept_so_far(rows, p, f, n - 1);
    } else {
        lemma_none_so_far(rows, p, f);
    }
}

proof fn lemma_all_unreferenced_errors(named: Seq<(Seq<char>, ())>, m: ManifestView, n: int)
    requires
        0 <= n <= m.features.len(),
    ensures
        unreferenced_errors(named, m, n) == m.features.take(n).filter(
            |x: (Seq<char>, FeatureKind)| x.1 is Gated && !has_key(named, x.0),
        ).map_values(|x: (Seq<char>, FeatureKind)| unreferenced_text(x.0)),
    decreases n,
{
    let p = |x: (Seq<char>, FeatureKind)| x.1 is Gated && !has_key(named, x.0);
    let f = |x: (Seq<char>, FeatureKind)| unreferenced_text(x.0);
    if n > 0 {
        lemma_all_unreferenced_errors(named, m, n - 1);
        lemma_kept_so_far(m.features, p, f, n - 1);
    } else {
        lemma_none_so_far(m.features, p, f);
    }
}

proof fn lemma_all_silent_errors(m: ManifestView, seen: Seq<Seq<char>>, n: int)
    requires
        0 <= n <= m.targets.len(),
    ensures
        silent_errors(m, seen, n) == m.targets.take(n).filter(
            |x: (Seq<char>, TargetView)| !seen.contains(x.0) && !x.1.optional,
        ).map_values(|x: (Seq<char>, TargetView)| "target `"@ + x.0 + "`: no results"@),
    decreases n,
{
    let p = |x: (Seq<char>, TargetView)| !seen.contains(x.0) && !x.1.optional;
    let f = |x: (Seq<char>, TargetView)| "target `"@ + x.0 + "`: no results"@;
    if n > 0 {
        lemma_all_silent_errors(m, seen, n - 1);
        lemma_kept_so_far(m.targets, p, f, n - 1);
    } else {
        lemma_none_so_far(m.targets, p, f);
    }
}

proof fn lemma_all_silent_warnings(m: ManifestView, seen: Seq<Seq<char>>, n: int)
    requires
        0 <= n <= m.targets.len(),
    ensures
        silent_warnings(m, seen, n) == m.targets.take(n).filter(
            |x: (Seq<char>, TargetView)| !seen.contains(x.0) && x.1.optional,
        ).map_values(|x: (Seq<char>, TargetView)| "target `"@ + x.0 + "`: no results (declared optional)"@),
    decreases n,
{
    let p = |x: (Seq<char>, TargetView)| !seen.contains(x.0) && x.1.optional;
    let f = |x: (Seq<char>, TargetView)| "target `"@ + x.0 + "`: no results (declared optional)"@;
    if n > 0 {
        lemma_all_silent_warnings(m, seen, n - 1);
        lemma_kept_so_far(m.targets, p, f, n - 1);
    } else {
        lemma_none_so_far(m.targets, p, f);
    }
}

proof fn lemma_all_lacking(all: Seq<(Seq<char>, ())>, mine: Seq<(Seq<char>, ())>, n: int)
    requires
        0 <= n <= all.len(),
    ensures
        lacking(all, mine, n) == all.take(n).filter(
            |x: (Seq<char>, ())| !has_key(mine, x.0),
        ).map_values(|x: (Seq<char>, ())| x.0),
    decreases n,
{
    let p = |x: (Seq<char>, ())| !has_key(mine, x.0);
    let f = |x: (Seq<char>, ())| x.0;
    if n > 0 {
        lemma_all_lacking(all, mine, n - 1);
        lemma_kept_so_far(all, p, f, n - 1);
    } else {
        lemma_none_so_far(all, p, f);
    }
}

proof fn lemma_all_leaf_errors(leaves: Seq<(Seq<char>, Seq<(Seq<char>, ())>)>, all: Seq<(Seq<char>, ())>, n: int)
    requires
        0 <= n <= leaves.len(),
    ensures
        leaf_errors(leaves, all, n) == leaves.take(n).filter(
            |x: (Seq<char>, Seq<(Seq<char>, ())>)| lacking(all, x.1, all.len() as int).len() > 0,
        ).map_values(|x: (Seq<char>, Seq<(Seq<char>, ())>)| lacking_text(x.0, lacking(all, x.1, all.len() as int))),
    decreases n,
{
    let p = |x: (Seq<char>, Seq<(Seq<char>, ())>)| lacking(all, x.1, all.len() as int).len() > 0;
    let f = |x: (Seq<char>, Seq<(Seq<char>, ())>)| lacking_text(x.0, lacking(all, x.1, all.len() as int));
    if n > 0 {
        lemma_all_leaf_errors(leaves, all, n - 1);
        lemma_kept_so_far(leaves, p, f, n - 1);
    } else {
        lemma_none_so_far(leaves, p, f);
    }
}

/// Every feature that a mark names and the manifest does not classify is told,
/// in order.
pub proof fn law_every_undeclared_feature_is_told(named: Seq<(Seq<char>, ())>, m: ManifestView)
    ensures
        undeclared_errors(named, m, named.len() as int) == named.filter(
            |x: (Seq<char>, ())| !has_key(m.features, x.0),
        ).map_values(|x: (Seq<char>, ())| undeclared_text(x.0)),
{
    lemma_all_undeclared_errors(named, m, named.len() as int);
    assert(named.take(named.len() as int) =~= named);
}

/// Every case with sound marks that no target lets in is told, in order.
pub proof fn law_every_dead_case_is_told(cases: Seq<EntryView>, m: ManifestView)
    ensures
        dead_cases(cases, m, cases.len() as int) == cases.filter(
            |x: EntryView| is_mark_set(x.tags) && !applies_somewhere(m, x.tags),
        ).map_values(|x: EntryView| dead_case_text(x.name.text())),
{
    lemma_all_dead_cases(cases, m, cases.len() as int);
    assert(cases.take(cases.len() as int) =~= cases);
}

/// Every row with sound marks that no target lets in is told, in order.
pub proof fn law_every_dead_row_is_told(rows: Seq<RowView>, m: ManifestView)
    ensures
        dead_rows(rows, m, rows.len() as int) == rows.filter(
            |x: RowView| is_mark_set(x.tags) && !applies_somewhere(m, x.tags),
        ).map_values(|x: RowView| dead_row_text(x.prefix)),
{
    lemma_all_dead_rows(rows, m, rows.len() as int);
    assert(rows.take(rows.len() as int) =~= rows);
}

/// Every gated feature that no mark names is told, in order.
pub proof fn law_every_unreferenced_feature_is_told(named: Seq<(Seq<char>, ())>, m: ManifestView)
    ensures
        unreferenced_errors(named, m, m.features.len() as int) == m.features.filter(
            |x: (Seq<char>, FeatureKind)| x.1 is Gated && !has_key(named, x.0),
        ).map_values(|x: (Seq<char>, FeatureKind)| unreferenced_text(x.0)),
{
    lemma_all_unreferenced_errors(named, m, m.features.len() as int);
    assert(m.features.take(m.features.len() as int) =~= m.features);
}

/// Every target without results that is not optional is told, in order.
pub proof fn law_every_silent_target_is_told(m: ManifestView, seen: Seq<Seq<char>>)
    ensures
        silent_errors(m, seen, m.targets.len() as int) == m.targets.filter(
            |x: (Seq<char>, TargetView)| !seen.contains(x.0) && !x.1.optional,
        ).map_values(|x: (Seq<char>, TargetView)| "target `"@ + x.0 + "`: no results"@),
{
    lemma_all_silent_errors(m, seen, m.targets.len() as int);
    assert(m.targets.take(m.targets.len() as int) =~= m.targets);
}

/// Every optional target without results is told, in order.
pub proof fn law_every_optional_silence_is_told(m: ManifestView, seen: Seq<Seq<char>>)
    ensures
        silent_warnings(m, seen, m.targets.len() as int) == m.targets.filter(
            |x: (Seq<char>, TargetView)| !seen.contains(x.0) && x.1.optional,
        ).map_values(|x: (Seq<char>, TargetView)| "target `"@ + x.0 + "`: no results (declared optional)"@),
{
    lemma_all_silent_warnings(m, seen, m.targets.len() as int);
    assert(m.targets.take(m.targets.len() as int) =~= m.targets);
}

/// Every leaf that a target does not report is listed, in order.
pub proof fn law_every_lacking_leaf_is_listed(all: Seq<(Seq<char>, ())>, mine: Seq<(Seq<char>, ())>)
    ensures
        lacking(all, mine, all.len() as int) == all.filter(
            |x: (Seq<char>, ())| !has_key(mine, x.0),
        ).map_values(|x: (Seq<char>, ())| x.0),
{
    lemma_all_lacking(all, mine, all.len() as int);
    assert(all.take(all.len() as int) =~= all);
}

/// Every target that lacks a leaf is told, in order.
pub proof fn law_every_lacking_target_is_told(leaves: Seq<(Seq<char>, Seq<(Seq<char>, ())>)>, all: Seq<(Seq<char>, ())>)
    ensures
        leaf_errors(leaves, all, leaves.len() as int) == leaves.filter(
            |x: (Seq<char>, Seq<(Seq<char>, ())>)| lacking(all, x.1, all.len() as int).len() > 0,
        ).map_values(|x: (Seq<char>, Seq<(Seq<char>, ())>)| lacking_text(x.0, lacking(all, x.1, all.len() as int))),
{
    lemma_all_leaf_errors(leaves, all, leaves.len() as int);
    assert(leaves.take(leaves.len() as int) =~= leaves);
}

/// Every run error and every unknown status is told, in order.
pub proof fn law_every_trouble_is_told(
    target: Seq<char>,
    errors: Seq<Seq<char>>,
    unknown: Seq<(Seq<char>, Seq<char>)>,
)
    ensures
        run_error_texts(target, errors, errors.len() as int) == errors.map_values(
            |e: Seq<char>| "target `"@ + target + "`: run error: "@ + e,
        ),
        unknown_texts(target, unknown, unknown.len() as int) == unknown.map_values(
            |u: (Seq<char>, Seq<char>)|
                "target `"@ + target + "`: case `"@ + u.0 + "` has unknown status `"@ + u.1
                    + "`"@,
        ),
{
    lemma_all_run_errors(target, errors, errors.len() as int);
    lemma_all_unknown(target, unknown, unknown.len() as int);
    assert(errors.take(errors.len() as int) =~= errors);
    assert(unknown.take(unknown.len() as int) =~= unknown);
}

proof fn lemma_all_run_errors(target: Seq<char>, errors: Seq<Seq<char>>, n: int)
    requires
        0 <= n <= errors.len(),
    ensures
        run_error_texts(target, errors, n) == errors.take(n).map_values(
            |e: Seq<char>| "target `"@ + target + "`: run error: "@ + e,
        ),
    decreases n,
{
    let f = |e: Seq<char>| "target `"@ + target + "`: run error: "@ + e;
    if n > 0 {
        lemma_all_run_errors(target, errors, n - 1);
        assert(errors.take(n).map_values(f) =~= errors.take(n - 1).map_values(f).push(
            f(errors[n - 1]),
        ));
    } else {
        assert(errors.take(n).map_values(f) =~= Seq::empty());
    }
}

proof fn lemma_all_unknown(target: Seq<char>, unknown: Seq<(Seq<char>, Seq<char>)>, n: int)
    requires
        0 <= n <= unknown.len(),
    ensures
        unknown_texts(target, unknown, n) == unknown.take(n).map_values(
            |u: (Seq<char>, Seq<char>)|
                "target `"@ + target + "`: case `"@ + u.0 + "` has unknown status `"@ + u.1
                    + "`"@,
        ),
    decreases n,
{
    let f = |u: (Seq<char>, Seq<char>)|
        "target `"@ + target + "`: case `"@ + u.0 + "` has unknown status `"@ + u.1 + "`"@;
    if n > 0 {
        lemma_all_unknown(target, unknown, n - 1);
        assert(unknown.take(n).map_values(f) =~= unknown.take(n - 1).map_values(f).push(
            f(unknown[n - 1]),
        ));
    } else {
        assert(unknown.take(n).map_values(f) =~= Seq::empty());
    }
}

/// What the marks make of the result of an entry.
pub open spec fn judged_entry(
    l: LockView,
    target: Seq<char>,
    missing: Seq<Seq<char>>,
    scheduled: bool,
    e: (Seq<char>, CaseView),
) -> Judged {
    judge(target, missing, scheduled, marks_for(l, e.1.case), e.1)
}

proof fn lemma_all_judged(
    l: LockView,
    target: Seq<char>,
    missing: Seq<Seq<char>>,
    scheduled: bool,
    table: CaseTable,
    n: int,
)
    requires
        0 <= n <= table.len(),
    ensures
        judged_errors(l, target, missing, scheduled, table, n) == table.take(n).filter(
            |e: (Seq<char>, CaseView)|
                judged_entry(l, target, missing, scheduled, e).error is Some,
        ).map_values(
            |e: (Seq<char>, CaseView)| judged_entry(l, target, missing, scheduled, e).error->0,
        ),
        reclassified_count(l, target, missing, scheduled, table, n) == table.take(n).filter(
            |e: (Seq<char>, CaseView)|
                judged_entry(l, target, missing, scheduled, e).reclassified,
        ).len(),
        smell_count(l, target, missing, scheduled, table, n) == table.take(n).filter(
            |e: (Seq<char>, CaseView)| judged_entry(l, target, missing, scheduled, e).smell,
        ).len(),
    decreases n,
{
    reveal(Seq::filter);
    let p = |e: (Seq<char>, CaseView)|
        judged_entry(l, target, missing, scheduled, e).error is Some;
    let f = |e: (Seq<char>, CaseView)|
        judged_entry(l, target, missing, scheduled, e).error->0;
    if n > 0 {
        lemma_all_judged(l, target, missing, scheduled, table, n - 1);
        assert(table.take(n).drop_last() =~= table.take(n - 1));
        assert(table.take(n).last() == table[n - 1]);
        assert(judge_at(l, target, missing, scheduled, table, n - 1) == judged_entry(
            l,
            target,
            missing,
            scheduled,
            table[n - 1],
        ));
        lemma_kept_so_far(table, p, f, n - 1);
    } else {
        lemma_none_so_far(table, p, f);
    }
}

/// Every result that its marks forbid is told, in order, and every one that
/// is read anew or suspect is counted.
pub proof fn law_every_judgement_is_told(
    l: LockView,
    target: Seq<char>,
    missing: Seq<Seq<char>>,
    scheduled: bool,
    table: CaseTable,
)
    ensures
        judged_errors(l, target, missing, scheduled, table, table.len() as int) == table.filter(
            |e: (Seq<char>, CaseView)|
                judged_entry(l, target, missing, scheduled, e).error is Some,
        ).map_values(
            |e: (Seq<char>, CaseView)| judged_entry(l, target, missing, scheduled, e).error->0,
        ),
        reclassified_count(l, target, missing, scheduled, table, table.len() as int)
            == table.filter(
            |e: (Seq<char>, CaseView)|
                judged_entry(l, target, missing, scheduled, e).reclassified,
        ).len(),
        smell_count(l, target, missing, scheduled, table, table.len() as int) == table.filter(
            |e: (Seq<char>, CaseView)| judged_entry(l, target, missing, scheduled, e).smell,
        ).len(),
{
    lemma_all_judged(l, target, missing, scheduled, table, table.len() as int);
    assert(table.take(table.len() as int) =~= table);
}

/// The error that a declared failure is, if it is one: of no known case, of
/// one that the target does not get, or of one that passed.
pub open spec fn known_error(
    l: LockView,
    target: Seq<char>,
    missing: Seq<Seq<char>>,
    table: CaseTable,
    k: KnownView,
) -> Option<Seq<char>> {
    let head = "target `"@ + target + "`: expected-fail "@;
    if marks_for(l, k.case) is None {
        Some(
            head + "declaration for `"@ + k.case
                + "` names no known case (not in the lockfile, not under a generated prefix) — stale declaration?"@,
        )
    } else if !applies_to(marks_for(l, k.case)->0, missing) {
        Some(
            head + "declaration for `"@ + k.case
                + "` is stale: the case is not applicable given missing-features "@ + debug_texts(
                missing,
            ),
        )
    } else if lookup(table, k.case) is Some && lookup(table, k.case)->0.status == Status::Pass {
        Some(
            head + "case `"@ + k.case + "` passed — remove the stale declaration (reason was: "@
                + k.reason + "; tracking: "@ + k.tracking + ")"@,
        )
    } else {
        None
    }
}

/// The warning that a declared failure is, if it is one: nothing came of it.
pub open spec fn known_warning(
    l: LockView,
    target: Seq<char>,
    missing: Seq<Seq<char>>,
    table: CaseTable,
    k: KnownView,
) -> Option<Seq<char>> {
    let head = "target `"@ + target + "`: expected-fail case `"@ + k.case;
    if marks_for(l, k.case) is None || !applies_to(marks_for(l, k.case)->0, missing) {
        None
    } else if lookup(table, k.case) is None {
        Some(
            head + "` did not materialize in this run — the declared failure went unexercised"@,
        )
    } else if lookup(table, k.case)->0.status == Status::Skipped {
        Some(head + "` was skipped: the declared failure went unexercised"@)
    } else {
        None
    }
}

proof fn lemma_known_head(target: Seq<char>, case: Seq<char>)
    ensures
        known_head(target, "expected-fail declaration for `"@, case) == "target `"@ + target
            + "`: expected-fail "@ + "declaration for `"@ + case,
        known_head(target, "expected-fail case `"@, case) == "target `"@ + target
            + "`: expected-fail "@ + "case `"@ + case,
        known_head(target, "expected-fail case `"@, case) == "target `"@ + target
            + "`: expected-fail case `"@ + case,
{
    reveal_strlit("`: ");
    reveal_strlit("`: expected-fail ");
    reveal_strlit("`: expected-fail case `");
    reveal_strlit("declaration for `");
    reveal_strlit("case `");
    reveal_strlit("expected-fail declaration for `");
    reveal_strlit("expected-fail case `");
    assert("`: "@ + "expected-fail declaration for `"@ =~= "`: expected-fail "@
        + "declaration for `"@);
    assert("`: "@ + "expected-fail case `"@ =~= "`: expected-fail "@ + "case `"@);
    assert("`: "@ + "expected-fail case `"@ =~= "`: expected-fail case `"@);
    let t = "target `"@ + target;
    assert(known_head(target, "expected-fail declaration for `"@, case) =~= t + ("`: "@
        + "expected-fail declaration for `"@) + case);
    assert(known_head(target, "expected-fail case `"@, case) =~= t + ("`: "@
        + "expected-fail case `"@) + case);
    assert(t + "`: expected-fail "@ + "declaration for `"@ + case =~= t + ("`: expected-fail "@
        + "declaration for `"@) + case);
    assert(t + "`: expected-fail "@ + "case `"@ + case =~= t + ("`: expected-fail "@ + "case `"@)
        + case);
}

proof fn lemma_all_known(
    l: LockView,
    target: Seq<char>,
    missing: Seq<Seq<char>>,
    table: CaseTable,
    known: Seq<KnownView>,
    n: int,
)
    requires
        0 <= n <= known.len(),
    ensures
        known_steps(l, target, missing, table, known, n).errors == known.take(n).filter(
            |k: KnownView| known_error(l, target, missing, table, k) is Some,
        ).map_values(|k: KnownView| known_error(l, target, missing, table, k)->0),
        known_steps(l, target, missing, table, known, n).warnings == known.take(n).filter(
            |k: KnownView| known_warning(l, target, missing, table, k) is Some,
        ).map_values(|k: KnownView| known_warning(l, target, missing, table, k)->0),
    decreases n,
{
    let p = |k: KnownView| known_error(l, target, missing, table, k) is Some;
    let f = |k: KnownView| known_error(l, target, missing, table, k)->0;
    let q = |k: KnownView| known_warning(l, target, missing, table, k) is Some;
    let g = |k: KnownView| known_warning(l, target, missing, table, k)->0;
    if n > 0 {
        lemma_all_known(l, target, missing, table, known, n - 1);
        lemma_kept_so_far(known, p, f, n - 1);
        lemma_kept_so_far(known, q, g, n - 1);
        lemma_known_head(target, known[n - 1].case);
    } else {
        lemma_none_so_far(known, p, f);
        lemma_none_so_far(known, q, g);
    }
}

/// Every declared failure that is out of date is told, in order, and so is
/// every one that nothing came of.
pub proof fn law_every_stale_declaration_is_told(
    l: LockView,
    target: Seq<char>,
    missing: Seq<Seq<char>>,
    table: CaseTable,
    known: Seq<KnownView>,
)
    ensures
        ({
            let st = known_steps(l, target, missing, table, known, known.len() as int);
            &&& st.errors == known.filter(
                |k: KnownView| known_error(l, target, missing, table, k) is Some,
            ).map_values(|k: KnownView| known_error(l, target, missing, table, k)->0)
            &&& st.warnings == known.filter(
                |k: KnownView| known_warning(l, target, missing, table, k) is Some,
            ).map_values(|k: KnownView| known_warning(l, target, missing, table, k)->0)
        }),
{
    lemma_all_known(l, target, missing, table, known, known.len() as int);
    assert(known.take(known.len() as int) =~= known);
}

/// What is wrong with the `i`-th result set: that it is not the first of its
/// target, or else what is wrong with the stream, the results that the marks
/// forbid, and the declarations that are out of date.
pub open spec fn set_errors(
    l: LockView,
    m: ManifestView,
    docs: Seq<(Seq<char>, DocumentView)>,
    i: int,
) -> Seq<Seq<char>> {
    let (target, d) = docs[i];
    if !is_first(docs, i) {
        seq!["target `"@ + target + "`: multiple result sets"@]
    } else {
        transport_errors(l, m, target, d) + mark_errors(l, m, target, d) + target_known(
            l,
            m,
            target,
            d,
        ).errors
    }
}

proof fn lemma_all_set_errors(
    l: LockView,
    m: ManifestView,
    docs: Seq<(Seq<char>, DocumentView)>,
    n: int,
)
    requires
        0 <= n <= docs.len(),
    ensures
        join_steps(l, m, docs, n).errors == declaration_errors(l, m) + Seq::new(
            n as nat,
            |i: int| set_errors(l, m, docs, i),
        ).flatten_alt(),
        forall|t: Seq<char>| #[trigger]
            join_steps(l, m, docs, n).seen.contains(t) <==> exists|j: int|
                0 <= j < n && (#[trigger] docs[j]).0 == t,
    decreases n,
{
    let f = |i: int| set_errors(l, m, docs, i);
    let st = join_steps(l, m, docs, n);
    let lists = Seq::new(n as nat, f);
    if n > 0 {
        let before = join_steps(l, m, docs, n - 1);
        lemma_all_set_errors(l, m, docs, n - 1);
        assert(lists.drop_last() =~= Seq::new((n - 1) as nat, f));
        assert(lists.last() == set_errors(l, m, docs, n - 1));
        let (target, d) = docs[n - 1];
        assert(before.seen.contains(target) <==> !is_first(docs, n - 1)) by {
            assert(before.seen.contains(target) <==> exists|j: int|
                0 <= j < n - 1 && (#[trigger] docs[j]).0 == target);
        }
        assert(st.errors =~= before.errors + set_errors(l, m, docs, n - 1));
        assert(st.errors =~= declaration_errors(l, m) + lists.flatten_alt());
        assert forall|t: Seq<char>| #[trigger] st.seen.contains(t) <==> exists|j: int|
            0 <= j < n && (#[trigger] docs[j]).0 == t by {
            assert(before.seen.contains(t) <==> exists|j: int|
                0 <= j < n - 1 && (#[trigger] docs[j]).0 == t);
            if !before.seen.contains(target) {
                lemma_contains_sum(before.seen, seq![target], t);
                assert(before.seen.push(target) =~= before.seen + seq![target]);
                assert(seq![target].contains(t) <==> t == target) by {
                    assert(seq![target][0] == target);
                }
            }
            if t == target {
                assert(docs[n - 1].0 == t);
            }
        }
    } else {
        assert(lists =~= Seq::empty());
        assert(st.errors =~= declaration_errors(l, m) + lists.flatten_alt());
    }
}

/// The errors of a join are those of the declarations, those of every result
/// set in order, and those of the targets that are silent or lack leaves: all
/// of them, and no other.
pub proof fn law_every_error_is_told(
    l: LockView,
    m: ManifestView,
    docs: Seq<(Seq<char>, DocumentView)>,
)
    ensures
        ({
            let st = join_steps(l, m, docs, docs.len() as int);
            aggregated(l, m, docs).errors == declaration_errors(l, m) + Seq::new(
                docs.len(),
                |i: int| set_errors(l, m, docs, i),
            ).flatten_alt() + silent_errors(m, st.seen, m.targets.len() as int) + leaf_errors(
                st.leaves,
                leaf_union(st.leaves, st.leaves.len() as int),
                st.leaves.len() as int,
            )
        }),
        forall|t: Seq<char>| #[trigger]
            join_steps(l, m, docs, docs.len() as int).seen.contains(t) <==> exists|j: int|
                0 <= j < docs.len() && (#[trigger] docs[j]).0 == t,
{
    lemma_all_set_errors(l, m, docs, docs.len() as int);
}

} // verus!
