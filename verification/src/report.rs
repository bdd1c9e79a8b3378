//! What the command line says about a folded stream and about a joined
//! corpus.

use vstd::prelude::*;

use crate::aggregate::{
    any_failing, corpus_failing, expected_among, expected_in, Aggregate, AggregateView,
    AssessmentTable, AssessmentView, CaseTable,
};
use crate::lockfile::{
    coverage_fault, law_coverage_fault, may_be_reported, must_be_reported, rows_apart, LockView,
    Lockfile,
};
use crate::results::{case_views, CaseResult, CaseView, Document, DocumentView, Status};
use crate::selection::opt_lock;
use crate::table::lookup;
use crate::tally::{tally_of, tally_text};
use crate::text::{decimal, decimal_text, lemma_texts_of_strings, opt_text, owned, views};

verus! {

// ---------------------------------------------------------------------
// A folded stream
// ---------------------------------------------------------------------

/// The word that flags a result, if it is worth a line.
pub open spec fn flag(s: Status) -> Option<Seq<char>> {
    match s {
        Status::Pass => None,
        Status::Fail => Some("FAIL"@),
        Status::Skipped => Some("SKIP"@),
        Status::NotReached => Some("NOT-REACHED"@),
        Status::NotApplicable => Some("N/A"@),
        Status::Deselected => Some("DESELECTED"@),
    }
}

/// The word that flags a result, if it is worth a line.
pub fn flag_of(s: Status) -> (r: Option<&'static str>)
    ensures
        match r {
            Some(w) => flag(s) == Some(w@),
            None => flag(s) is None,
        },
{
    match s {
        Status::Pass => None,
        Status::Fail => Some("FAIL"),
        Status::Skipped => Some("SKIP"),
        Status::NotReached => Some("NOT-REACHED"),
        Status::NotApplicable => Some("N/A"),
        Status::Deselected => Some("DESELECTED"),
    }
}

/// The lines of the first `n` diagnostics.
pub open spec fn diagnostic_lines(ds: Seq<Seq<char>>, n: int) -> Seq<char>
    decreases n,
{
    if n <= 0 {
        Seq::empty()
    } else {
        diagnostic_lines(ds, n - 1) + "    diag: "@ + ds[n - 1] + "\n"@
    }
}

/// The lines of one result.
pub open spec fn result_lines(r: CaseView) -> Seq<char> {
    match flag(r.status) {
        None => Seq::empty(),
        Some(w) => {
            let head = w + ": "@ + r.case;
            let line = match r.detail {
                Some(d) => head + " — "@ + d + "\n"@,
                None => head + "\n"@,
            };
            let all = line + diagnostic_lines(r.diagnostics, r.diagnostics.len() as int);
            if r.diagnostics_complete { all } else { all + "    (diagnostics truncated)\n"@ }
        },
    }
}

/// The lines of the first `n` results.
pub open spec fn results_lines(rs: Seq<CaseView>, n: int) -> Seq<char>
    decreases n,
{
    if n <= 0 { Seq::empty() } else { results_lines(rs, n - 1) + result_lines(rs[n - 1]) }
}

/// The lines of the first `n` run errors.
pub open spec fn run_error_lines(es: Seq<Seq<char>>, n: int) -> Seq<char>
    decreases n,
{
    if n <= 0 {
        Seq::empty()
    } else {
        run_error_lines(es, n - 1) + "RUN-ERROR: "@ + es[n - 1] + "\n"@
    }
}

/// The lines of the first `n` statuses that were not understood.
pub open spec fn unknown_lines(us: Seq<(Seq<char>, Seq<char>)>, n: int) -> Seq<char>
    decreases n,
{
    if n <= 0 {
        Seq::empty()
    } else {
        unknown_lines(us, n - 1) + "UNKNOWN-STATUS: "@ + us[n - 1].0 + " -> "@ + us[n - 1].1
            + "\n"@
    }
}

/// The status words of the results.
pub open spec fn status_words(rs: Seq<CaseView>) -> Seq<Seq<char>> {
    Seq::new(rs.len(), |i: int| rs[i].status.text())
}

/// The case names of the results.
pub open spec fn case_names(rs: Seq<CaseView>) -> Seq<Seq<char>> {
    Seq::new(rs.len(), |i: int| rs[i].case)
}

/// What coverage says against the results, where a lockfile is in hand.
pub open spec fn coverage(l: Option<LockView>, rs: Seq<CaseView>) -> Option<Seq<char>> {
    match l {
        Some(l) => coverage_fault(l, case_names(rs)),
        None => None,
    }
}

/// The report on a folded stream.
pub open spec fn fold_text(d: DocumentView, cover: Option<Seq<char>>) -> Seq<char> {
    let results = results_lines(d.results, d.results.len() as int);
    let errors = run_error_lines(d.run_errors, d.run_errors.len() as int);
    let unknown = unknown_lines(d.unknown_statuses, d.unknown_statuses.len() as int);
    let covered = match cover {
        Some(e) => "COVERAGE: "@ + e + "\n"@,
        None => Seq::empty(),
    };
    let open = if d.terminated { "terminated): "@ } else { "NOT terminated): "@ };
    results + errors + unknown + covered + "\n"@ + decimal(d.results.len()) + " results ("@ + open
        + tally_text(status_words(d.results)) + "\n"@
}

/// Did the run fail? A failed or unreached case, a run error, a status that
/// was not understood, a coverage fault or a missing terminator.
pub open spec fn fold_failed(d: DocumentView, cover: Option<Seq<char>>) -> bool {
    ||| exists|i: int| 0 <= i < d.results.len() && (#[trigger] d.results[i]).status.is_failing()
    ||| d.run_errors.len() > 0
    ||| d.unknown_statuses.len() > 0
    ||| cover is Some
    ||| !d.terminated
}

/// The report on a folded stream, and whether the run failed.
#[derive(Debug, PartialEq, Eq)]
pub struct FoldReport {
    pub text: String,
    pub failed: bool,
}

fn push_result(text: &mut String, r: &CaseResult)
    ensures
        final(text)@ == old(text)@ + result_lines(r@),
{
    let ghost start = text@;
    match flag_of(r.status) {
        None => {
            assert(start + Seq::<char>::empty() =~= start);
        },
        Some(w) => {
            text.append(w);
            text.append(": ");
            text.append(r.case.as_str());
            match &r.detail {
                Some(d) => {
                    text.append(" — ");
                    text.append(d.as_str());
                },
                None => {},
            }
            text.append("\n");
            let ghost line = match r@.detail {
                Some(d) => w@ + ": "@ + r@.case + " — "@ + d + "\n"@,
                None => w@ + ": "@ + r@.case + "\n"@,
            };
            assert(text@ =~= start + line);
            let mut i: usize = 0;
            assert(text@ =~= start + (line + diagnostic_lines(r@.diagnostics, 0)));
            while i < r.diagnostics.len()
                invariant
                    i <= r.diagnostics@.len(),
                    text@ == start + (line + diagnostic_lines(r@.diagnostics, i as int)),
                decreases r.diagnostics.len() - i,
            {
                let ghost was = text@;
                text.append("    diag: ");
                text.append(r.diagnostics[i].as_str());
                text.append("\n");
                assert(r@.diagnostics[i as int] == r.diagnostics@[i as int]@);
                assert(text@ =~= start + (line + diagnostic_lines(r@.diagnostics, i + 1)));
                i += 1;
            }
            if !r.diagnostics_complete {
                text.append("    (diagnostics truncated)\n");
            }
            assert(text@ =~= start + result_lines(r@));
        },
    }
}

fn fold_lines(doc: &Document, cover: &Option<String>) -> (text: String)
    ensures
        text@ == fold_text(doc@, opt_text(*cover)),
{
    let ghost d = doc@;
    let mut text = owned("");
    proof {
        reveal_strlit("");
    }
    let mut words: Vec<String> = Vec::new();
    let mut i: usize = 0;
    assert(text@ =~= results_lines(d.results, 0));
    assert(views(words@) =~= status_words(d.results).take(0));
    while i < doc.results.len()
        invariant
            i <= doc.results@.len(),
            d == doc@,
            text@ == results_lines(d.results, i as int),
            views(words@) == status_words(d.results).take(i as int),
        decreases doc.results.len() - i,
    {
        assert(d.results[i as int] == doc.results@[i as int]@);
        push_result(&mut text, &doc.results[i]);
        let word = owned(doc.results[i].status.word());
        let ghost was = views(words@);
        let ghost wv = word@;
        words.push(word);
        assert(views(words@) =~= was.push(wv));
        assert(status_words(d.results).take(i + 1) =~= status_words(d.results).take(i as int).push(
            wv,
        ));
        i += 1;
    }
    assert(status_words(d.results).take(i as int) =~= status_words(d.results));
    let ghost results = text@;
    let mut e: usize = 0;
    assert(text@ =~= results + run_error_lines(d.run_errors, 0));
    while e < doc.run_errors.len()
        invariant
            e <= doc.run_errors@.len(),
            d == doc@,
            text@ == results + run_error_lines(d.run_errors, e as int),
        decreases doc.run_errors.len() - e,
    {
        assert(d.run_errors[e as int] == doc.run_errors@[e as int]@);
        text.append("RUN-ERROR: ");
        text.append(doc.run_errors[e].as_str());
        text.append("\n");
        assert(text@ =~= results + run_error_lines(d.run_errors, e + 1));
        e += 1;
    }
    let ghost errors = text@;
    let n = doc.unknown_statuses.len();
    let mut u: usize = 0;
    assert(text@ =~= errors + unknown_lines(d.unknown_statuses, 0));
    while u < n
        invariant
            u <= n,
            d == doc@,
            n == d.unknown_statuses.len(),
            text@ == errors + unknown_lines(d.unknown_statuses, u as int),
        decreases n - u,
    {
        text.append("UNKNOWN-STATUS: ");
        text.append(doc.unknown_statuses.key_at(u));
        text.append(" -> ");
        text.append(doc.unknown_statuses.value_at(u).as_str());
        text.append("\n");
        assert(text@ =~= errors + unknown_lines(d.unknown_statuses, u + 1));
        u += 1;
    }
    match cover {
        Some(c) => {
            text.append("COVERAGE: ");
            text.append(c.as_str());
            text.append("\n");
        },
        None => {},
    }
    text.append("\n");
    text.append(decimal_text(doc.results.len() as u128).as_str());
    text.append(" results (");
    text.append(if doc.terminated { "terminated): " } else { "NOT terminated): " });
    text.append(tally_of(&words).as_str());
    text.append("\n");
    assert(d.results.len() == doc.results@.len());
    assert(text@ =~= fold_text(doc@, opt_text(*cover)));
    text
}

fn any_result_failing(results: &[CaseResult]) -> (r: bool)
    ensures
        r == exists|i: int|
            0 <= i < results@.len() && (#[trigger] case_views(results@)[i]).status.is_failing(),
{
    let ghost rs = case_views(results@);
    for i in 0..results.len()
        invariant
            rs == case_views(results@),
            forall|k: int| 0 <= k < i ==> !(#[trigger] rs[k]).status.is_failing(),
    {
        assert(rs[i as int] == results@[i as int]@);
        if results[i].status.failing() {
            return true;
        }
    }
    false
}

/// The report on a folded stream. With a lockfile in hand, coverage is part
/// of acceptance: every case reported exactly once, and leaves under their
/// prefix.
pub fn report_fold(doc: &Document, lockfile: Option<&Lockfile>) -> (r: FoldReport)
    ensures
        r.text@ == fold_text(doc@, coverage(opt_lock(lockfile), doc@.results)),
        r.failed == fold_failed(doc@, coverage(opt_lock(lockfile), doc@.results)),
{
    let mut names: Vec<String> = Vec::new();
    let mut i: usize = 0;
    assert(views(names@) =~= case_names(doc@.results).take(0));
    while i < doc.results.len()
        invariant
            i <= doc.results@.len(),
            views(names@) == case_names(doc@.results).take(i as int),
        decreases doc.results.len() - i,
    {
        let name = doc.results[i].case.clone();
        let ghost was = views(names@);
        let ghost nv = name@;
        names.push(name);
        assert(views(names@) =~= was.push(nv));
        assert(doc@.results[i as int] == doc.results@[i as int]@);
        assert(case_names(doc@.results).take(i + 1) =~= case_names(doc@.results).take(
            i as int,
        ).push(nv));
        i += 1;
    }
    assert(case_names(doc@.results).take(i as int) =~= case_names(doc@.results));
    proof {
        lemma_texts_of_strings(names@);
    }
    let cover: Option<String> = match lockfile {
        Some(l) => match l.check_coverage(&names) {
            Ok(_) => None,
            Err(e) => Some(e),
        },
        None => None,
    };
    assert(opt_text(cover) == coverage(opt_lock(lockfile), doc@.results));
    let text = fold_lines(doc, &cover);
    let failed = any_result_failing(&doc.results) || doc.run_errors.len() > 0
        || doc.unknown_statuses.len() > 0 || cover.is_some() || !doc.terminated;
    assert(doc@.run_errors.len() == doc.run_errors@.len());
    assert(doc@.results == case_views(doc.results@));
    FoldReport { text, failed }
}

// ---------------------------------------------------------------------
// A joined corpus
// ---------------------------------------------------------------------

/// What goes to the error stream: the warnings, then the errors.
pub open spec fn complaints(a: AggregateView) -> Seq<Seq<char>> {
    Seq::new(a.warnings.len(), |i: int| "warning: "@ + a.warnings[i]) + Seq::new(
        a.errors.len(),
        |i: int| "error: "@ + a.errors[i],
    )
}

/// How many of the first `n` results of a target are failures of the corpus.
pub open spec fn failing_in(a: AggregateView, target: Seq<char>, m: CaseTable, n: int) -> nat
    decreases n,
{
    if n <= 0 {
        0
    } else {
        failing_in(a, target, m, n - 1) + if corpus_failing(a, target, m[n - 1].1) {
            1nat
        } else {
            0nat
        }
    }
}

/// How many results of the first `n` targets are failures of the corpus.
pub open spec fn failing_among(a: AggregateView, n: int) -> nat
    decreases n,
{
    if n <= 0 {
        0
    } else {
        failing_among(a, n - 1) + failing_in(
            a,
            a.results[n - 1].0,
            a.results[n - 1].1,
            a.results[n - 1].1.len() as int,
        )
    }
}

/// How many results the first `n` targets have.
pub open spec fn results_among(a: AggregateView, n: int) -> nat
    decreases n,
{
    if n <= 0 { 0 } else { results_among(a, n - 1) + a.results[n - 1].1.len() }
}

/// The closing line on a joined corpus.
pub open spec fn aggregate_line(a: AggregateView, output: Option<Seq<char>>) -> Seq<char> {
    let all = a.results.len() as int;
    let known = expected_among(a.assessments, a.assessments.len() as int);
    let expected = if known > 0 { " ("@ + decimal(known) + " expected-fail)"@ } else { Seq::empty() };
    let wrote = match output {
        Some(p) => "; wrote "@ + p,
        None => Seq::empty(),
    };
    decimal(a.targets.len()) + " targets, "@ + decimal(results_among(a, all)) + " results, "@
        + decimal(failing_among(a, all)) + " failing"@ + expected + ", "@ + decimal(a.errors.len())
        + " validation error(s)"@ + wrote
}

fn push_all(out: &mut Vec<String>, head: &str, items: &[String])
    ensures
        views(final(out)@) == views(old(out)@) + Seq::new(
            items@.len(),
            |i: int| head@ + views(items@)[i],
        ),
{
    let ghost start = views(out@);
    let ghost all = Seq::new(items@.len(), |i: int| head@ + views(items@)[i]);
    assert(views(out@) =~= start + all.take(0));
    let mut i: usize = 0;
    while i < items.len()
        invariant
            i <= items@.len(),
            all == Seq::new(items@.len(), |i: int| head@ + views(items@)[i]),
            views(out@) == start + all.take(i as int),
        decreases items.len() - i,
    {
        let mut line = owned(head);
        line.append(items[i].as_str());
        let ghost was = views(out@);
        let ghost lv = line@;
        out.push(line);
        assert(views(out@) =~= was.push(lv));
        assert(views(items@)[i as int] == items@[i as int]@);
        assert(all.take(i + 1) =~= all.take(i as int).push(lv));
        assert(start + all.take(i + 1) =~= (start + all.take(i as int)).push(lv));
        i += 1;
    }
    assert(all.take(i as int) =~= all);
}

/// What goes to the error stream: the warnings, then the errors.
pub fn complaints_of(agg: &Aggregate) -> (r: Vec<String>)
    ensures
        views(r@) == complaints(agg@),
{
    let mut r: Vec<String> = Vec::new();
    push_all(&mut r, "warning: ", &agg.warnings);
    push_all(&mut r, "error: ", &agg.errors);
    assert(views(r@) =~= complaints(agg@));
    r
}

/// The counts of a joined corpus: its results, and those that fail.
fn counts_of(agg: &Aggregate) -> (r: (u128, u128))
    ensures
        r.0 == results_among(agg@, agg@.results.len() as int),
        r.1 == failing_among(agg@, agg@.results.len() as int),
{
    let n = agg.results.len();
    let mut total: u128 = 0;
    let mut failing: u128 = 0;
    let mut i: usize = 0;
    while i < n
        invariant
            i <= n,
            n == agg@.results.len(),
            total == results_among(agg@, i as int),
            failing == failing_among(agg@, i as int),
            failing <= total <= i * 0xffff_ffff_ffff_ffff,
        decreases n - i,
    {
        let target = agg.results.key_at(i);
        let cases = agg.results.value_at(i);
        let len = cases.len();
        let mut count: usize = 0;
        let mut k: usize = 0;
        while k < len
            invariant
                k <= len,
                count <= k,
                len == cases@.len(),
                count == failing_in(agg@, target@, cases@, k as int),
            decreases len - k,
        {
            if agg.result_failing(target, cases.value_at(k)) {
                count += 1;
            }
            k += 1;
        }
        assert(i * 0xffff_ffff_ffff_ffff + 0xffff_ffff_ffff_ffff == (i + 1)
            * 0xffff_ffff_ffff_ffff) by (nonlinear_arith);
        assert((i + 1) * 0xffff_ffff_ffff_ffff <= 0xffff_ffff_ffff_ffff * 0xffff_ffff_ffff_ffff)
            by (nonlinear_arith)
            requires
                i + 1 <= 0xffff_ffff_ffff_ffff,
        ;
        total += len as u128;
        failing += count as u128;
        i += 1;
    }
    (total, failing)
}

/// The closing line on a joined corpus.
pub fn aggregate_summary(agg: &Aggregate, output: Option<&str>) -> (r: String)
    ensures
        r@ == aggregate_line(
            agg@,
            match output {
                Some(p) => Some(p@),
                None => None,
            },
        ),
{
    let (total, failing) = counts_of(agg);
    let known = agg.expected_fail_count();
    let mut r = decimal_text(agg.targets.len() as u128);
    r.append(" targets, ");
    r.append(decimal_text(total).as_str());
    r.append(" results, ");
    r.append(decimal_text(failing).as_str());
    r.append(" failing");
    if known > 0 {
        r.append(" (");
        r.append(decimal_text(known).as_str());
        r.append(" expected-fail)");
    }
    r.append(", ");
    r.append(decimal_text(agg.errors.len() as u128).as_str());
    r.append(" validation error(s)");
    match output {
        Some(p) => {
            r.append("; wrote ");
            r.append(p);
        },
        None => {},
    }
    assert(agg@.targets.len() == agg.targets@.len());
    assert(agg@.errors.len() == agg.errors@.len());
    assert(r@ =~= aggregate_line(
        agg@,
        match output {
            Some(p) => Some(p@),
            None => None,
        },
    ));
    r
}

/// The counts of a joined corpus.
#[derive(Debug, Clone, Copy, PartialEq, Eq, Structural)]
pub struct Totals {
    pub targets: usize,
    pub results: u128,
    pub failing: u128,
    pub expected_fail: u128,
    pub ok: bool,
}

/// The counts of a joined corpus: the same that the closing line gives.
pub fn totals_of(agg: &Aggregate) -> (r: Totals)
    ensures
        r.targets == agg@.targets.len(),
        r.results == results_among(agg@, agg@.results.len() as int),
        r.failing == failing_among(agg@, agg@.results.len() as int),
        r.expected_fail == expected_among(agg@.assessments, agg@.assessments.len() as int),
        r.ok == (agg@.errors.len() == 0 && !any_failing(agg@)),
{
    let (results, failing) = counts_of(agg);
    assert(agg@.targets.len() == agg.targets@.len());
    Totals {
        targets: agg.targets.len(),
        results,
        failing,
        expected_fail: agg.expected_fail_count(),
        ok: agg.ok(),
    }
}

// ---------------------------------------------------------------------
// Laws
// ---------------------------------------------------------------------

proof fn lemma_failing_in(a: AggregateView, target: Seq<char>, m: CaseTable, n: int)
    requires
        0 <= n <= m.len(),
    ensures
        failing_in(a, target, m, n) == 0 <==> forall|k: int|
            0 <= k < n ==> !corpus_failing(a, target, (#[trigger] m[k]).1),
    decreases n,
{
    if n > 0 {
        lemma_failing_in(a, target, m, n - 1);
        if forall|k: int| 0 <= k < n - 1 ==> !corpus_failing(a, target, (#[trigger] m[k]).1) {
            assert(forall|k: int|
                0 <= k < n - 1 ==> !corpus_failing(a, target, (#[trigger] m[k]).1));
        } else {
            let k = choose|k: int|
                0 <= k < n - 1 && corpus_failing(a, target, (#[trigger] m[k]).1);
            assert(corpus_failing(a, target, m[k].1));
        }
        assert(corpus_failing(a, target, m[n - 1].1) ==> !(forall|k: int|
            0 <= k < n ==> !corpus_failing(a, target, (#[trigger] m[k]).1)));
    }
}

proof fn lemma_failing_among(a: AggregateView, n: int)
    requires
        0 <= n <= a.results.len(),
    ensures
        failing_among(a, n) == 0 <==> forall|i: int, k: int|
            0 <= i < n && 0 <= k < a.results[i].1.len() ==> !corpus_failing(
                a,
                a.results[i].0,
                (#[trigger] a.results[i].1[k]).1,
            ),
    decreases n,
{
    if n > 0 {
        lemma_failing_among(a, n - 1);
        let (t, m) = a.results[n - 1];
        lemma_failing_in(a, t, m, m.len() as int);
        if failing_among(a, n) == 0 {
            assert forall|i: int, k: int|
                0 <= i < n && 0 <= k < a.results[i].1.len() implies !corpus_failing(
                a,
                a.results[i].0,
                (#[trigger] a.results[i].1[k]).1,
            ) by {
                if i == n - 1 {
                    assert(m[k] == a.results[i].1[k]);
                }
            }
        } else if failing_in(a, t, m, m.len() as int) > 0 {
            let k = choose|k: int| 0 <= k < m.len() && corpus_failing(a, t, (#[trigger] m[k]).1);
            assert(a.results[n - 1].1[k] == m[k]);
        }
    }
}

/// The closing line counts no failure exactly where there is none.
pub proof fn law_failures_counted(a: AggregateView)
    ensures
        failing_among(a, a.results.len() as int) == 0 <==> !any_failing(a),
{
    lemma_failing_among(a, a.results.len() as int);
}

/// An unterminated stream never passes, whatever it reports.
pub proof fn law_unterminated_fails(d: DocumentView, cover: Option<Seq<char>>)
    requires
        !d.terminated,
    ensures
        fold_failed(d, cover),
{
}

/// A stream with a failed or unreached case never passes.
pub proof fn law_failing_case_fails(d: DocumentView, cover: Option<Seq<char>>, i: int)
    requires
        0 <= i < d.results.len(),
        d.results[i].status.is_failing(),
    ensures
        fold_failed(d, cover),
{
}

/// A run fails exactly where a case failed or was not reached, the run had an
/// error, a status was not understood, the stream did not end, or, with a
/// lockfile in hand, a case was left out, reported twice or is none of the
/// suite's. Skipped, not-applicable and deselected cases fail nothing.
pub proof fn law_run_fails_exactly_on_trouble(d: DocumentView, l: Option<LockView>)
    requires
        l is Some ==> rows_apart(l->0.generated),
    ensures
        fold_failed(d, coverage(l, d.results)) <==> {
            ||| exists|i: int|
                0 <= i < d.results.len() && ((#[trigger] d.results[i]).status is Fail
                    || d.results[i].status is NotReached)
            ||| d.run_errors.len() > 0
            ||| d.unknown_statuses.len() > 0
            ||| !d.terminated
            ||| l is Some && exists|i: int, j: int|
                0 <= i < j < d.results.len() && (#[trigger] d.results[i]).case == (
                #[trigger] d.results[j]).case
            ||| l is Some && exists|i: int|
                0 <= i < d.results.len() && !may_be_reported(l->0, (#[trigger] d.results[i]).case)
            ||| l is Some && exists|name: Seq<char>| #[trigger]
                must_be_reported(l->0, name) && forall|i: int|
                    0 <= i < d.results.len() ==> (#[trigger] d.results[i]).case != name
        },
{
    let names = case_names(d.results);
    if l is Some {
        law_coverage_fault(l->0, names);
        assert forall|i: int| 0 <= i < names.len() implies #[trigger] names[i]
            == d.results[i].case by {}
        assert(names.no_duplicates() <==> !exists|i: int, j: int|
            0 <= i < j < d.results.len() && (#[trigger] d.results[i]).case == (
            #[trigger] d.results[j]).case) by {
            if exists|i: int, j: int|
                0 <= i < j < d.results.len() && (#[trigger] d.results[i]).case == (
                #[trigger] d.results[j]).case {
                let (i, j) = choose|i: int, j: int|
                    0 <= i < j < d.results.len() && (#[trigger] d.results[i]).case == (
                    #[trigger] d.results[j]).case;
                assert(names[i] == names[j]);
            } else {
                assert forall|i: int, j: int|
                    0 <= i < names.len() && 0 <= j < names.len() && i != j implies names[i]
                    != names[j] by {
                    if names[i] == names[j] {
                        if i < j {
                            assert(d.results[i].case == d.results[j].case);
                        } else {
                            assert(d.results[j].case == d.results[i].case);
                        }
                    }
                }
            }
        }
        assert((forall|i: int| 0 <= i < names.len() ==> may_be_reported(l->0, #[trigger] names[i]))
            <==> !exists|i: int|
            0 <= i < d.results.len() && !may_be_reported(l->0, (#[trigger] d.results[i]).case)) by {
            if forall|i: int| 0 <= i < names.len() ==> may_be_reported(l->0, #[trigger] names[i]) {
                assert forall|i: int| 0 <= i < d.results.len() implies may_be_reported(
                    l->0,
                    (#[trigger] d.results[i]).case,
                ) by {
                    assert(may_be_reported(l->0, names[i]));
                }
            } else {
                let i = choose|i: int|
                    0 <= i < names.len() && !may_be_reported(l->0, #[trigger] names[i]);
                assert(!may_be_reported(l->0, d.results[i].case));
            }
        }
        assert forall|name: Seq<char>| #[trigger] names.contains(name) <==> exists|i: int|
            0 <= i < d.results.len() && (#[trigger] d.results[i]).case == name by {
            if names.contains(name) {
                let i = choose|i: int| 0 <= i < names.len() && names[i] == name;
                assert(d.results[i].case == name);
            }
            if exists|i: int| 0 <= i < d.results.len() && (#[trigger] d.results[i]).case == name {
                let i = choose|i: int|
                    0 <= i < d.results.len() && (#[trigger] d.results[i]).case == name;
                assert(names[i] == name);
            }
        }
        if coverage_fault(l->0, names) is Some && names.no_duplicates() && forall|i: int|
            0 <= i < names.len() ==> may_be_reported(l->0, #[trigger] names[i]) {
            let name = choose|name: Seq<char>| #[trigger]
                must_be_reported(l->0, name) && !names.contains(name);
            assert(must_be_reported(l->0, name));
        }
        if coverage_fault(l->0, names) is None {
            assert forall|name: Seq<char>| #[trigger] must_be_reported(l->0, name) implies !(forall|i: int|
                0 <= i < d.results.len() ==> (#[trigger] d.results[i]).case != name) by {
                assert(names.contains(name));
            }
        }
    }
}

/// A clean stream passes: one that ended, without run errors and without
/// statuses that were not understood, whose coverage has no fault, and whose
/// cases all passed, were skipped, do not apply or were deselected.
pub proof fn law_clean_stream_passes(d: DocumentView, cover: Option<Seq<char>>)
    requires
        d.terminated,
        d.run_errors.len() == 0,
        d.unknown_statuses.len() == 0,
        cover is None,
        forall|i: int|
            0 <= i < d.results.len() ==> (#[trigger] d.results[i]).status is Pass
                || d.results[i].status is Skipped || d.results[i].status is NotApplicable
                || d.results[i].status is Deselected,
    ensures
        !fold_failed(d, cover),
{
}

proof fn lemma_diagnostic_lines(ds: Seq<Seq<char>>, n: int)
    requires
        0 <= n <= ds.len(),
    ensures
        diagnostic_lines(ds, n) == ds.take(n).map_values(
            |x: Seq<char>| "    diag: "@ + x + "\n"@,
        ).flatten_alt(),
    decreases n,
{
    let f = |x: Seq<char>| "    diag: "@ + x + "\n"@;
    if n > 0 {
        lemma_diagnostic_lines(ds, n - 1);
        assert(ds.take(n).map_values(f).drop_last() =~= ds.take(n - 1).map_values(f));
        assert(ds.take(n).map_values(f).last() == f(ds[n - 1]));
        assert(diagnostic_lines(ds, n) =~= diagnostic_lines(ds, n - 1) + f(ds[n - 1]));
    } else {
        assert(ds.take(0).map_values(f) =~= Seq::empty());
    }
}

/// The lines that a result gets: none where it passed, and else its flag, its
/// name, its detail, each of its diagnostics, and whether some are lost.
pub open spec fn shown(r: CaseView) -> Seq<char> {
    let word = match r.status {
        Status::Fail => "FAIL"@,
        Status::Skipped => "SKIP"@,
        Status::NotReached => "NOT-REACHED"@,
        Status::NotApplicable => "N/A"@,
        _ => "DESELECTED"@,
    };
    let detail = match r.detail {
        Some(d) => " — "@ + d,
        None => Seq::empty(),
    };
    let lost = if r.diagnostics_complete {
        Seq::empty()
    } else {
        "    (diagnostics truncated)\n"@
    };
    word + ": "@ + r.case + detail + "\n"@ + r.diagnostics.map_values(
        |x: Seq<char>| "    diag: "@ + x + "\n"@,
    ).flatten_alt() + lost
}

proof fn lemma_shown(r: CaseView)
    ensures
        result_lines(r) == (if r.status is Pass {
            Seq::empty()
        } else {
            shown(r)
        }),
{
    lemma_diagnostic_lines(r.diagnostics, r.diagnostics.len() as int);
    assert(r.diagnostics.take(r.diagnostics.len() as int) =~= r.diagnostics);
    if !(r.status is Pass) {
        assert(result_lines(r) =~= shown(r));
    }
}

proof fn lemma_results_lines(rs: Seq<CaseView>, n: int)
    requires
        0 <= n <= rs.len(),
    ensures
        results_lines(rs, n) == rs.take(n).filter(
            |r: CaseView| !(r.status is Pass),
        ).map_values(|r: CaseView| shown(r)).flatten_alt(),
    decreases n,
{
    reveal(Seq::filter);
    let p = |r: CaseView| !(r.status is Pass);
    let f = |r: CaseView| shown(r);
    if n > 0 {
        lemma_results_lines(rs, n - 1);
        lemma_shown(rs[n - 1]);
        assert(rs.take(n).drop_last() =~= rs.take(n - 1));
        let init = rs.take(n - 1).filter(p);
        let all = rs.take(n).filter(p);
        if p(rs[n - 1]) {
            assert(all.map_values(f).drop_last() =~= init.map_values(f));
            assert(all.map_values(f).last() == shown(rs[n - 1]));
        } else {
            assert(results_lines(rs, n) =~= results_lines(rs, n - 1));
        }
    } else {
        assert(rs.take(0).filter(p).map_values(f) =~= Seq::empty());
    }
}

proof fn lemma_run_error_lines(es: Seq<Seq<char>>, n: int)
    requires
        0 <= n <= es.len(),
    ensures
        run_error_lines(es, n) == es.take(n).map_values(
            |x: Seq<char>| "RUN-ERROR: "@ + x + "\n"@,
        ).flatten_alt(),
    decreases n,
{
    let f = |x: Seq<char>| "RUN-ERROR: "@ + x + "\n"@;
    if n > 0 {
        lemma_run_error_lines(es, n - 1);
        assert(es.take(n).map_values(f).drop_last() =~= es.take(n - 1).map_values(f));
        assert(es.take(n).map_values(f).last() == f(es[n - 1]));
        assert(run_error_lines(es, n) =~= run_error_lines(es, n - 1) + f(es[n - 1]));
    } else {
        assert(es.take(0).map_values(f) =~= Seq::empty());
    }
}

proof fn lemma_unknown_lines(us: Seq<(Seq<char>, Seq<char>)>, n: int)
    requires
        0 <= n <= us.len(),
    ensures
        unknown_lines(us, n) == us.take(n).map_values(
            |x: (Seq<char>, Seq<char>)| "UNKNOWN-STATUS: "@ + x.0 + " -> "@ + x.1 + "\n"@,
        ).flatten_alt(),
    decreases n,
{
    let f = |x: (Seq<char>, Seq<char>)| "UNKNOWN-STATUS: "@ + x.0 + " -> "@ + x.1 + "\n"@;
    if n > 0 {
        lemma_unknown_lines(us, n - 1);
        assert(us.take(n).map_values(f).drop_last() =~= us.take(n - 1).map_values(f));
        assert(us.take(n).map_values(f).last() == f(us[n - 1]));
        assert(unknown_lines(us, n) =~= unknown_lines(us, n - 1) + f(us[n - 1]));
    } else {
        assert(us.take(0).map_values(f) =~= Seq::empty());
    }
}

/// The report shows every result that did not pass, every run error and every
/// status that was not understood, in order, then the coverage fault, and
/// closes with the number of results, whether the stream ended, and how many
/// there are of each status.
pub proof fn law_report_shows_everything(d: DocumentView, cover: Option<Seq<char>>)
    ensures
        fold_text(d, cover) == d.results.filter(|r: CaseView| !(r.status is Pass)).map_values(
            |r: CaseView| shown(r),
        ).flatten_alt() + d.run_errors.map_values(
            |x: Seq<char>| "RUN-ERROR: "@ + x + "\n"@,
        ).flatten_alt() + d.unknown_statuses.map_values(
            |x: (Seq<char>, Seq<char>)| "UNKNOWN-STATUS: "@ + x.0 + " -> "@ + x.1 + "\n"@,
        ).flatten_alt() + (match cover {
            Some(e) => "COVERAGE: "@ + e + "\n"@,
            None => Seq::empty(),
        }) + "\n"@ + decimal(d.results.len()) + " results ("@ + (if d.terminated {
            "terminated): "@
        } else {
            "NOT terminated): "@
        }) + tally_text(d.results.map_values(|r: CaseView| r.status.text())) + "\n"@,
{
    lemma_results_lines(d.results, d.results.len() as int);
    lemma_run_error_lines(d.run_errors, d.run_errors.len() as int);
    lemma_unknown_lines(d.unknown_statuses, d.unknown_statuses.len() as int);
    assert(d.results.take(d.results.len() as int) =~= d.results);
    assert(d.run_errors.take(d.run_errors.len() as int) =~= d.run_errors);
    assert(d.unknown_statuses.take(d.unknown_statuses.len() as int) =~= d.unknown_statuses);
    assert(status_words(d.results) =~= d.results.map_values(|r: CaseView| r.status.text()));
}

/// Is a result a failure of the corpus: failed or not reached, and not
/// assessed as failing as declared?
pub open spec fn counts_as_failure(a: AggregateView, target: Seq<char>, r: CaseView) -> bool {
    (r.status is Fail || r.status is NotReached) && match lookup(a.assessments, target) {
        Some(m) => !(lookup(m, r.case) is Some && lookup(m, r.case)->0 is ExpectedFail),
        None => true,
    }
}

proof fn lemma_failing_count(a: AggregateView, target: Seq<char>, m: CaseTable, n: int)
    requires
        0 <= n <= m.len(),
    ensures
        failing_in(a, target, m, n) == m.take(n).filter(
            |e: (Seq<char>, CaseView)| counts_as_failure(a, target, e.1),
        ).len(),
    decreases n,
{
    reveal(Seq::filter);
    if n > 0 {
        lemma_failing_count(a, target, m, n - 1);
        assert(m.take(n).drop_last() =~= m.take(n - 1));
    }
}

proof fn lemma_counts(a: AggregateView, n: int)
    requires
        0 <= n <= a.results.len(),
    ensures
        failing_among(a, n) == a.results.take(n).map_values(
            |e: (Seq<char>, CaseTable)| e.1.filter(
                |x: (Seq<char>, CaseView)| counts_as_failure(a, e.0, x.1),
            ),
        ).flatten_alt().len(),
        results_among(a, n) == a.results.take(n).map_values(
            |e: (Seq<char>, CaseTable)| e.1,
        ).flatten_alt().len(),
    decreases n,
{
    let f = |e: (Seq<char>, CaseTable)| e.1.filter(
        |x: (Seq<char>, CaseView)| counts_as_failure(a, e.0, x.1),
    );
    let g = |e: (Seq<char>, CaseTable)| e.1;
    if n > 0 {
        lemma_counts(a, n - 1);
        let e = a.results[n - 1];
        lemma_failing_count(a, e.0, e.1, e.1.len() as int);
        assert(e.1.take(e.1.len() as int) =~= e.1);
        assert(a.results.take(n).map_values(f).drop_last() =~= a.results.take(n - 1).map_values(f));
        assert(a.results.take(n).map_values(f).last() == f(e));
        assert(a.results.take(n).map_values(g).drop_last() =~= a.results.take(n - 1).map_values(g));
        assert(a.results.take(n).map_values(g).last() == g(e));
    } else {
        assert(a.results.take(0).map_values(f) =~= Seq::empty());
        assert(a.results.take(0).map_values(g) =~= Seq::empty());
    }
}

proof fn lemma_expected_count(m: AssessmentTable, n: int)
    requires
        0 <= n <= m.len(),
    ensures
        expected_in(m, n) == m.take(n).filter(
            |e: (Seq<char>, AssessmentView)| e.1 is ExpectedFail,
        ).len(),
    decreases n,
{
    reveal(Seq::filter);
    if n > 0 {
        lemma_expected_count(m, n - 1);
        assert(m.take(n).drop_last() =~= m.take(n - 1));
    }
}

proof fn lemma_expected_counts(s: Seq<(Seq<char>, AssessmentTable)>, n: int)
    requires
        0 <= n <= s.len(),
    ensures
        expected_among(s, n) == s.take(n).map_values(
            |e: (Seq<char>, AssessmentTable)| e.1.filter(
                |x: (Seq<char>, AssessmentView)| x.1 is ExpectedFail,
            ),
        ).flatten_alt().len(),
    decreases n,
{
    let f = |e: (Seq<char>, AssessmentTable)| e.1.filter(
        |x: (Seq<char>, AssessmentView)| x.1 is ExpectedFail,
    );
    if n > 0 {
        lemma_expected_counts(s, n - 1);
        let e = s[n - 1];
        lemma_expected_count(e.1, e.1.len() as int);
        assert(e.1.take(e.1.len() as int) =~= e.1);
        assert(s.take(n).map_values(f).drop_last() =~= s.take(n - 1).map_values(f));
        assert(s.take(n).map_values(f).last() == f(e));
    } else {
        assert(s.take(0).map_values(f) =~= Seq::empty());
    }
}

/// The counts of a joined corpus are what they say: all results of all
/// targets, those among them that failed or were not reached and are not
/// assessed as failing as declared, and the failures that are.
pub proof fn law_counts(a: AggregateView)
    ensures
        results_among(a, a.results.len() as int) == a.results.map_values(
            |e: (Seq<char>, CaseTable)| e.1,
        ).flatten_alt().len(),
        failing_among(a, a.results.len() as int) == a.results.map_values(
            |e: (Seq<char>, CaseTable)| e.1.filter(
                |x: (Seq<char>, CaseView)| counts_as_failure(a, e.0, x.1),
            ),
        ).flatten_alt().len(),
        expected_among(a.assessments, a.assessments.len() as int) == a.assessments.map_values(
            |e: (Seq<char>, AssessmentTable)| e.1.filter(
                |x: (Seq<char>, AssessmentView)| x.1 is ExpectedFail,
            ),
        ).flatten_alt().len(),
{
    lemma_counts(a, a.results.len() as int);
    lemma_expected_counts(a.assessments, a.assessments.len() as int);
    assert(a.results.take(a.results.len() as int) =~= a.results);
    assert(a.assessments.take(a.assessments.len() as int) =~= a.assessments);
}

/// There is a failure of the corpus exactly where a result of some target
/// failed or was not reached and is not assessed as failing as declared.
pub proof fn law_any_failing(a: AggregateView)
    ensures
        any_failing(a) <==> exists|i: int, k: int|
            0 <= i < a.results.len() && 0 <= k < a.results[i].1.len() && counts_as_failure(
                a,
                a.results[i].0,
                (#[trigger] a.results[i].1[k]).1,
            ),
{
    assert forall|t: Seq<char>, r: CaseView| corpus_failing(a, t, r) == #[trigger] counts_as_failure(
        a,
        t,
        r,
    ) by {}
    if any_failing(a) {
        let (i, k) = choose|i: int, k: int|
            0 <= i < a.results.len() && 0 <= k < a.results[i].1.len() && corpus_failing(
                a,
                a.results[i].0,
                (#[trigger] a.results[i].1[k]).1,
            );
        assert(counts_as_failure(a, a.results[i].0, a.results[i].1[k].1));
    }
    if exists|i: int, k: int|
        0 <= i < a.results.len() && 0 <= k < a.results[i].1.len() && counts_as_failure(
            a,
            a.results[i].0,
            (#[trigger] a.results[i].1[k]).1,
        ) {
        let (i, k) = choose|i: int, k: int|
            0 <= i < a.results.len() && 0 <= k < a.results[i].1.len() && counts_as_failure(
                a,
                a.results[i].0,
                (#[trigger] a.results[i].1[k]).1,
            );
        assert(corpus_failing(a, a.results[i].0, a.results[i].1[k].1));
    }
}

} // verus!
