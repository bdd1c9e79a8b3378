//! The composed runner core: every case of the suite in turn, reported as
//! it goes.

use vstd::prelude::*;

use crate::results::{Envelope, EnvelopeView, RunInfo, RunView, SuiteInfo, SuiteView, RESULTS_VERSION};
use crate::runner::{
    case_of, line_of, served_case, served_line, Output, OutputView,
};
use crate::session::{CaseVerdict, Served, VerdictView};
use crate::text::{decimal, decimal_text, owned, views};

verus! {

/// The header of a composed run. It knows neither the suite's name nor its
/// artifact, and it executes every case: it cannot see any marks to schedule
/// by, and says so.
pub open spec fn composed_header() -> EnvelopeView {
    EnvelopeView {
        version: RESULTS_VERSION@,
        target: "composed-cli"@,
        suite: SuiteView {
            name: "composed"@,
            artifact_sha256: None,
            lockfile_sha256: None,
        },
        run: RunView { id: None, started: None, segment: 0, scheduling: Some("none"@) },
    }
}

/// The header of a composed run.
pub fn composed_envelope() -> (r: Envelope)
    ensures
        r@ == composed_header(),
        !r@.scheduled(),
{
    Envelope {
        version: owned(RESULTS_VERSION),
        target: owned("composed-cli"),
        suite: SuiteInfo { name: owned("composed"), artifact_sha256: None, lockfile_sha256: None },
        run: RunInfo { id: None, started: None, segment: 0, scheduling: Some(owned("none")) },
    }
}

/// A composed run in progress: how many cases it has, and what those so far
/// came to.
pub struct ComposedRun {
    human: bool,
    total: usize,
    passed: usize,
    failed: usize,
    skipped: usize,
}

/// A [`ComposedRun`] as numbers.
#[verifier::ext_equal]
pub struct ComposedState {
    pub human: bool,
    pub total: int,
    pub passed: int,
    pub failed: int,
    pub skipped: int,
}

impl View for ComposedRun {
    type V = ComposedState;

    closed spec fn view(&self) -> ComposedState {
        ComposedState {
            human: self.human,
            total: self.total as int,
            passed: self.passed as int,
            failed: self.failed as int,
            skipped: self.skipped as int,
        }
    }
}

impl ComposedState {
    /// How many cases are done.
    pub open spec fn done(self) -> int {
        self.passed + self.failed + self.skipped
    }
}

/// The state with one more verdict.
pub open spec fn with_verdict(s: ComposedState, v: VerdictView) -> ComposedState {
    match v {
        VerdictView::Pass => ComposedState { passed: s.passed + 1, ..s },
        VerdictView::Skip(_) => ComposedState { skipped: s.skipped + 1, ..s },
        _ => ComposedState { failed: s.failed + 1, ..s },
    }
}

/// The closing line for people.
pub open spec fn composed_line(s: ComposedState) -> Seq<char> {
    "\nresult: "@ + decimal(s.passed as nat) + " passed, "@ + decimal(s.failed as nat)
        + " failed, "@ + decimal(s.skipped as nat) + " skipped, "@ + decimal(s.total as nat)
        + " total"@
}

/// Did the run succeed? An empty suite never does.
pub open spec fn succeeded(s: ComposedState) -> bool {
    s.failed == 0 && s.total > 0
}

/// One line of output.
pub open spec fn lines_or_nothing(human: bool, line: Seq<char>) -> OutputView {
    OutputView::Lines(if human { seq![line] } else { seq![] })
}

fn maybe_line(human: bool, line: String) -> (r: Output)
    ensures
        r@ == lines_or_nothing(human, line@),
{
    let mut v: Vec<String> = Vec::new();
    let ghost lv = line@;
    assert(views(v@) =~= seq![]);
    if human {
        v.push(line);
        assert(views(v@) =~= seq![lv]);
    }
    Output::Lines(v)
}

impl ComposedRun {
    /// No more cases are done than there are.
    #[verifier::type_invariant]
    spec fn well_formed(self) -> bool {
        self.passed + self.failed + self.skipped <= self.total
    }

    /// Begin a run of `total` cases.
    pub fn new(human: bool, total: usize) -> (r: Self)
        ensures
            r@ == (ComposedState { human, total: total as int, passed: 0, failed: 0, skipped: 0 }),
    {
        ComposedRun { human, total, passed: 0, failed: 0, skipped: 0 }
    }

    /// What to put out before a case runs.
    pub fn announce(&self, name: &str) -> (r: Output)
        ensures
            r@ == lines_or_nothing(self@.human, "test "@ + name@ + " ..."@),
    {
        let mut line = owned("test ");
        line.append(name);
        line.append(" ...");
        maybe_line(self.human, line)
    }

    /// What to put out at once for a diagnostic of the running case.
    pub fn diagnostic(&self, message: &str) -> (r: Output)
        ensures
            r@ == lines_or_nothing(self@.human, "    diag: "@ + message@),
    {
        let mut line = owned("    diag: ");
        line.append(message);
        maybe_line(self.human, line)
    }

    /// Take in what a case came to, and give what to put out.
    pub fn served(&mut self, case: &Served) -> (r: Output)
        requires
            old(self)@.done() < old(self)@.total,
        ensures
            final(self)@ == with_verdict(old(self)@, case@.verdict),
            r@ == if old(self)@.human {
                OutputView::Lines(seq![served_line(case@)])
            } else {
                OutputView::Case(served_case(case@))
            },
    {
        proof {
            use_type_invariant(&*self);
        }
        match &case.verdict {
            CaseVerdict::Pass => {
                self.passed = self.passed + 1;
            },
            CaseVerdict::Skip(_) => {
                self.skipped = self.skipped + 1;
            },
            _ => {
                self.failed = self.failed + 1;
            },
        }
        if self.human {
            maybe_line(true, line_of(case))
        } else {
            Output::Case(case_of(case))
        }
    }

    /// What to put out at the end, and whether the run succeeded.
    pub fn finish(&self) -> (r: (Output, bool))
        ensures
            r.0@ == if self@.human {
                OutputView::Lines(seq![composed_line(self@)])
            } else {
                OutputView::Terminator
            },
            r.1 == succeeded(self@),
    {
        let ok = self.failed == 0 && self.total > 0;
        if !self.human {
            return (Output::Terminator, ok);
        }
        let mut line = owned("\nresult: ");
        line.append(decimal_text(self.passed as u128).as_str());
        line.append(" passed, ");
        line.append(decimal_text(self.failed as u128).as_str());
        line.append(" failed, ");
        line.append(decimal_text(self.skipped as u128).as_str());
        line.append(" skipped, ");
        line.append(decimal_text(self.total as u128).as_str());
        line.append(" total");
        (maybe_line(true, line), ok)
    }
}

// ---------------------------------------------------------------------
// Laws
// ---------------------------------------------------------------------

/// Each case counts once.
pub proof fn law_composed_counts_once(s: ComposedState, v: VerdictView)
    ensures
        with_verdict(s, v).done() == s.done() + 1,
        with_verdict(s, v).total == s.total,
{
}

/// An empty suite is a run error, never a vacuous success.
pub proof fn law_empty_suite_fails(s: ComposedState)
    requires
        s.total == 0,
    ensures
        !succeeded(s),
{
}

/// One failure fails the run for good.
pub proof fn law_failure_stays(s: ComposedState, v: VerdictView)
    requires
        s.failed > 0,
    ensures
        !succeeded(with_verdict(s, v)),
{
}

/// A run after all of these verdicts.
pub open spec fn after_all(s: ComposedState, vs: Seq<VerdictView>) -> ComposedState {
    vs.fold_left(s, |s: ComposedState, v: VerdictView| with_verdict(s, v))
}

proof fn lemma_after_all(s: ComposedState, vs: Seq<VerdictView>)
    ensures
        ({
            let end = after_all(s, vs);
            &&& end.passed == s.passed + vs.filter(|v: VerdictView| v is Pass).len()
            &&& end.skipped == s.skipped + vs.filter(|v: VerdictView| v is Skip).len()
            &&& end.failed == s.failed + vs.filter(
                |v: VerdictView| v is Fail || v is Trap || v is Limit,
            ).len()
            &&& end.total == s.total
            &&& end.human == s.human
        }),
    decreases vs.len(),
{
    reveal(Seq::filter);
    let f = |s: ComposedState, v: VerdictView| with_verdict(s, v);
    assert(after_all(s, vs) == vs.fold_left(s, f));
    if vs.len() > 0 {
        lemma_after_all(s, vs.drop_last());
        assert(after_all(s, vs.drop_last()) == vs.drop_last().fold_left(s, f));
    }
}

/// A composed run counts its cases by their verdicts, and succeeds exactly
/// where there were cases and every one passed or was skipped.
pub proof fn law_composed_run(human: bool, total: int, vs: Seq<VerdictView>)
    requires
        vs.len() == total,
    ensures
        ({
            let end = after_all(
                ComposedState { human, total, passed: 0, failed: 0, skipped: 0 },
                vs,
            );
            &&& end.passed == vs.filter(|v: VerdictView| v is Pass).len()
            &&& end.skipped == vs.filter(|v: VerdictView| v is Skip).len()
            &&& end.total == total
            &&& succeeded(end) <==> total > 0 && forall|i: int|
                0 <= i < vs.len() ==> (#[trigger] vs[i]) is Pass || vs[i] is Skip
        }),
{
    let start = ComposedState { human, total, passed: 0, failed: 0, skipped: 0 };
    lemma_after_all(start, vs);
    let p = |v: VerdictView| v is Fail || v is Trap || v is Limit;
    let bad = vs.filter(p);
    if bad.len() > 0 {
        let x = bad[0];
        assert(bad.contains(x));
        vs.lemma_filter_contains_rev(p, x);
        vs.lemma_filter_pred(p, 0);
        let i = choose|i: int| 0 <= i < vs.len() && vs[i] == x;
        assert(!(vs[i] is Pass || vs[i] is Skip));
    }
    if exists|i: int| 0 <= i < vs.len() && !((#[trigger] vs[i]) is Pass || vs[i] is Skip) {
        let i = choose|i: int| 0 <= i < vs.len() && !((#[trigger] vs[i]) is Pass || vs[i] is Skip);
        assert(p(vs[i]));
        vs.lemma_filter_contains(p, i);
    }
}

} // verus!
