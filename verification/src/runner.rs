//! Running a suite: what is reported, in which order, and how it counts.

use vstd::prelude::*;

use crate::compose::has_magic;
use crate::digest::{hex, sha256_digest, sha256_hex};
use crate::results::{
    bare_case, bare_result, CaseResult, CaseView, Envelope, EnvelopeView, RunInfo, RunView, Status,
    SuiteInfo, SuiteView, RESULTS_VERSION,
};
use crate::schedule::{plan_views, PlanView, Planned};
use crate::session::{abandons, CaseVerdict, Served, ServedView, VerdictView};
use crate::text::{clone_texts, decimal, decimal_text, owned, views};
use crate::verdict::{Provenance, ProvenanceView};

verus! {

/// The instance that a suite exports.
pub const TESTS_INSTANCE: &'static str = "lann:component-test/tests@0.1.0";

/// The instance that a suite imports.
pub const CONTEXT_INSTANCE: &'static str = "lann:component-test/test-context@0.1.0";

/// Seconds of wasm execution that a case gets unless told otherwise.
pub const DEFAULT_CASE_EXECUTION_BUDGET_SECS: u64 = 10;

/// Seconds of wall clock that a case gets unless told otherwise.
pub const DEFAULT_CASE_TIMEOUT_SECS: u64 = 120;

/// The host's side of a `context` resource; the state lives elsewhere.
pub struct HostContext;

/// How a run reports.
#[derive(Debug, Clone, Copy)]
pub enum OutputMode {
    Human,
    Jsonl,
}

/// How many cases came to what.
#[derive(Debug)]
pub struct Summary {
    pub not_applicable: usize,
    pub passed: usize,
    pub failed: usize,
    pub skipped: usize,
}

impl Summary {
    /// How many cases there were.
    pub open spec fn sum(self) -> int {
        self.passed + self.failed + self.skipped + self.not_applicable
    }

    /// How many cases there were.
    pub fn total(&self) -> (r: usize)
        requires
            self.sum() <= usize::MAX,
        ensures
            r == self.sum(),
    {
        self.passed + self.failed + self.skipped + self.not_applicable
    }
}

impl Default for Summary {
    fn default() -> (r: Self)
        ensures
            r == (Summary { not_applicable: 0, passed: 0, failed: 0, skipped: 0 }),
    {
        Summary { not_applicable: 0, passed: 0, failed: 0, skipped: 0 }
    }
}

/// The summary with one more verdict.
pub open spec fn counted(s: Summary, v: VerdictView) -> Summary {
    match v {
        VerdictView::Pass => Summary { passed: (s.passed + 1) as usize, ..s },
        VerdictView::Skip(_) => Summary { skipped: (s.skipped + 1) as usize, ..s },
        _ => Summary { failed: (s.failed + 1) as usize, ..s },
    }
}

// ---------------------------------------------------------------------
// One case
// ---------------------------------------------------------------------

/// The status of a verdict.
pub open spec fn verdict_status(v: VerdictView) -> Status {
    match v {
        VerdictView::Pass => Status::Pass,
        VerdictView::Skip(_) => Status::Skipped,
        _ => Status::Fail,
    }
}

/// How a verdict came to be.
pub open spec fn verdict_provenance(v: VerdictView) -> ProvenanceView {
    match v {
        VerdictView::Trap(_) => ProvenanceView::Trap,
        VerdictView::Limit(kind, _) => ProvenanceView::LimitExceeded(kind),
        _ => ProvenanceView::Returned,
    }
}

/// What a verdict says.
pub open spec fn verdict_detail(v: VerdictView) -> Option<Seq<char>> {
    match v {
        VerdictView::Pass => None,
        VerdictView::Fail(d) => Some(d),
        VerdictView::Skip(d) => Some(d),
        VerdictView::Trap(d) => Some(d),
        VerdictView::Limit(_, d) => Some(d),
    }
}

/// The result of a case that ran. Diagnostics are complete unless the
/// instance was abandoned.
pub open spec fn served_case(s: ServedView) -> CaseView {
    CaseView {
        case: s.name,
        status: verdict_status(s.verdict),
        provenance: Some(verdict_provenance(s.verdict)),
        detail: verdict_detail(s.verdict),
        seed: None,
        duration_ms: None,
        diagnostics: s.diagnostics,
        diagnostics_complete: !(s.verdict is Trap || s.verdict is Limit),
    }
}

/// The line on a case that ran.
pub open spec fn served_line(s: ServedView) -> Seq<char> {
    let head = "test "@ + s.name;
    match s.verdict {
        VerdictView::Pass => head + ": PASS"@,
        VerdictView::Fail(d) => head + ": FAIL: "@ + d,
        VerdictView::Skip(d) => head + ": SKIP: "@ + d,
        VerdictView::Trap(d) => head + ": FAIL: trap: "@ + d,
        VerdictView::Limit(_, d) => head + ": FAIL: "@ + d,
    }
}

/// The result of a case that ran.
pub fn case_of(s: &Served) -> (r: CaseResult)
    ensures
        r@ == served_case(s@),
{
    let (status, provenance, detail, complete): (Status, Provenance, Option<String>, bool) =
        match &s.verdict {
        CaseVerdict::Pass => (Status::Pass, Provenance::Returned, None, true),
        CaseVerdict::Fail(d) => (Status::Fail, Provenance::Returned, Some(d.clone()), true),
        CaseVerdict::Skip(d) => (Status::Skipped, Provenance::Returned, Some(d.clone()), true),
        CaseVerdict::Trap(d) => (Status::Fail, Provenance::Trap, Some(d.clone()), false),
        CaseVerdict::Limit(kind, d) => (
            Status::Fail,
            Provenance::LimitExceeded(kind.clone()),
            Some(d.clone()),
            false,
        ),
    };
    CaseResult {
        case: s.name.clone(),
        status,
        provenance: Some(provenance),
        detail,
        seed: None,
        duration_ms: None,
        diagnostics: clone_texts(&s.diagnostics),
        diagnostics_complete: complete,
    }
}

/// The line on a case that ran.
pub fn line_of(s: &Served) -> (r: String)
    ensures
        r@ == served_line(s@),
{
    let mut r = owned("test ");
    r.append(s.name.as_str());
    match &s.verdict {
        CaseVerdict::Pass => {
            r.append(": PASS");
        },
        CaseVerdict::Fail(d) => {
            r.append(": FAIL: ");
            r.append(d.as_str());
        },
        CaseVerdict::Skip(d) => {
            r.append(": SKIP: ");
            r.append(d.as_str());
        },
        CaseVerdict::Trap(d) => {
            r.append(": FAIL: trap: ");
            r.append(d.as_str());
        },
        CaseVerdict::Limit(_, d) => {
            r.append(": FAIL: ");
            r.append(d.as_str());
        },
    }
    r
}

// ---------------------------------------------------------------------
// The whole run
// ---------------------------------------------------------------------

/// What a run puts out at one point.
#[derive(Debug, PartialEq, Eq)]
pub enum Output {
    /// Lines for people.
    Lines(Vec<String>),
    /// One event of the stream.
    Case(CaseResult),
    /// The line that ends the stream.
    Terminator,
}

/// An [`Output`] over texts.
pub enum OutputView {
    Lines(Seq<Seq<char>>),
    Case(CaseView),
    Terminator,
}

impl View for Output {
    type V = OutputView;

    open spec fn view(&self) -> OutputView {
        match *self {
            Output::Lines(l) => OutputView::Lines(views(l@)),
            Output::Case(c) => OutputView::Case(c@),
            Output::Terminator => OutputView::Terminator,
        }
    }
}

/// What a run does next.
#[derive(Debug, PartialEq, Eq)]
pub enum Step {
    /// Put this out and ask again.
    Report(Output),
    /// Put this out, serve the case, and hand in what came of it.
    Serve(Output, usize, String),
    /// Put this out: the run is over.
    Done(Output),
}

/// A [`Step`] over texts.
pub enum StepView {
    Report(OutputView),
    Serve(OutputView, int, Seq<char>),
    Done(OutputView),
}

impl View for Step {
    type V = StepView;

    open spec fn view(&self) -> StepView {
        match *self {
            Step::Report(o) => StepView::Report(o@),
            Step::Serve(o, i, n) => StepView::Serve(o@, i as int, n@),
            Step::Done(o) => StepView::Done(o@),
        }
    }
}

/// A run in progress.
pub struct SuiteRun {
    plan: Vec<Planned>,
    at: usize,
    summary: Summary,
    human: bool,
}

/// A [`SuiteRun`] over texts.
#[verifier::ext_equal]
pub struct RunState {
    pub plan: Seq<PlanView>,
    /// How many entries of the plan are dealt with.
    pub at: int,
    pub summary: Summary,
    pub human: bool,
}

impl View for SuiteRun {
    type V = RunState;

    closed spec fn view(&self) -> RunState {
        RunState {
            plan: plan_views(self.plan@),
            at: self.at as int,
            summary: self.summary,
            human: self.human,
        }
    }
}

/// The closing line for people.
pub open spec fn summary_line(s: Summary) -> Seq<char> {
    "\nresult: "@ + decimal(s.passed as nat) + " passed, "@ + decimal(s.failed as nat)
        + " failed, "@ + decimal(s.skipped as nat) + " skipped, "@ + decimal(
        s.not_applicable as nat,
    ) + " not applicable, "@ + decimal(s.sum() as nat) + " total"@
}

/// What a run does next, and the state it is then in.
pub open spec fn step(s: RunState) -> (StepView, RunState) {
    if s.at >= s.plan.len() {
        (
            StepView::Done(
                if s.human {
                    OutputView::Lines(seq![summary_line(s.summary)])
                } else {
                    OutputView::Terminator
                },
            ),
            s,
        )
    } else {
        let entry = s.plan[s.at];
        match entry.excluded {
            Some(mark) => (
                StepView::Report(
                    if s.human {
                        OutputView::Lines(
                            seq!["test "@ + entry.name + ": N/A ("@ + mark + ")"@],
                        )
                    } else {
                        OutputView::Case(
                            bare_case(entry.name, Status::NotApplicable, Some(mark)),
                        )
                    },
                ),
                RunState {
                    at: s.at + 1,
                    summary: Summary {
                        not_applicable: (s.summary.not_applicable + 1) as usize,
                        ..s.summary
                    },
                    ..s
                },
            ),
            None => (
                StepView::Serve(
                    OutputView::Lines(
                        if s.human { seq!["test "@ + entry.name + " ..."@] } else { seq![] },
                    ),
                    entry.index,
                    entry.name,
                ),
                s,
            ),
        }
    }
}

/// The lines of a case's diagnostics.
pub open spec fn diagnostic_texts(ds: Seq<Seq<char>>) -> Seq<Seq<char>> {
    Seq::new(ds.len(), |i: int| "    diag: "@ + ds[i])
}

/// What a served case puts out. Diagnostics that were not shown as they
/// arrived come with the case.
pub open spec fn served_output(s: RunState, c: ServedView, shown: bool) -> OutputView {
    if s.human {
        let tail = seq![served_line(c)];
        OutputView::Lines(if shown { tail } else { diagnostic_texts(c.diagnostics) + tail })
    } else {
        OutputView::Case(served_case(c))
    }
}

fn one(line: String) -> (r: Output)
    ensures
        r@ == OutputView::Lines(seq![line@]),
{
    let mut v: Vec<String> = Vec::new();
    let ghost lv = line@;
    v.push(line);
    assert(views(v@) =~= seq![lv]);
    Output::Lines(v)
}

impl SuiteRun {
    /// Every case that was dealt with is counted once.
    #[verifier::type_invariant]
    spec fn well_formed(self) -> bool {
        &&& self.at <= self.plan@.len()
        &&& self.summary.sum() == self.at
    }

    /// Begin.
    pub fn new(plan: Vec<Planned>, mode: OutputMode) -> (r: Self)
        ensures
            r@ == (RunState {
                plan: plan_views(plan@),
                at: 0,
                summary: Summary { not_applicable: 0, passed: 0, failed: 0, skipped: 0 },
                human: mode is Human,
            }),
    {
        SuiteRun {
            plan,
            at: 0,
            summary: Summary { not_applicable: 0, passed: 0, failed: 0, skipped: 0 },
            human: match mode {
                OutputMode::Human => true,
                OutputMode::Jsonl => false,
            },
        }
    }

    /// The counts so far: one for every entry of the plan that is dealt
    /// with.
    pub fn summary(&self) -> (r: &Summary)
        ensures
            *r == self@.summary,
            r.sum() == self@.at,
            self@.at <= self@.plan.len(),
    {
        proof {
            use_type_invariant(self);
        }
        &self.summary
    }

    /// What to do next. A case that a mark excludes is reported as it
    /// stands; any other has to be served.
    pub fn next(&mut self) -> (r: Step)
        ensures
            (r@, final(self)@) == step(old(self)@),
    {
        proof {
            use_type_invariant(&*self);
        }
        let ghost s = self@;
        let at = self.at;
        let n = self.plan.len();
        assert(s.plan.len() == self.plan@.len());
        if at >= n {
            if !self.human {
                return Step::Done(Output::Terminator);
            }
            let mut line = owned("\nresult: ");
            line.append(decimal_text(self.summary.passed as u128).as_str());
            line.append(" passed, ");
            line.append(decimal_text(self.summary.failed as u128).as_str());
            line.append(" failed, ");
            line.append(decimal_text(self.summary.skipped as u128).as_str());
            line.append(" skipped, ");
            line.append(decimal_text(self.summary.not_applicable as u128).as_str());
            line.append(" not applicable, ");
            line.append(decimal_text(self.summary.total() as u128).as_str());
            line.append(" total");
            return Step::Done(one(line));
        }
        assert(s.plan[at as int] == self.plan@[at as int]@);
        let name = self.plan[at].name.clone();
        match &self.plan[at].excluded {
            None => {
                let index = self.plan[at].index;
                let out = if self.human {
                    let mut line = owned("test ");
                    line.append(name.as_str());
                    line.append(" ...");
                    one(line)
                } else {
                    let v: Vec<String> = Vec::new();
                    assert(views(v@) =~= seq![]);
                    Output::Lines(v)
                };
                Step::Serve(out, index, name)
            },
            Some(mark) => {
                let out = if self.human {
                    let mut line = owned("test ");
                    line.append(name.as_str());
                    line.append(": N/A (");
                    line.append(mark.as_str());
                    line.append(")");
                    one(line)
                } else {
                    Output::Case(
                        bare_result(name.as_str(), Status::NotApplicable, Some(mark.clone())),
                    )
                };
                self.advance(None);
                Step::Report(out)
            },
        }
    }

    /// Count one entry of the plan: as a verdict, or as not applicable.
    fn advance(&mut self, verdict: Option<&CaseVerdict>)
        requires
            old(self)@.at < old(self)@.plan.len(),
        ensures
            final(self)@ == (RunState {
                at: old(self)@.at + 1,
                summary: match verdict {
                    Some(v) => counted(old(self)@.summary, v@),
                    None => Summary {
                        not_applicable: (old(self)@.summary.not_applicable + 1) as usize,
                        ..old(self)@.summary
                    },
                },
                ..old(self)@
            }),
    {
        proof {
            use_type_invariant(&*self);
        }
        let n: usize = self.plan.len();
        assert(self.at < n && self.summary.sum() < n);
        let mut whole = SuiteRun {
            plan: Vec::new(),
            at: 0,
            summary: Summary { not_applicable: 0, passed: 0, failed: 0, skipped: 0 },
            human: true,
        };
        std::mem::swap(&mut whole, self);
        proof {
            use_type_invariant(&whole);
        }
        let SuiteRun { plan, at, mut summary, human } = whole;
        match verdict {
            None => {
                summary.not_applicable += 1;
            },
            Some(CaseVerdict::Pass) => {
                summary.passed += 1;
            },
            Some(CaseVerdict::Skip(_)) => {
                summary.skipped += 1;
            },
            Some(_) => {
                summary.failed += 1;
            },
        }
        let mut next = SuiteRun { plan, at: at + 1, summary, human };
        std::mem::swap(&mut next, self);
    }

    /// Take in what serving the case at hand gave. `shown` says that its
    /// diagnostics were put out as they arrived.
    pub fn served(&mut self, case: Served, shown: bool) -> (r: Output)
        requires
            old(self)@.at < old(self)@.plan.len(),
            old(self)@.plan[old(self)@.at].excluded is None,
        ensures
            r@ == served_output(old(self)@, case@, shown),
            final(self)@ == (RunState {
                at: old(self)@.at + 1,
                summary: counted(old(self)@.summary, case@.verdict),
                ..old(self)@
            }),
    {
        self.advance(Some(&case.verdict));
        if !self.human {
            return Output::Case(case_of(&case));
        }
        let mut lines: Vec<String> = Vec::new();
        let ghost ds = diagnostic_texts(case@.diagnostics);
        assert(views(lines@) =~= ds.take(0));
        if !shown {
            let mut i: usize = 0;
            while i < case.diagnostics.len()
                invariant
                    i <= case.diagnostics@.len(),
                    ds == diagnostic_texts(case@.diagnostics),
                    views(lines@) == ds.take(i as int),
                decreases case.diagnostics.len() - i,
            {
                let mut line = owned("    diag: ");
                line.append(case.diagnostics[i].as_str());
                let ghost was = views(lines@);
                let ghost lv = line@;
                lines.push(line);
                assert(views(lines@) =~= was.push(lv));
                assert(case@.diagnostics[i as int] == case.diagnostics@[i as int]@);
                assert(ds.take(i + 1) =~= ds.take(i as int).push(lv));
                i += 1;
            }
            assert(ds.take(i as int) =~= ds);
        }
        let ghost was = views(lines@);
        let last = line_of(&case);
        let ghost lv = last@;
        lines.push(last);
        assert(views(lines@) =~= was + seq![lv]);
        assert(shown ==> views(lines@) =~= seq![lv]);
        Output::Lines(lines)
    }
}

/// The header of a run's stream: bound to the suite artifact, and honest
/// about whether marks were applied.
pub open spec fn run_header(
    target: Seq<char>,
    suite: Seq<char>,
    sha256: Seq<char>,
    has_inventory: bool,
) -> EnvelopeView {
    EnvelopeView {
        version: RESULTS_VERSION@,
        target,
        suite: SuiteView { name: suite, artifact_sha256: Some(sha256), lockfile_sha256: None },
        run: RunView {
            id: None,
            started: None,
            segment: 0,
            scheduling: Some(if has_inventory { "tags"@ } else { "none"@ }),
        },
    }
}

/// The header of a run's stream. The digest is that of the executed
/// artifact, unless the run is bound to the suite that it was composed from.
pub fn run_envelope(
    target: &str,
    suite_name: &str,
    wasm: &[u8],
    bound: Option<&str>,
    has_inventory: bool,
) -> (r: Envelope)
    ensures
        r@ == run_header(
            target@,
            suite_name@,
            match bound {
                Some(sha256) => sha256@,
                None => hex(sha256_digest(wasm@)),
            },
            has_inventory,
        ),
{
    let sha256 = match bound {
        Some(s) => owned(s),
        None => sha256_hex(wasm),
    };
    Envelope {
        version: owned(RESULTS_VERSION),
        target: owned(target),
        suite: SuiteInfo {
            name: owned(suite_name),
            artifact_sha256: Some(sha256),
            lockfile_sha256: None,
        },
        run: RunInfo {
            id: None,
            started: None,
            segment: 0,
            scheduling: Some(owned(if has_inventory { "tags" } else { "none" })),
        },
    }
}

/// Refuse what is no WebAssembly binary, before anything tries to read it
/// as text.
pub fn check_suite(path: &str, wasm: &[u8]) -> (r: Result<(), String>)
    ensures
        match r {
            Ok(_) => has_magic(wasm@),
            Err(e) => !has_magic(wasm@) && e@ == path@
                + " is not a WebAssembly binary (bad magic; expected a component built with --target wasm32-wasip2)"@,
        },
{
    if wasm.len() >= 4 && wasm[0] == 0 && wasm[1] == 0x61 && wasm[2] == 0x73 && wasm[3] == 0x6d {
        return Ok(());
    }
    let mut e = owned(path);
    e.append(
        " is not a WebAssembly binary (bad magic; expected a component built with --target wasm32-wasip2)",
    );
    Err(e)
}

// ---------------------------------------------------------------------
// Laws
// ---------------------------------------------------------------------

/// A served case counts once: as a pass, a skip or a failure.
pub proof fn law_counted_once(s: Summary, v: VerdictView)
    requires
        s.sum() < usize::MAX,
    ensures
        counted(s, v).sum() == s.sum() + 1,
        counted(s, v).not_applicable == s.not_applicable,
        counted(s, v).failed == s.failed + (if verdict_status(v) == Status::Fail { 1int } else { 0 }),
        counted(s, v).passed == s.passed + (if v is Pass { 1int } else { 0 }),
        counted(s, v).skipped == s.skipped + (if v is Skip { 1int } else { 0 }),
{
}

/// A run never passes over an entry of its plan: each step deals with the
/// entry at hand, or leaves it to be served.
pub proof fn law_step_in_order(s: RunState)
    requires
        0 <= s.at,
    ensures
        step(s).1.plan == s.plan,
        step(s).1.at == s.at || step(s).1.at == s.at + 1,
        step(s).0 is Done <==> s.at >= s.plan.len(),
        step(s).0 is Serve <==> s.at < s.plan.len() && s.plan[s.at].excluded is None,
        step(s).0 is Report ==> step(s).1.at == s.at + 1,
{
}

/// A failing verdict fails the case's result, and only a failing one does.
pub proof fn law_failing_verdict(s: ServedView)
    ensures
        served_case(s).status.is_failing() <==> s.verdict is Fail || s.verdict is Trap
            || s.verdict is Limit,
{
}

/// Nothing of a served case is lost in its result: two that report the same
/// have the same name, verdict and diagnostics.
pub proof fn law_result_tells_the_verdict(a: ServedView, b: ServedView)
    requires
        served_case(a) == served_case(b),
    ensures
        a == b,
{
}

/// A result says how the case came out, why, and in whose words. Only a
/// session that was given up may have lost diagnostics.
pub proof fn law_served_case(s: ServedView)
    ensures
        served_case(s).case == s.name,
        served_case(s).diagnostics == s.diagnostics,
        served_case(s).diagnostics_complete <==> !abandons(s.verdict),
        served_case(s).status == Status::Pass <==> s.verdict is Pass,
        served_case(s).status == Status::Skipped <==> s.verdict is Skip,
        served_case(s).status == Status::Fail <==> s.verdict is Fail || abandons(s.verdict),
        served_case(s).provenance == Some(ProvenanceView::Trap) <==> s.verdict is Trap,
        s.verdict is Limit ==> served_case(s).provenance == Some(
            ProvenanceView::LimitExceeded(s.verdict->Limit_0),
        ),
        served_case(s).provenance == Some(ProvenanceView::Returned) <==> !abandons(s.verdict),
        served_case(s).detail == match s.verdict {
            VerdictView::Pass => None,
            VerdictView::Fail(d) | VerdictView::Skip(d) | VerdictView::Trap(d) => Some(d),
            VerdictView::Limit(_, d) => Some(d),
        },
        served_case(s).seed is None && served_case(s).duration_ms is None,
{
}

} // verus!
