//! The canonical results model: the event stream that a run writes, one
//! event per line, and the document that it folds into.

use vstd::prelude::*;

use crate::table::Table;
use crate::text::{clone_opt, clone_texts, opt_text, owned, same, views};
use crate::verdict::{Provenance, ProvenanceView};

verus! {

/// The version of the results format.
pub const RESULTS_VERSION: &'static str = "0.1";

/// The event that ends a segment cleanly.
pub const TERMINATOR: &'static str = "{\"segment-end\":true}";

/// First line of a stream, header of a document.
#[derive(Debug, PartialEq, Eq)]
pub struct Envelope {
    /// Format version tag.
    pub version: String,
    /// Opaque target key (implementation and environment).
    pub target: String,
    pub suite: SuiteInfo,
    pub run: RunInfo,
}

#[derive(Debug, PartialEq, Eq, Default)]
pub struct SuiteInfo {
    pub name: String,
    /// sha256 of the suite component that the results come from, in hex.
    /// Where they come from, not what they are: builds differ from one
    /// environment to the next.
    pub artifact_sha256: Option<String>,
    pub lockfile_sha256: Option<String>,
}

#[derive(Debug, PartialEq, Eq, Default)]
pub struct RunInfo {
    pub id: Option<String>,
    pub started: Option<String>,
    pub segment: u32,
    /// How the producer selected cases: `"tags"` when it applied feature
    /// marks, `"none"` when it executed everything; absent counts as
    /// `"tags"`.
    pub scheduling: Option<String>,
}

/// A [`SuiteInfo`] over texts.
#[verifier::ext_equal]
pub struct SuiteView {
    pub name: Seq<char>,
    pub artifact_sha256: Option<Seq<char>>,
    pub lockfile_sha256: Option<Seq<char>>,
}

/// A [`RunInfo`] over texts.
#[verifier::ext_equal]
pub struct RunView {
    pub id: Option<Seq<char>>,
    pub started: Option<Seq<char>>,
    pub segment: u32,
    pub scheduling: Option<Seq<char>>,
}

/// An [`Envelope`] over texts.
#[verifier::ext_equal]
pub struct EnvelopeView {
    pub version: Seq<char>,
    pub target: Seq<char>,
    pub suite: SuiteView,
    pub run: RunView,
}

impl View for SuiteInfo {
    type V = SuiteView;

    open spec fn view(&self) -> SuiteView {
        SuiteView {
            name: self.name@,
            artifact_sha256: opt_text(self.artifact_sha256),
            lockfile_sha256: opt_text(self.lockfile_sha256),
        }
    }
}

impl View for RunInfo {
    type V = RunView;

    open spec fn view(&self) -> RunView {
        RunView {
            id: opt_text(self.id),
            started: opt_text(self.started),
            segment: self.segment,
            scheduling: opt_text(self.scheduling),
        }
    }
}

impl View for Envelope {
    type V = EnvelopeView;

    open spec fn view(&self) -> EnvelopeView {
        EnvelopeView {
            version: self.version@,
            target: self.target@,
            suite: self.suite@,
            run: self.run@,
        }
    }
}

impl EnvelopeView {
    /// Did the producer apply feature marks? Anything but `"none"` counts.
    pub open spec fn scheduled(self) -> bool {
        self.run.scheduling != Some("none"@)
    }
}

impl Clone for SuiteInfo {
    fn clone(&self) -> (r: Self)
        ensures
            r@ == self@,
    {
        SuiteInfo {
            name: self.name.clone(),
            artifact_sha256: clone_opt(&self.artifact_sha256),
            lockfile_sha256: clone_opt(&self.lockfile_sha256),
        }
    }
}

impl Clone for RunInfo {
    fn clone(&self) -> (r: Self)
        ensures
            r@ == self@,
    {
        RunInfo {
            id: clone_opt(&self.id),
            started: clone_opt(&self.started),
            segment: self.segment,
            scheduling: clone_opt(&self.scheduling),
        }
    }
}

impl Clone for Envelope {
    fn clone(&self) -> (r: Self)
        ensures
            r@ == self@,
    {
        Envelope {
            version: self.version.clone(),
            target: self.target.clone(),
            suite: self.suite.clone(),
            run: self.run.clone(),
        }
    }
}

impl Envelope {
    /// A stream header with the format's defaults: current version, segment
    /// 0, `"tags"` scheduling, nothing known of where the suite comes from.
    pub fn new(target: &str, suite_name: &str) -> (r: Self)
        ensures
            r@ == (EnvelopeView {
                version: RESULTS_VERSION@,
                target: target@,
                suite: SuiteView { name: suite_name@, artifact_sha256: None, lockfile_sha256: None },
                run: RunView { id: None, started: None, segment: 0, scheduling: Some("tags"@) },
            }),
    {
        Envelope {
            version: owned(RESULTS_VERSION),
            target: owned(target),
            suite: SuiteInfo {
                name: owned(suite_name),
                artifact_sha256: None,
                lockfile_sha256: None,
            },
            run: RunInfo { id: None, started: None, segment: 0, scheduling: Some(owned("tags")) },
        }
    }

    /// Did the producer apply feature marks? Anything but an explicit
    /// `"none"` counts as yes.
    pub fn scheduled(&self) -> (r: bool)
        ensures
            r == self@.scheduled(),
    {
        match &self.run.scheduling {
            Some(s) => !same(s.as_str(), "none"),
            None => true,
        }
    }
}

/// One line of the stream after the envelope.
#[derive(Debug, PartialEq, Eq)]
pub enum Event {
    /// Harness breakage, never a case result.
    RunError(RunError),
    /// A case's result.
    Case(CaseResult),
}

#[derive(Debug, PartialEq, Eq)]
pub struct RunError {
    pub message: String,
}

/// An [`Event`] over texts.
pub enum EventView {
    RunError(Seq<char>),
    Case(CaseView),
}

impl View for Event {
    type V = EventView;

    open spec fn view(&self) -> EventView {
        match *self {
            Event::RunError(e) => EventView::RunError(e.message@),
            Event::Case(r) => EventView::Case(r@),
        }
    }
}

/// The status of a case. The vocabulary may grow.
#[derive(Debug, Clone, Copy, PartialEq, Eq, Structural)]
#[non_exhaustive]
pub enum Status {
    Pass,
    Fail,
    Skipped,
    NotReached,
    NotApplicable,
    Deselected,
}

impl Status {
    /// Did the case execute?
    pub open spec fn is_executed(self) -> bool {
        self is Pass || self is Fail || self is Skipped
    }

    /// Does the status make a run failing?
    pub open spec fn is_failing(self) -> bool {
        self is Fail || self is NotReached
    }

    /// The word for the status.
    pub open spec fn text(self) -> Seq<char> {
        match self {
            Status::Pass => "pass"@,
            Status::Fail => "fail"@,
            Status::Skipped => "skipped"@,
            Status::NotReached => "not-reached"@,
            Status::NotApplicable => "not-applicable"@,
            Status::Deselected => "deselected"@,
        }
    }

    /// The name of the variant.
    pub open spec fn debug(self) -> Seq<char> {
        match self {
            Status::Pass => "Pass"@,
            Status::Fail => "Fail"@,
            Status::Skipped => "Skipped"@,
            Status::NotReached => "NotReached"@,
            Status::NotApplicable => "NotApplicable"@,
            Status::Deselected => "Deselected"@,
        }
    }

    /// Did the case execute?
    pub fn executed(self) -> (r: bool)
        ensures
            r == self.is_executed(),
    {
        matches!(self, Status::Pass | Status::Fail | Status::Skipped)
    }

    /// Does the status make a run failing?
    pub fn failing(self) -> (r: bool)
        ensures
            r == self.is_failing(),
    {
        matches!(self, Status::Fail | Status::NotReached)
    }

    /// The word for the status, on the wire and before a human.
    pub fn word(self) -> (r: &'static str)
        ensures
            r@ == self.text(),
    {
        match self {
            Status::Pass => "pass",
            Status::Fail => "fail",
            Status::Skipped => "skipped",
            Status::NotReached => "not-reached",
            Status::NotApplicable => "not-applicable",
            Status::Deselected => "deselected",
        }
    }

    /// The name of the variant.
    pub(crate) fn variant(self) -> (r: &'static str)
        ensures
            r@ == self.debug(),
    {
        match self {
            Status::Pass => "Pass",
            Status::Fail => "Fail",
            Status::Skipped => "Skipped",
            Status::NotReached => "NotReached",
            Status::NotApplicable => "NotApplicable",
            Status::Deselected => "Deselected",
        }
    }
}

/// The result of one case.
#[derive(Debug, PartialEq, Eq)]
pub struct CaseResult {
    pub case: String,
    pub status: Status,
    /// Executed statuses only: how the verdict came to be.
    pub provenance: Option<Provenance>,
    /// What failed or was skipped, the mark that excluded the case, why it
    /// was deselected, or why it was not reached.
    pub detail: Option<String>,
    /// Replay token (executed cases, when randomness is virtualised).
    pub seed: Option<String>,
    pub duration_ms: Option<u64>,
    pub diagnostics: Vec<String>,
    /// False when the diagnostics were capped or cut short.
    pub diagnostics_complete: bool,
}

/// A [`CaseResult`] over texts.
#[verifier::ext_equal]
pub struct CaseView {
    pub case: Seq<char>,
    pub status: Status,
    pub provenance: Option<ProvenanceView>,
    pub detail: Option<Seq<char>>,
    pub seed: Option<Seq<char>>,
    pub duration_ms: Option<u64>,
    pub diagnostics: Seq<Seq<char>>,
    pub diagnostics_complete: bool,
}

/// The view of an optional provenance.
pub open spec fn opt_provenance(p: Option<Provenance>) -> Option<ProvenanceView> {
    match p {
        Some(p) => Some(p@),
        None => None,
    }
}

fn clone_provenance(p: &Option<Provenance>) -> (r: Option<Provenance>)
    ensures
        opt_provenance(r) == opt_provenance(*p),
{
    match p {
        Some(p) => Some(p.clone()),
        None => None,
    }
}

impl View for CaseResult {
    type V = CaseView;

    open spec fn view(&self) -> CaseView {
        CaseView {
            case: self.case@,
            status: self.status,
            provenance: opt_provenance(self.provenance),
            detail: opt_text(self.detail),
            seed: opt_text(self.seed),
            duration_ms: self.duration_ms,
            diagnostics: views(self.diagnostics@),
            diagnostics_complete: self.diagnostics_complete,
        }
    }
}

impl Clone for CaseResult {
    fn clone(&self) -> (r: Self)
        ensures
            r@ == self@,
    {
        CaseResult {
            case: self.case.clone(),
            status: self.status,
            provenance: clone_provenance(&self.provenance),
            detail: clone_opt(&self.detail),
            seed: clone_opt(&self.seed),
            duration_ms: self.duration_ms,
            diagnostics: clone_texts(&self.diagnostics),
            diagnostics_complete: self.diagnostics_complete,
        }
    }
}

/// A result that was not executed: a status and, maybe, why.
pub open spec fn bare_case(case: Seq<char>, status: Status, detail: Option<Seq<char>>) -> CaseView {
    CaseView {
        case,
        status,
        provenance: None,
        detail,
        seed: None,
        duration_ms: None,
        diagnostics: Seq::empty(),
        diagnostics_complete: true,
    }
}

/// A result that was not executed: a status and, maybe, why.
pub fn bare_result(case: &str, status: Status, detail: Option<String>) -> (r: CaseResult)
    ensures
        r@ == bare_case(case@, status, opt_text(detail)),
{
    let r = CaseResult {
        case: owned(case),
        status,
        provenance: None,
        detail,
        seed: None,
        duration_ms: None,
        diagnostics: Vec::new(),
        diagnostics_complete: true,
    };
    assert(views(r.diagnostics@) =~= Seq::<Seq<char>>::empty());
    r
}

/// Results are complete unless they say otherwise.
pub fn default_true() -> (r: bool)
    ensures
        r,
{
    true
}

/// The views of a list of results.
pub open spec fn case_views(v: Seq<CaseResult>) -> Seq<CaseView> {
    Seq::new(v.len(), |i: int| v[i]@)
}

/// The folded form of a stream.
#[derive(Debug, PartialEq, Eq)]
pub struct Document {
    pub envelope: Envelope,
    pub results: Vec<CaseResult>,
    pub run_errors: Vec<String>,
    /// Statuses that were not understood, by case.
    pub unknown_statuses: Table<String>,
    /// Did the stream end with its terminator?
    pub terminated: bool,
}

/// A [`Document`] over texts.
#[verifier::ext_equal]
pub struct DocumentView {
    pub envelope: EnvelopeView,
    pub results: Seq<CaseView>,
    pub run_errors: Seq<Seq<char>>,
    pub unknown_statuses: Seq<(Seq<char>, Seq<char>)>,
    pub terminated: bool,
}

impl View for Document {
    type V = DocumentView;

    open spec fn view(&self) -> DocumentView {
        DocumentView {
            envelope: self.envelope@,
            results: case_views(self.results@),
            run_errors: views(self.run_errors@),
            unknown_statuses: self.unknown_statuses@,
            terminated: self.terminated,
        }
    }
}

} // verus!
