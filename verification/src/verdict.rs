//! Verdicts: what an executed case yields, and how a result came to be.

use vstd::prelude::*;

use crate::text::owned;

verus! {

/// The verdict of an executed case: `Ok(())` is a pass.
pub type Verdict = Result<(), Failure>;

/// Why a case did not pass.
#[derive(Debug, Clone, PartialEq, Eq)]
pub enum Failure {
    /// Observed behaviour diverged; the payload says how, in one line.
    Failed(String),
    /// The case ran but could not reach its subject; the payload says what
    /// it asserted instead.
    Skipped(String),
}

/// A [`Failure`] over texts.
pub enum FailureView {
    Failed(Seq<char>),
    Skipped(Seq<char>),
}

impl View for Failure {
    type V = FailureView;

    open spec fn view(&self) -> FailureView {
        match *self {
            Failure::Failed(d) => FailureView::Failed(d@),
            Failure::Skipped(d) => FailureView::Skipped(d@),
        }
    }
}

/// The message of a failure.
pub open spec fn failure_text(f: FailureView) -> Seq<char> {
    match f {
        FailureView::Failed(d) => "failed: "@ + d,
        FailureView::Skipped(d) => "skipped: "@ + d,
    }
}

impl Failure {
    /// The failure as a message.
    pub fn to_string(&self) -> (r: String)
        ensures
            r@ == failure_text(self@),
    {
        match self {
            Failure::Failed(d) => {
                let mut r = owned("failed: ");
                r.append(d.as_str());
                r
            },
            Failure::Skipped(d) => {
                let mut r = owned("skipped: ");
                r.append(d.as_str());
                r
            },
        }
    }
}

/// How a `fail` result came to be. The vocabulary may grow.
#[derive(Debug, PartialEq, Eq)]
#[non_exhaustive]
pub enum Provenance {
    /// The case returned the verdict itself.
    Returned,
    /// A wasm trap attributed to this case; the instance is poisoned.
    Trap,
    /// The runner's hang guard tripped; the instance was abandoned.
    HangGuard,
    /// The case ran over the limit that is named.
    LimitExceeded(String),
}

/// A [`Provenance`] over texts.
pub enum ProvenanceView {
    Returned,
    Trap,
    HangGuard,
    LimitExceeded(Seq<char>),
}

impl View for Provenance {
    type V = ProvenanceView;

    open spec fn view(&self) -> ProvenanceView {
        match *self {
            Provenance::Returned => ProvenanceView::Returned,
            Provenance::Trap => ProvenanceView::Trap,
            Provenance::HangGuard => ProvenanceView::HangGuard,
            Provenance::LimitExceeded(l) => ProvenanceView::LimitExceeded(l@),
        }
    }
}

impl Clone for Provenance {
    fn clone(&self) -> (r: Self)
        ensures
            r@ == self@,
    {
        match self {
            Provenance::Returned => Provenance::Returned,
            Provenance::Trap => Provenance::Trap,
            Provenance::HangGuard => Provenance::HangGuard,
            Provenance::LimitExceeded(l) => Provenance::LimitExceeded(l.clone()),
        }
    }
}

/// The verdict `failed` with a detail.
pub fn failed(detail: &str) -> (r: Verdict)
    ensures
        r is Err,
        r->Err_0@ == FailureView::Failed(detail@),
{
    Err(Failure::Failed(owned(detail)))
}

/// The verdict `skipped` with a claim.
pub fn skipped(claim: &str) -> (r: Verdict)
    ensures
        r is Err,
        r->Err_0@ == FailureView::Skipped(claim@),
{
    Err(Failure::Skipped(owned(claim)))
}

} // verus!
