//! Serving cases through a suite instance: what an attempt comes to, when
//! an instance is replaced, and how execution is charged to its budget.

use vstd::prelude::*;

use crate::text::{
    chars_of, contains_text, decimal, decimal_text, find_from, has_text, law_contains_text,
    law_first_occurrence, lines, lines_of, occurrence_from, occurs_at, opt_text, owned, same,
    starts_with, text_of, views,
};

verus! {

// ---------------------------------------------------------------------
// Verdicts
// ---------------------------------------------------------------------

/// What came of running a case.
#[derive(Debug, PartialEq, Eq)]
pub enum CaseVerdict {
    Pass,
    Fail(String),
    Skip(String),
    /// The call trapped, or failed at the host boundary.
    Trap(String),
    /// The case was stopped for running over a limit: which one, and a
    /// one-line detail.
    Limit(String, String),
}

/// A [`CaseVerdict`] over texts.
pub enum VerdictView {
    Pass,
    Fail(Seq<char>),
    Skip(Seq<char>),
    Trap(Seq<char>),
    Limit(Seq<char>, Seq<char>),
}

impl View for CaseVerdict {
    type V = VerdictView;

    open spec fn view(&self) -> VerdictView {
        match *self {
            CaseVerdict::Pass => VerdictView::Pass,
            CaseVerdict::Fail(d) => VerdictView::Fail(d@),
            CaseVerdict::Skip(d) => VerdictView::Skip(d@),
            CaseVerdict::Trap(d) => VerdictView::Trap(d@),
            CaseVerdict::Limit(k, d) => VerdictView::Limit(k@, d@),
        }
    }
}

/// Is the instance that gave this verdict done for?
pub open spec fn abandons(v: VerdictView) -> bool {
    v is Trap || v is Limit
}

/// An outside error: whether it carries the budget's own marker, and the
/// text of its whole chain.
#[derive(Debug, PartialEq, Eq)]
pub struct CallError {
    pub budget: bool,
    pub text: String,
}

/// A [`CallError`] over texts.
#[verifier::ext_equal]
pub struct CallErrorView {
    pub budget: bool,
    pub text: Seq<char>,
}

impl View for CallError {
    type V = CallErrorView;

    open spec fn view(&self) -> CallErrorView {
        CallErrorView { budget: self.budget, text: self.text@ }
    }
}

/// Does the error say that the execution budget was exceeded? Its text is
/// asked too, for wrapping that hides the marker.
pub open spec fn is_budget(e: CallErrorView) -> bool {
    e.budget || contains_text(e.text, "execution budget exceeded"@)
}

/// The verdict on a case that used up its execution budget.
pub open spec fn budget_verdict(secs: u64) -> VerdictView {
    VerdictView::Limit(
        "execution-budget"@,
        "execution budget exceeded ("@ + decimal(secs as nat) + "s wasm execution)"@,
    )
}

/// The verdict of an error that says that the execution budget was
/// exceeded.
pub fn limit_from_error(e: &CallError, exec_budget_secs: u64) -> (r: Option<CaseVerdict>)
    ensures
        match r {
            Some(v) => is_budget(e@) && v@ == budget_verdict(exec_budget_secs),
            None => !is_budget(e@),
        },
{
    if e.budget || has_text(e.text.as_str(), "execution budget exceeded") {
        let mut d = owned("execution budget exceeded (");
        d.append(decimal_text(exec_budget_secs as u128).as_str());
        d.append("s wasm execution)");
        Some(CaseVerdict::Limit(owned("execution-budget"), d))
    } else {
        None
    }
}

/// What stands between the first and the second `pat` of a line, or after
/// the first where there is no second.
pub open spec fn second_piece(line: Seq<char>, pat: Seq<char>) -> Option<Seq<char>> {
    let a = occurrence_from(line, pat, 0);
    if a < 0 {
        None
    } else {
        let rest = line.skip(a + pat.len() as int);
        let b = occurrence_from(rest, pat, 0);
        Some(if b < 0 { rest } else { rest.take(b) })
    }
}

/// The trap message of the last of the first `n` lines that has one.
pub open spec fn last_trap(ls: Seq<Seq<char>>, n: int) -> Option<Seq<char>>
    decreases n,
{
    if n <= 0 {
        None
    } else {
        match second_piece(ls[n - 1], "wasm trap: "@) {
            Some(m) => Some(m),
            None => last_trap(ls, n - 1),
        }
    }
}

/// An error chain in one line: the trap message nearest to its root, or its
/// first line.
pub open spec fn one_line(text: Seq<char>) -> Seq<char> {
    let ls = lines(text);
    match last_trap(ls, ls.len() as int) {
        Some(m) => "wasm trap: "@ + m,
        None => if ls.len() == 0 { "trap"@ } else { ls[0] },
    }
}

fn piece_after(line: &str, pat: &str) -> (r: Option<String>)
    ensures
        opt_text(r) == second_piece(line@, pat@),
{
    let s = chars_of(line);
    let p = chars_of(pat);
    match find_from(&s, &p, 0) {
        None => None,
        Some(a) => {
            let n: usize = s.len();
            assert(a + p@.len() <= n);
            let from: usize = a + p.len();
            let rest = text_of(&s, from, n);
            assert(rest@ =~= line@.skip(a as int + pat@.len() as int));
            let t = chars_of(rest.as_str());
            match find_from(&t, &p, 0) {
                None => Some(rest),
                Some(b) => {
                    let r = text_of(&t, 0, b);
                    assert(r@ =~= rest@.take(b as int));
                    Some(r)
                },
            }
        },
    }
}

/// An error chain in one line.
pub fn trap_detail(text: &str) -> (r: String)
    ensures
        r@ == one_line(text@),
{
    let ls = lines_of(text);
    let ghost all = views(ls@);
    let mut n: usize = ls.len();
    assert(all.len() == ls@.len());
    while n > 0
        invariant
            n <= ls@.len(),
            all == views(ls@),
            all == lines(text@),
            all.len() == ls@.len(),
            last_trap(all, all.len() as int) == last_trap(all, n as int),
        decreases n,
    {
        assert(all[n - 1] == ls@[n - 1]@);
        match piece_after(ls[n - 1].as_str(), "wasm trap: ") {
            Some(m) => {
                let mut r = owned("wasm trap: ");
                r.append(m.as_str());
                return r;
            },
            None => {},
        }
        n -= 1;
    }
    if ls.len() == 0 {
        owned("trap")
    } else {
        assert(all[0] == ls@[0]@);
        owned(ls[0].as_str())
    }
}

/// The verdict of an error: the budget's, or a trap.
pub open spec fn error_verdict(e: CallErrorView, secs: u64) -> VerdictView {
    if is_budget(e) { budget_verdict(secs) } else { VerdictView::Trap(one_line(e.text)) }
}

fn verdict_of_error(e: &CallError, exec_budget_secs: u64) -> (r: CaseVerdict)
    ensures
        r@ == error_verdict(e@, exec_budget_secs),
{
    match limit_from_error(e, exec_budget_secs) {
        Some(v) => v,
        None => CaseVerdict::Trap(trap_detail(e.text.as_str())),
    }
}

/// What a case's `run` call gave back, as plain values.
#[derive(Debug, PartialEq, Eq)]
pub enum CallResult {
    Errored(CallError),
    /// `ok`.
    Passed,
    /// `err` with a variant: its name, and its payload where that is a
    /// string.
    Outcome(String, Option<String>),
    /// `err` with anything else, in its debug form.
    OddPayload(String),
    /// No result at all, in its debug form.
    OddResult(String),
}

/// A [`CallResult`] over texts.
pub enum CallView {
    Errored(CallErrorView),
    Passed,
    Outcome(Seq<char>, Option<Seq<char>>),
    OddPayload(Seq<char>),
    OddResult(Seq<char>),
}

impl View for CallResult {
    type V = CallView;

    open spec fn view(&self) -> CallView {
        match *self {
            CallResult::Errored(e) => CallView::Errored(e@),
            CallResult::Passed => CallView::Passed,
            CallResult::Outcome(t, d) => CallView::Outcome(t@, opt_text(d)),
            CallResult::OddPayload(t) => CallView::OddPayload(t@),
            CallResult::OddResult(t) => CallView::OddResult(t@),
        }
    }
}

/// The verdict that a call comes to, or why it is no outcome of a case.
pub open spec fn call_outcome(c: CallView, secs: u64) -> Result<VerdictView, Seq<char>> {
    match c {
        CallView::Errored(e) => Ok(error_verdict(e, secs)),
        CallView::Passed => Ok(VerdictView::Pass),
        CallView::Outcome(tag, detail) => {
            let d = match detail {
                Some(d) => d,
                None => Seq::empty(),
            };
            if tag == "failed"@ {
                Ok(VerdictView::Fail(d))
            } else if tag == "skipped"@ {
                Ok(VerdictView::Skip(d))
            } else {
                Err("unknown outcome variant `"@ + tag + "`"@)
            }
        },
        CallView::OddPayload(t) => Err("unexpected outcome payload: "@ + t),
        CallView::OddResult(t) => Err("unexpected run result: "@ + t),
    }
}

/// The verdict that a call comes to, or why it is no outcome of a case.
pub fn call_verdict(c: CallResult, exec_budget_secs: u64) -> (r: Result<CaseVerdict, String>)
    ensures
        match r {
            Ok(v) => call_outcome(c@, exec_budget_secs) == Ok::<VerdictView, Seq<char>>(v@),
            Err(e) => call_outcome(c@, exec_budget_secs) == Err::<VerdictView, Seq<char>>(e@),
        },
{
    match c {
        CallResult::Errored(e) => Ok(verdict_of_error(&e, exec_budget_secs)),
        CallResult::Passed => Ok(CaseVerdict::Pass),
        CallResult::Outcome(tag, detail) => {
            proof {
                reveal_strlit("");
                assert(""@ =~= Seq::<char>::empty());
            }
            let d = match detail {
                Some(d) => d,
                None => owned(""),
            };
            if same(tag.as_str(), "failed") {
                Ok(CaseVerdict::Fail(d))
            } else if same(tag.as_str(), "skipped") {
                Ok(CaseVerdict::Skip(d))
            } else {
                let mut e = owned("unknown outcome variant `");
                e.append(tag.as_str());
                e.append("`");
                Err(e)
            }
        },
        CallResult::OddPayload(t) => {
            let mut e = owned("unexpected outcome payload: ");
            e.append(t.as_str());
            Err(e)
        },
        CallResult::OddResult(t) => {
            let mut e = owned("unexpected run result: ");
            e.append(t.as_str());
            Err(e)
        },
    }
}

/// Refuse a case that an instance does not enumerate.
pub fn check_index(index: usize, cases: usize) -> (r: Result<(), String>)
    ensures
        match r {
            Ok(_) => index < cases,
            Err(e) => index >= cases && e@ == "case index "@ + decimal(index as nat)
                + " out of range on re-enumeration"@,
        },
{
    if index < cases {
        return Ok(());
    }
    let mut e = owned("case index ");
    e.append(decimal_text(index as u128).as_str());
    e.append(" out of range on re-enumeration");
    Err(e)
}

// ---------------------------------------------------------------------
// Enumeration
// ---------------------------------------------------------------------

/// How an attempt under a wall-clock limit ended, other than well.
#[derive(Debug, PartialEq, Eq)]
pub enum Trouble {
    TimedOut,
    Errored(CallError),
}

/// A [`Trouble`] over texts.
pub enum TroubleView {
    TimedOut,
    Errored(CallErrorView),
}

impl View for Trouble {
    type V = TroubleView;

    open spec fn view(&self) -> TroubleView {
        match *self {
            Trouble::TimedOut => TroubleView::TimedOut,
            Trouble::Errored(e) => TroubleView::Errored(e@),
        }
    }
}

/// Why a suite could not be enumerated.
pub open spec fn enumeration_text(t: TroubleView, budget: u64, timeout: u64) -> Seq<char> {
    match t {
        TroubleView::TimedOut => "suite enumeration exceeded case timeout ("@ + decimal(
            timeout as nat,
        ) + "s)"@,
        TroubleView::Errored(e) => if is_budget(e) {
            "suite enumeration exceeded execution budget ("@ + decimal(budget as nat)
                + "s wasm execution)"@
        } else {
            "enumerating suite: "@ + e.text
        },
    }
}

/// Why a suite could not be enumerated. Nothing has run by then, so this
/// fails the run once, not once per case.
pub fn enumeration_error(t: Trouble, exec_budget_secs: u64, case_timeout_secs: u64) -> (r: String)
    ensures
        r@ == enumeration_text(t@, exec_budget_secs, case_timeout_secs),
{
    match t {
        Trouble::TimedOut => {
            let mut r = owned("suite enumeration exceeded case timeout (");
            r.append(decimal_text(case_timeout_secs as u128).as_str());
            r.append("s)");
            r
        },
        Trouble::Errored(e) => match limit_from_error(&e, exec_budget_secs) {
            Some(_) => {
                let mut r = owned("suite enumeration exceeded execution budget (");
                r.append(decimal_text(exec_budget_secs as u128).as_str());
                r.append("s wasm execution)");
                r
            },
            None => {
                let mut r = owned("enumerating suite: ");
                r.append(e.text.as_str());
                r
            },
        },
    }
}

// ---------------------------------------------------------------------
// The session slot
// ---------------------------------------------------------------------

/// What serving a case gave: its name, the verdict, and its diagnostics.
#[derive(Debug, PartialEq, Eq)]
pub struct Served {
    pub name: String,
    pub verdict: CaseVerdict,
    pub diagnostics: Vec<String>,
}

/// A [`Served`] over texts.
#[verifier::ext_equal]
pub struct ServedView {
    pub name: Seq<char>,
    pub verdict: VerdictView,
    pub diagnostics: Seq<Seq<char>>,
}

impl View for Served {
    type V = ServedView;

    open spec fn view(&self) -> ServedView {
        ServedView {
            name: self.name@,
            verdict: self.verdict@,
            diagnostics: views(self.diagnostics@),
        }
    }
}

/// How running a case in an instance ended.
#[derive(Debug, PartialEq, Eq)]
pub enum Ran {
    /// The wall clock ran out; what diagnostics made it out.
    TimedOut(Vec<String>),
    Errored(CallError),
    Finished(Served),
}

/// A [`Ran`] over texts.
pub enum RanView {
    TimedOut(Seq<Seq<char>>),
    Errored(CallErrorView),
    Finished(ServedView),
}

impl View for Ran {
    type V = RanView;

    open spec fn view(&self) -> RanView {
        match *self {
            Ran::TimedOut(d) => RanView::TimedOut(views(d@)),
            Ran::Errored(e) => RanView::Errored(e@),
            Ran::Finished(s) => RanView::Finished(s@),
        }
    }
}

/// A failure without diagnostics.
pub open spec fn bare_served(name: Seq<char>, verdict: VerdictView) -> ServedView {
    ServedView { name, verdict, diagnostics: Seq::empty() }
}

/// What a case comes to whose instance could not be made.
pub open spec fn uncreated(name: Seq<char>, t: TroubleView, budget: u64, timeout: u64) -> ServedView {
    match t {
        TroubleView::Errored(e) => bare_served(name, error_verdict(e, budget)),
        TroubleView::TimedOut => bare_served(
            name,
            VerdictView::Limit(
                "case-timeout"@,
                "session creation exceeded case timeout ("@ + decimal(timeout as nat) + "s)"@,
            ),
        ),
    }
}

/// What a case comes to that ran.
pub open spec fn served_as(name: Seq<char>, ran: RanView, budget: u64, timeout: u64) -> ServedView {
    match ran {
        RanView::Finished(s) => s,
        RanView::Errored(e) => bare_served(name, error_verdict(e, budget)),
        RanView::TimedOut(diagnostics) => ServedView {
            name,
            verdict: VerdictView::Limit(
                "case-timeout"@,
                "case timeout exceeded ("@ + decimal(timeout as nat) + "s)"@,
            ),
            diagnostics,
        },
    }
}

fn bare(name: &str, verdict: CaseVerdict) -> (r: Served)
    ensures
        r@ == bare_served(name@, verdict@),
{
    let r = Served { name: owned(name), verdict, diagnostics: Vec::new() };
    assert(views(r.diagnostics@) =~= Seq::<Seq<char>>::empty());
    r
}

/// The place of the live instance: whether there is one, and how many cases
/// it has served. The instance itself lives with whoever runs it.
#[derive(Debug, Clone, Copy, PartialEq, Eq, Structural)]
pub struct Slot {
    pub live: bool,
    pub served: usize,
}

impl Slot {
    /// No instance yet.
    pub fn new() -> (r: Self)
        ensures
            !r.live,
            r.served == 0,
    {
        Slot { live: false, served: 0 }
    }

    /// Make ready for a case: drop an instance that has served its share
    /// (`0` means any number). True where an instance has to be made.
    pub fn prepare(&mut self, cases_per_instance: usize) -> (make: bool)
        ensures
            final(self).served == old(self).served,
            final(self).live == (old(self).live && (cases_per_instance == 0 || old(self).served
                < cases_per_instance)),
            make == !final(self).live,
    {
        if self.live && cases_per_instance != 0 && self.served >= cases_per_instance {
            self.live = false;
        }
        !self.live
    }

    /// An instance was made.
    pub fn created(&mut self)
        ensures
            final(self).live,
            final(self).served == 0,
    {
        self.live = true;
        self.served = 0;
    }

    /// No instance could be made: the case is done for, the run goes on.
    pub fn not_created(
        &self,
        name: &str,
        trouble: Trouble,
        exec_budget_secs: u64,
        case_timeout_secs: u64,
    ) -> (r: Served)
        ensures
            r@ == uncreated(name@, trouble@, exec_budget_secs, case_timeout_secs),
    {
        match trouble {
            Trouble::Errored(e) => bare(name, verdict_of_error(&e, exec_budget_secs)),
            Trouble::TimedOut => {
                let mut d = owned("session creation exceeded case timeout (");
                d.append(decimal_text(case_timeout_secs as u128).as_str());
                d.append("s)");
                bare(name, CaseVerdict::Limit(owned("case-timeout"), d))
            },
        }
    }

    /// A case is about to run in the instance.
    pub fn begin(&mut self)
        requires
            old(self).served < usize::MAX,
        ensures
            final(self).live == old(self).live,
            final(self).served == old(self).served + 1,
    {
        self.served += 1;
    }

    /// A case ran. An instance that trapped or ran over a limit is never
    /// used again.
    pub fn finish(
        &mut self,
        name: &str,
        ran: Ran,
        exec_budget_secs: u64,
        case_timeout_secs: u64,
    ) -> (r: Served)
        ensures
            r@ == served_as(name@, ran@, exec_budget_secs, case_timeout_secs),
            final(self).served == old(self).served,
            final(self).live == (old(self).live && !abandons(r@.verdict)),
    {
        let r = match ran {
            Ran::Finished(s) => s,
            Ran::Errored(e) => bare(name, verdict_of_error(&e, exec_budget_secs)),
            Ran::TimedOut(diagnostics) => {
                let mut d = owned("case timeout exceeded (");
                d.append(decimal_text(case_timeout_secs as u128).as_str());
                d.append("s)");
                Served {
                    name: owned(name),
                    verdict: CaseVerdict::Limit(owned("case-timeout"), d),
                    diagnostics,
                }
            },
        };
        match &r.verdict {
            CaseVerdict::Trap(_) => {
                self.live = false;
            },
            CaseVerdict::Limit(_, _) => {
                self.live = false;
            },
            _ => {},
        }
        r
    }
}

// ---------------------------------------------------------------------
// Budgets
// ---------------------------------------------------------------------

/// The longest time that can be charged, in nanoseconds.
pub const MAX_NANOS: u128 = 18_446_744_073_709_551_615_999_999_999;

/// One tick of the epoch clock, in nanoseconds.
pub const EPOCH_TICK_NANOS: u128 = 100_000_000;

/// Nanoseconds in a second.
pub const NANOS_PER_SEC: u128 = 1_000_000_000;

/// The state of the running case: its diagnostics, and what it has used of
/// its execution budget. Execution is the CPU time of the executing thread,
/// so a busy machine does not eat a case's budget.
#[derive(Debug, Default)]
pub struct CtCtx {
    /// Diagnostics that the case reported.
    pub diagnostics: Vec<String>,
    /// Show each diagnostic as it arrives.
    pub live_print: bool,
    /// CPU time charged in this phase, in nanoseconds.
    pub budget_used: u128,
    /// The sample before this one: the thread, and its CPU clock in
    /// nanoseconds.
    pub budget_last: Option<(u64, u128)>,
    /// The budget of the phase in seconds; `0` is none.
    pub budget_max_secs: u64,
}

/// What a sample of the clock charges: the time since the last sample of
/// the same thread, nothing for the first one or after a change of thread,
/// and one tick where there is no clock.
pub open spec fn charge(last: Option<(u64, u128)>, now: Option<u128>, thread: u64) -> int {
    match now {
        None => EPOCH_TICK_NANOS as int,
        Some(now) => match last {
            Some(l) => if l.0 == thread && now >= l.1 { now - l.1 } else { 0 },
            None => 0,
        },
    }
}

/// The sample that the next one is measured against.
pub open spec fn baseline(last: Option<(u64, u128)>, now: Option<u128>, thread: u64) -> Option<
    (u64, u128),
> {
    match now {
        None => last,
        Some(now) => Some((thread, now)),
    }
}

/// Is the budget used up?
pub open spec fn exhausted(used: int, max_secs: u64) -> bool {
    max_secs != 0 && used >= max_secs * NANOS_PER_SEC
}

impl CtCtx {
    /// Begin a phase of its own: an enumeration, or one case.
    pub fn start_budget_phase(&mut self)
        ensures
            final(self).budget_used == 0,
            final(self).budget_last is None,
            final(self).diagnostics == old(self).diagnostics,
            final(self).live_print == old(self).live_print,
            final(self).budget_max_secs == old(self).budget_max_secs,
    {
        self.budget_used = 0;
        self.budget_last = None;
    }

    /// Take a sample of the executing thread's CPU clock, if it has one.
    /// True where the budget is used up.
    pub fn sample(&mut self, now: Option<u128>, thread: u64) -> (over: bool)
        requires
            old(self).budget_used + charge(old(self).budget_last, now, thread) <= MAX_NANOS,
        ensures
            final(self).budget_used == old(self).budget_used + charge(
                old(self).budget_last,
                now,
                thread,
            ),
            final(self).budget_last == baseline(old(self).budget_last, now, thread),
            final(self).budget_max_secs == old(self).budget_max_secs,
            final(self).diagnostics == old(self).diagnostics,
            final(self).live_print == old(self).live_print,
            over == exhausted(final(self).budget_used as int, final(self).budget_max_secs),
    {
        match now {
            None => {
                self.budget_used = self.budget_used + EPOCH_TICK_NANOS;
            },
            Some(now) => {
                match self.budget_last {
                    Some((t, l)) => {
                        if t == thread && now >= l {
                            self.budget_used = self.budget_used + (now - l);
                        }
                    },
                    None => {},
                }
                self.budget_last = Some((thread, now));
            },
        }
        self.budget_max_secs != 0 && self.budget_used >= self.budget_max_secs as u128
            * NANOS_PER_SEC
    }

    /// Note a diagnostic of the running case. Gives the line to show at
    /// once, if any.
    pub fn diagnostic(&mut self, message: String) -> (line: Option<String>)
        ensures
            views(final(self).diagnostics@) == views(old(self).diagnostics@).push(message@),
            opt_text(line) == if old(self).live_print {
                Some("    diag: "@ + message@)
            } else {
                None
            },
            final(self).live_print == old(self).live_print,
            final(self).budget_used == old(self).budget_used,
            final(self).budget_last == old(self).budget_last,
            final(self).budget_max_secs == old(self).budget_max_secs,
    {
        let line: Option<String> = if self.live_print {
            let mut l = owned("    diag: ");
            l.append(message.as_str());
            Some(l)
        } else {
            None
        };
        let ghost was = views(self.diagnostics@);
        let ghost mv = message@;
        self.diagnostics.push(message);
        assert(views(self.diagnostics@) =~= was.push(mv));
        line
    }

    /// The diagnostics so far, which are then forgotten.
    pub fn take_diagnostics(&mut self) -> (r: Vec<String>)
        ensures
            r@ == old(self).diagnostics@,
            final(self).diagnostics@.len() == 0,
            final(self).live_print == old(self).live_print,
            final(self).budget_used == old(self).budget_used,
            final(self).budget_last == old(self).budget_last,
            final(self).budget_max_secs == old(self).budget_max_secs,
    {
        let mut r: Vec<String> = Vec::new();
        std::mem::swap(&mut r, &mut self.diagnostics);
        r
    }
}

// ---------------------------------------------------------------------
// Laws
// ---------------------------------------------------------------------

/// A case that timed out or failed at the host boundary abandons its
/// instance.
pub proof fn law_poisoned_is_abandoned(name: Seq<char>, ran: RanView, budget: u64, timeout: u64)
    requires
        ran !is Finished,
    ensures
        abandons(served_as(name, ran, budget, timeout).verdict),
{
}

/// No charge is negative, and a change of thread charges nothing.
pub proof fn law_charge(last: Option<(u64, u128)>, now: u128, thread: u64)
    ensures
        charge(last, Some(now), thread) >= 0,
        (match last {
            Some(l) => l.0 != thread,
            None => true,
        }) ==> charge(last, Some(now), thread) == 0,
{
}

/// A budget of zero seconds never runs out.
pub proof fn law_no_budget(used: int)
    ensures
        !exhausted(used, 0),
{
}

/// Is the text the second of the pieces that the pattern cuts the line into?
/// The pattern stands before it for the first time, does not occur in it, and
/// stands behind it unless the line ends there.
pub open spec fn is_second_piece(
    line: Seq<char>,
    pat: Seq<char>,
    before: Seq<char>,
    m: Seq<char>,
    after: Seq<char>,
) -> bool {
    &&& line == before + pat + m + after
    &&& forall|i: int| 0 <= i < before.len() ==> !#[trigger] occurs_at(line, pat, i)
    &&& forall|i: int| 0 <= i < m.len() ==> !#[trigger] occurs_at(m + after, pat, i)
    &&& after.len() > 0 ==> starts_with(after, pat)
}

/// A line has a second piece exactly where the pattern occurs in it.
pub proof fn law_second_piece(line: Seq<char>, pat: Seq<char>)
    requires
        pat.len() > 0,
    ensures
        second_piece(line, pat) is None <==> !contains_text(line, pat),
        second_piece(line, pat) is Some ==> exists|before: Seq<char>, after: Seq<char>| #[trigger]
            is_second_piece(line, pat, before, second_piece(line, pat)->0, after),
{
    law_first_occurrence(line, pat, 0);
    let a = occurrence_from(line, pat, 0);
    if a >= 0 {
        let rest = line.skip(a + pat.len() as int);
        law_first_occurrence(rest, pat, 0);
        let b = occurrence_from(rest, pat, 0);
        let m = second_piece(line, pat)->0;
        let before = line.take(a);
        let after = if b < 0 { Seq::<char>::empty() } else { rest.skip(b) };
        assert(line.subrange(a, a + pat.len()) == pat);
        assert(m + after =~= rest);
        assert(line =~= before + pat + m + after);
        if b >= 0 {
            assert(after.subrange(0, pat.len() as int) =~= rest.subrange(b, b + pat.len()));
        }
        assert forall|i: int| 0 <= i < m.len() implies !#[trigger] occurs_at(
            m + after,
            pat,
            i,
        ) by {
            assert(m + after == rest);
            if b < 0 {
                assert(!occurs_at(rest, pat, i));
            }
        }
        assert(is_second_piece(line, pat, before, m, after));
    } else if contains_text(line, pat) {
        let i = choose|i: int| #[trigger] occurs_at(line, pat, i);
        assert(occurs_at(line, pat, i));
    }
}

proof fn lemma_last_trap(ls: Seq<Seq<char>>, n: int)
    requires
        0 <= n <= ls.len(),
    ensures
        match last_trap(ls, n) {
            Some(m) => exists|k: int|
                0 <= k < n && second_piece(#[trigger] ls[k], "wasm trap: "@) == Some(m) && forall|
                    x: int,
                |
                    k < x < n ==> second_piece(#[trigger] ls[x], "wasm trap: "@) is None,
            None => forall|k: int|
                0 <= k < n ==> second_piece(#[trigger] ls[k], "wasm trap: "@) is None,
        },
    decreases n,
{
    if n > 0 {
        lemma_last_trap(ls, n - 1);
        if second_piece(ls[n - 1], "wasm trap: "@) is Some {
            let k = n - 1;
            assert(second_piece(ls[k], "wasm trap: "@) == last_trap(ls, n));
        }
    }
}

/// The detail of a trap is what the last line that tells of one says. Where
/// no line does it is the first line, and where there is none a bare word.
pub proof fn law_trap_detail(text: Seq<char>)
    ensures
        ({
            let ls = lines(text);
            if exists|k: int|
                0 <= k < ls.len() && contains_text(#[trigger] ls[k], "wasm trap: "@) {
                exists|k: int|
                    0 <= k < ls.len() && contains_text(#[trigger] ls[k], "wasm trap: "@) && (
                    forall|x: int|
                        k < x < ls.len() ==> !contains_text(#[trigger] ls[x], "wasm trap: "@))
                        && one_line(text) == "wasm trap: "@ + second_piece(
                        ls[k],
                        "wasm trap: "@,
                    )->0
            } else {
                one_line(text) == if ls.len() > 0 { ls[0] } else { "trap"@ }
            }
        }),
{
    reveal_strlit("wasm trap: ");
    let ls = lines(text);
    let pat = "wasm trap: "@;
    lemma_last_trap(ls, ls.len() as int);
    assert forall|k: int| 0 <= k < ls.len() implies (second_piece(#[trigger] ls[k], pat) is None
        <==> !contains_text(ls[k], pat)) by {
        law_second_piece(ls[k], pat);
    }
}

/// An error is the budget's where it says so itself or its text does; any
/// other is a trap. It is the same verdict wherever the error came up: as the
/// session was made, as the case ran, or in the call.
pub proof fn law_error_verdict(
    e: CallErrorView,
    secs: u64,
    timeout: u64,
    name: Seq<char>,
)
    ensures
        ({
            let told = e.budget || exists|a: Seq<char>, b: Seq<char>|
                e.text == #[trigger] (a + "execution budget exceeded"@ + b);
            let v = error_verdict(e, secs);
            &&& v is Limit <==> told
            &&& v is Limit ==> v->Limit_0 == "execution-budget"@ && v->Limit_1
                == "execution budget exceeded ("@ + decimal(secs as nat) + "s wasm execution)"@
            &&& !told ==> v == VerdictView::Trap(one_line(e.text))
            &&& call_outcome(CallView::Errored(e), secs) == Ok::<VerdictView, Seq<char>>(v)
            &&& uncreated(name, TroubleView::Errored(e), secs, timeout) == served_as(
                name,
                RanView::Errored(e),
                secs,
                timeout,
            )
            &&& served_as(name, RanView::Errored(e), secs, timeout) == (ServedView {
                name,
                verdict: v,
                diagnostics: Seq::empty(),
            })
        }),
{
    law_contains_text(e.text, "execution budget exceeded"@);
}

/// A case that ran out of time is a limit, with what it had said so far; one
/// whose session was not made in time is too, with nothing said. What finished
/// is handed on as it is.
pub proof fn law_timeouts(name: Seq<char>, said: Seq<Seq<char>>, secs: u64, timeout: u64, s: ServedView)
    ensures
        served_as(name, RanView::TimedOut(said), secs, timeout) == (ServedView {
            name,
            verdict: VerdictView::Limit(
                "case-timeout"@,
                "case timeout exceeded ("@ + decimal(timeout as nat) + "s)"@,
            ),
            diagnostics: said,
        }),
        uncreated(name, TroubleView::TimedOut, secs, timeout) == (ServedView {
            name,
            verdict: VerdictView::Limit(
                "case-timeout"@,
                "session creation exceeded case timeout ("@ + decimal(timeout as nat) + "s)"@,
            ),
            diagnostics: Seq::empty(),
        }),
        served_as(name, RanView::Finished(s), secs, timeout) == s,
{
}

/// What a call returned is a verdict exactly where it is one of the outcomes
/// that there are; a missing detail reads as an empty one.
pub proof fn law_call_outcome(c: CallView, secs: u64, d: Seq<char>)
    ensures
        call_outcome(c, secs) is Ok <==> c is Errored || c is Passed || (c is Outcome && (
        c->Outcome_0 == "failed"@ || c->Outcome_0 == "skipped"@)),
        call_outcome(c, secs) == Ok::<VerdictView, Seq<char>>(VerdictView::Pass) <==> c is Passed,
        call_outcome(c, secs) == Ok::<VerdictView, Seq<char>>(VerdictView::Fail(d)) <==> c
            == CallView::Outcome("failed"@, Some(d)) || (c == CallView::Outcome("failed"@, None) && d
            == ""@),
        call_outcome(c, secs) == Ok::<VerdictView, Seq<char>>(VerdictView::Skip(d)) <==> c
            == CallView::Outcome("skipped"@, Some(d)) || (c == CallView::Outcome("skipped"@, None) && d
            == ""@),
{
    reveal_strlit("");
    reveal_strlit("failed");
    reveal_strlit("skipped");
    assert(""@ =~= Seq::<char>::empty());
    assert("failed"@.len() != "skipped"@.len());
}

/// What is charged for the readings of one thread's clock, one after another.
pub open spec fn charged(last: Option<(u64, u128)>, readings: Seq<u128>, thread: u64) -> int
    decreases readings.len(),
{
    if readings.len() == 0 {
        0
    } else {
        charge(last, Some(readings[0]), thread) + charged(
            baseline(last, Some(readings[0]), thread),
            readings.skip(1),
            thread,
        )
    }
}

/// As long as one thread runs the case, what is charged is the time between
/// the first reading of its clock and the last, however often it is read.
pub proof fn law_charged_in_all(readings: Seq<u128>, thread: u64)
    requires
        readings.len() > 0,
        forall|i: int, j: int| 0 <= i < j < readings.len() ==> readings[i] <= readings[j],
    ensures
        charged(None, readings, thread) == readings.last() - readings[0],
{
    lemma_charged(readings[0], readings.skip(1), thread);
}

proof fn lemma_charged(since: u128, readings: Seq<u128>, thread: u64)
    requires
        forall|i: int, j: int| 0 <= i < j < readings.len() ==> readings[i] <= readings[j],
        readings.len() > 0 ==> since <= readings[0],
    ensures
        charged(Some((thread, since)), readings, thread) == if readings.len() > 0 {
            readings.last() - since
        } else {
            0
        },
    decreases readings.len(),
{
    if readings.len() > 0 {
        let rest = readings.skip(1);
        if rest.len() > 0 {
            assert(rest[0] == readings[1]);
            assert(readings[0] <= readings[1]);
        }
        lemma_charged(readings[0], rest, thread);
    }
}

/// Time on another thread, or on a clock that went back, is not charged, and
/// counts from there. Without a clock each tick is charged in full, and what
/// was read last stays.
pub proof fn law_charge_elsewhere(last: (u64, u128), now: u128, thread: u64)
    ensures
        last.0 != thread || now < last.1 ==> charge(Some(last), Some(now), thread) == 0,
        last.0 == thread && now >= last.1 ==> charge(Some(last), Some(now), thread) == now - last.1,
        charge(Some(last), None, thread) == 100_000_000,
        charge(None, None, thread) == 100_000_000,
        baseline(Some(last), Some(now), thread) == Some((thread, now)),
        baseline(Some(last), None, thread) == Some(last),
{
}

/// A budget is spent once its seconds have been used in full, and not before.
pub proof fn law_exhausted(used: int, secs: u64)
    requires
        secs > 0,
    ensures
        exhausted(used, secs) <==> used >= secs * 1_000_000_000,
{
}

} // verus!
