//! What a whole run puts out, and that the number of workers does not show.

use vstd::prelude::*;

use crate::results::{bare_case, CaseView, Status};
use crate::runner::{
    counted, diagnostic_texts, law_counted_once, served_case, served_line, served_output, step,
    summary_line, OutputView, RunState, StepView, Summary,
};
use crate::schedule::{law_stripe_covers, runnable, stripe, PlanView};
use crate::session::ServedView;

verus! {

/// A run of a plan at its beginning.
pub open spec fn run_start(plan: Seq<PlanView>, human: bool) -> RunState {
    RunState {
        plan,
        at: 0,
        summary: Summary { not_applicable: 0, passed: 0, failed: 0, skipped: 0 },
        human,
    }
}

/// The run once the case at hand was served.
pub open spec fn after_served(s: RunState, c: ServedView) -> RunState {
    RunState { at: s.at + 1, summary: counted(s.summary, c.verdict), ..s }
}

/// What the rest of a run puts out, and how it ends, where serving gives the
/// results that are there by the place of their case.
pub open spec fn rest_of_run(s: RunState, results: Map<int, ServedView>, shown: bool) -> (
    Seq<OutputView>,
    RunState,
)
    decreases s.plan.len() - s.at,
{
    if s.at < 0 || s.at >= s.plan.len() {
        match step(s).0 {
            StepView::Done(out) => (seq![out], s),
            _ => (seq![], s),
        }
    } else {
        match step(s) {
            (StepView::Serve(out, index, _), _) => {
                let c = results[index];
                let rest = rest_of_run(after_served(s, c), results, shown);
                (seq![out, served_output(s, c, shown)] + rest.0, rest.1)
            },
            (StepView::Report(out), next) => {
                let rest = rest_of_run(next, results, shown);
                (seq![out] + rest.0, rest.1)
            },
            (StepView::Done(out), _) => (seq![out], s),
        }
    }
}

/// What `jobs` workers bring in of `items`, each serving its stripe, where
/// `serve` says what serving a case gives.
pub open spec fn brought_in(
    items: Seq<int>,
    jobs: int,
    serve: spec_fn(int) -> ServedView,
) -> Map<int, ServedView> {
    Map::new(
        |i: int|
            exists|w: int|
                0 <= w < jobs && (#[trigger] stripe(items, w, jobs, items.len() as int)).contains(
                    i,
                ),
        |i: int| serve(i),
    )
}

proof fn lemma_stripe_within(items: Seq<int>, worker: int, jobs: int, n: int, x: int)
    requires
        0 <= n <= items.len(),
        stripe(items, worker, jobs, n).contains(x),
    ensures
        items.contains(x),
    decreases n,
{
    if n > 0 {
        let init = stripe(items, worker, jobs, n - 1);
        let s = stripe(items, worker, jobs, n);
        let a = choose|a: int| 0 <= a < s.len() && s[a] == x;
        if a < init.len() {
            assert(init[a] == x);
            lemma_stripe_within(items, worker, jobs, n - 1, x);
        } else {
            assert(items[n - 1] == x);
        }
    }
}

proof fn lemma_brought_in(items: Seq<int>, jobs: int, serve: spec_fn(int) -> ServedView)
    requires
        jobs > 0,
    ensures
        forall|i: int| #[trigger]
            brought_in(items, jobs, serve).dom().contains(i) <==> items.contains(i),
{
    let n = items.len() as int;
    assert forall|i: int| #[trigger] brought_in(items, jobs, serve).dom().contains(i)
        <==> items.contains(i) by {
        if items.contains(i) {
            let k = choose|k: int| 0 <= k < items.len() && items[k] == i;
            law_stripe_covers(items, jobs, n, k);
            assert(0 <= k % jobs < jobs) by (nonlinear_arith)
                requires
                    jobs > 0,
            ;
            assert(stripe(items, k % jobs, jobs, n).contains(i));
        }
        if brought_in(items, jobs, serve).dom().contains(i) {
            let w = choose|w: int|
                0 <= w < jobs && (#[trigger] stripe(items, w, jobs, n)).contains(i);
            lemma_stripe_within(items, w, jobs, n, i);
        }
    }
}

proof fn lemma_runnable(plan: Seq<PlanView>, n: int, k: int)
    requires
        0 <= k < n <= plan.len(),
        plan[k].excluded is None,
    ensures
        runnable(plan, n).contains(plan[k].index),
    decreases n,
{
    let r = runnable(plan, n);
    if k == n - 1 {
        assert(r[r.len() - 1] == plan[k].index);
    } else {
        lemma_runnable(plan, n - 1, k);
        let init = runnable(plan, n - 1);
        let a = choose|a: int| 0 <= a < init.len() && init[a] == plan[k].index;
        assert(r[a] == plan[k].index);
    }
}

/// Every case of the plan that runs is served by some worker, and what is
/// brought in of it is what serving it gives.
pub proof fn law_every_case_is_brought_in(
    plan: Seq<PlanView>,
    jobs: int,
    serve: spec_fn(int) -> ServedView,
    k: int,
)
    requires
        jobs > 0,
        0 <= k < plan.len(),
        plan[k].excluded is None,
    ensures
        ({
            let results = brought_in(runnable(plan, plan.len() as int), jobs, serve);
            results.dom().contains(plan[k].index) && results[plan[k].index] == serve(
                plan[k].index,
            )
        }),
{
    let items = runnable(plan, plan.len() as int);
    lemma_runnable(plan, plan.len() as int, k);
    lemma_brought_in(items, jobs, serve);
    assert(brought_in(items, jobs, serve).dom().contains(plan[k].index));
}

proof fn lemma_shown(s: RunState, results: Map<int, ServedView>, a: bool, b: bool)
    requires
        0 <= s.at <= s.plan.len(),
        !s.human || a == b,
    ensures
        rest_of_run(s, results, a) == rest_of_run(s, results, b),
    decreases s.plan.len() - s.at,
{
    if s.at < s.plan.len() {
        match step(s) {
            (StepView::Serve(_, index, _), _) => {
                lemma_shown(after_served(s, results[index]), results, a, b);
            },
            (_, next) => {
                lemma_shown(next, results, a, b);
            },
        }
    }
}

/// The number of workers does not show: where serving a case gives the same
/// whoever serves it, everything that a run puts out and every count are the
/// same for any two numbers of workers. (Reporting to people, diagnostics are
/// either shown as they arrive in both runs, or in neither.)
pub proof fn law_jobs_do_not_show(
    plan: Seq<PlanView>,
    human: bool,
    jobs: int,
    shown: bool,
    other_jobs: int,
    other_shown: bool,
    serve: spec_fn(int) -> ServedView,
)
    requires
        jobs > 0,
        other_jobs > 0,
        human ==> shown == other_shown,
    ensures
        ({
            let items = runnable(plan, plan.len() as int);
            rest_of_run(run_start(plan, human), brought_in(items, jobs, serve), shown)
                == rest_of_run(
                run_start(plan, human),
                brought_in(items, other_jobs, serve),
                other_shown,
            )
        }),
{
    lemma_shown(
        run_start(plan, human),
        brought_in(runnable(plan, plan.len() as int), jobs, serve),
        shown,
        other_shown,
    );
    let items = runnable(plan, plan.len() as int);
    lemma_brought_in(items, jobs, serve);
    lemma_brought_in(items, other_jobs, serve);
    let a = brought_in(items, jobs, serve);
    let b = brought_in(items, other_jobs, serve);
    assert forall|i: int| #[trigger] a.dom().contains(i) <==> b.dom().contains(i) by {
        assert(b.dom().contains(i) <==> items.contains(i));
    }
    assert(a =~= b);
}

/// The events among outputs, in order.
pub open spec fn events_of(outs: Seq<OutputView>) -> Seq<CaseView>
    decreases outs.len(),
{
    if outs.len() == 0 {
        Seq::<CaseView>::empty()
    } else {
        match outs[0] {
            OutputView::Case(c) => seq![c] + events_of(outs.skip(1)),
            _ => events_of(outs.skip(1)),
        }
    }
}

/// The event of an entry of the plan: that of a case that a mark excludes, or
/// what serving it gave.
pub open spec fn entry_event(p: PlanView, results: Map<int, ServedView>) -> CaseView {
    match p.excluded {
        Some(mark) => bare_case(p.name, Status::NotApplicable, Some(mark)),
        None => served_case(results[p.index]),
    }
}

/// The events of a plan's entries from the `i`-th on.
pub open spec fn plan_events(plan: Seq<PlanView>, results: Map<int, ServedView>, i: int) -> Seq<
    CaseView,
> {
    Seq::new((plan.len() - i) as nat, |k: int| entry_event(plan[i + k], results))
}

proof fn lemma_rest(s: RunState, results: Map<int, ServedView>, shown: bool)
    requires
        0 <= s.at <= s.plan.len() <= usize::MAX,
        s.summary.sum() == s.at,
        !s.human,
    ensures
        ({
            let (outs, end) = rest_of_run(s, results, shown);
            &&& events_of(outs) == plan_events(s.plan, results, s.at)
            &&& outs.len() > 0 && outs.last() == OutputView::Terminator
            &&& end.summary.sum() == s.plan.len()
        }),
    decreases s.plan.len() - s.at,
{
    let (outs, end) = rest_of_run(s, results, shown);
    if s.at == s.plan.len() {
        assert(outs =~= seq![OutputView::Terminator]);
        assert(outs.skip(1) =~= Seq::<OutputView>::empty());
        assert(events_of(outs.skip(1)) =~= Seq::<CaseView>::empty());
        assert(events_of(outs) =~= plan_events(s.plan, results, s.at));
    } else {
        let entry = s.plan[s.at];
        match entry.excluded {
            Some(mark) => {
                let next = step(s).1;
                lemma_rest(next, results, shown);
                let rest = rest_of_run(next, results, shown).0;
                assert(outs.skip(1) =~= rest);
                assert(events_of(outs) =~= plan_events(s.plan, results, s.at));
            },
            None => {
                let c = results[entry.index];
                law_counted_once(s.summary, c.verdict);
                let next = after_served(s, c);
                lemma_rest(next, results, shown);
                let rest = rest_of_run(next, results, shown).0;
                assert(outs.skip(1).skip(1) =~= rest);
                assert(outs.skip(1)[0] == OutputView::Case(served_case(c)));
                assert(events_of(outs.skip(1)) == seq![served_case(c)] + events_of(rest));
                assert(events_of(outs) =~= plan_events(s.plan, results, s.at));
            },
        }
    }
}

/// A run's stream holds one event per entry of its plan, in the order of the
/// plan, and then the terminator; every entry counts once.
pub proof fn law_run_reports_its_plan(
    plan: Seq<PlanView>,
    results: Map<int, ServedView>,
    shown: bool,
)
    requires
        plan.len() <= usize::MAX,
    ensures
        ({
            let (outs, end) = rest_of_run(run_start(plan, false), results, shown);
            &&& events_of(outs) == plan_events(plan, results, 0)
            &&& events_of(outs).len() == plan.len()
            &&& outs.len() > 0 && outs.last() == OutputView::Terminator
            &&& end.summary.sum() == plan.len()
        }),
{
    lemma_rest(run_start(plan, false), results, shown);
}

/// Is the entry run, with such a verdict?
pub open spec fn runs_to(p: PlanView, results: Map<int, ServedView>, status: Status) -> bool {
    p.excluded is None && served_case(results[p.index]).status == status
}

/// A summary that counts the entries by what became of each.
pub open spec fn sums_up(s: Summary, plan: Seq<PlanView>, results: Map<int, ServedView>) -> bool {
    &&& s.passed == plan.filter(|p: PlanView| runs_to(p, results, Status::Pass)).len()
    &&& s.failed == plan.filter(|p: PlanView| runs_to(p, results, Status::Fail)).len()
    &&& s.skipped == plan.filter(|p: PlanView| runs_to(p, results, Status::Skipped)).len()
    &&& s.not_applicable == plan.filter(|p: PlanView| p.excluded is Some).len()
}

proof fn lemma_summed(s: RunState, results: Map<int, ServedView>, shown: bool)
    requires
        0 <= s.at <= s.plan.len() <= usize::MAX,
        s.summary.sum() == s.at,
        sums_up(s.summary, s.plan.take(s.at), results),
    ensures
        sums_up(rest_of_run(s, results, shown).1.summary, s.plan, results),
    decreases s.plan.len() - s.at,
{
    if s.at == s.plan.len() {
        assert(s.plan.take(s.at) =~= s.plan);
    } else {
        reveal(Seq::filter);
        let entry = s.plan[s.at];
        let more = s.plan.take(s.at + 1);
        assert(more.drop_last() =~= s.plan.take(s.at));
        assert(more.last() == entry);
        match entry.excluded {
            Some(mark) => {
                lemma_summed(step(s).1, results, shown);
            },
            None => {
                let c = results[entry.index];
                law_counted_once(s.summary, c.verdict);
                lemma_summed(after_served(s, c), results, shown);
            },
        }
    }
}

/// At the end of a run its summary counts the entries of the plan: those that
/// passed, failed and were skipped as they ran, and those that were excluded.
pub proof fn law_run_sums_up(
    plan: Seq<PlanView>,
    human: bool,
    results: Map<int, ServedView>,
    shown: bool,
)
    requires
        plan.len() <= usize::MAX,
    ensures
        sums_up(rest_of_run(run_start(plan, human), results, shown).1.summary, plan, results),
{
    let s = run_start(plan, human);
    reveal(Seq::filter);
    assert(plan.take(0) =~= Seq::<PlanView>::empty());
    lemma_summed(s, results, shown);
}

/// The lines that a human sees of an entry: one where it is excluded;
/// otherwise one before it runs, its diagnostics unless they were shown
/// already, and one with its verdict.
pub open spec fn entry_lines(p: PlanView, results: Map<int, ServedView>, shown: bool) -> Seq<
    Seq<char>,
> {
    if p.excluded is Some {
        seq!["test "@ + p.name + ": N/A ("@ + p.excluded->0 + ")"@]
    } else {
        let c = results[p.index];
        seq!["test "@ + p.name + " ..."@] + (if shown {
            seq![]
        } else {
            c.diagnostics.map_values(|d: Seq<char>| "    diag: "@ + d)
        }) + seq![served_line(c)]
    }
}

/// The lines of an output.
pub open spec fn lines_in(o: OutputView) -> Seq<Seq<char>> {
    if o is Lines { o->Lines_0 } else { seq![] }
}

proof fn lemma_seen(s: RunState, results: Map<int, ServedView>, shown: bool)
    requires
        0 <= s.at <= s.plan.len(),
        s.human,
    ensures
        ({
            let (outs, end) = rest_of_run(s, results, shown);
            outs.map_values(|o: OutputView| lines_in(o)).flatten_alt() == s.plan.skip(
                s.at,
            ).map_values(|p: PlanView| entry_lines(p, results, shown)).flatten_alt() + seq![
                summary_line(end.summary),
            ]
        }),
    decreases s.plan.len() - s.at,
{
    let (outs, end) = rest_of_run(s, results, shown);
    let f = |o: OutputView| lines_in(o);
    let g = |p: PlanView| entry_lines(p, results, shown);
    let left = s.plan.skip(s.at);
    if s.at == s.plan.len() {
        let texts = outs.map_values(f);
        assert(texts =~= seq![seq![summary_line(end.summary)]]);
        lemma_flat_one(seq![summary_line(end.summary)]);
        assert(left.map_values(g) =~= Seq::empty());
        assert(texts.flatten_alt() =~= left.map_values(g).flatten_alt() + seq![
            summary_line(end.summary),
        ]);
    } else {
        let entry = s.plan[s.at];
        let next = match entry.excluded {
            Some(_) => step(s).1,
            None => after_served(s, results[entry.index]),
        };
        lemma_seen(next, results, shown);
        let rest = rest_of_run(next, results, shown).0;
        let first = outs.take(outs.len() - rest.len());
        assert(outs =~= first + rest);
        assert(outs.map_values(f) =~= first.map_values(f) + rest.map_values(f));
        vstd::seq_lib::lemma_flatten_alt_concat(first.map_values(f), rest.map_values(f));
        let one = seq![g(entry)];
        assert(left.map_values(g) =~= one + s.plan.skip(s.at + 1).map_values(g));
        vstd::seq_lib::lemma_flatten_alt_concat(one, s.plan.skip(s.at + 1).map_values(g));
        lemma_flat_one(g(entry));
        match entry.excluded {
            Some(_) => {
                assert(first.map_values(f) =~= one);
            },
            None => {
                let c = results[entry.index];
                let a = seq!["test "@ + entry.name + " ..."@];
                let b = lines_in(served_output(s, c, shown));
                assert(first.map_values(f) =~= seq![a] + seq![b]);
                vstd::seq_lib::lemma_flatten_alt_concat(seq![a], seq![b]);
                lemma_flat_one(a);
                lemma_flat_one(b);
                assert(diagnostic_texts(c.diagnostics) =~= c.diagnostics.map_values(
                    |d: Seq<char>| "    diag: "@ + d,
                ));
                assert(a + b =~= g(entry));
            },
        }
        let tail = s.plan.skip(s.at + 1).map_values(g).flatten_alt();
        assert(g(entry) + (tail + seq![summary_line(end.summary)]) =~= (g(entry) + tail) + seq![
            summary_line(end.summary),
        ]);
    }
}

proof fn lemma_flat_one<A>(s: Seq<A>)
    ensures
        seq![s].flatten_alt() == s,
{
    assert(seq![s].drop_last() =~= Seq::<Seq<A>>::empty());
    assert(seq![s].drop_last().flatten_alt() =~= Seq::<A>::empty());
    assert(seq![s].flatten_alt() =~= s);
}

/// A human sees the entries of the plan in order, each with what became of it,
/// and then the summary.
pub proof fn law_run_shows_its_plan(
    plan: Seq<PlanView>,
    results: Map<int, ServedView>,
    shown: bool,
)
    ensures
        ({
            let (outs, end) = rest_of_run(run_start(plan, true), results, shown);
            outs.map_values(|o: OutputView| lines_in(o)).flatten_alt() == plan.map_values(
                |p: PlanView| entry_lines(p, results, shown),
            ).flatten_alt() + seq![summary_line(end.summary)]
        }),
{
    lemma_seen(run_start(plan, true), results, shown);
    assert(plan.skip(0) =~= plan);
}

} // verus!
