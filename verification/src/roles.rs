//! Folding the result sets of several roles in one run (a pair, a mesh) into
//! one result per case.

use vstd::prelude::*;

use crate::results::{case_views, CaseResult, CaseView, Status};
use crate::text::{same, views, Text};

verus! {

/// How bad a status is.
pub open spec fn rank(status: Status) -> int {
    match status {
        Status::Fail => 3,
        Status::NotReached => 2,
        Status::Skipped => 1,
        _ => 0,
    }
}

/// One role's report of a case.
#[verifier::ext_equal]
pub struct Report {
    pub role: Seq<char>,
    pub result: CaseView,
}

/// The reports of a role.
pub open spec fn role_reports(role: Seq<char>, results: Seq<CaseView>) -> Seq<Report> {
    Seq::new(results.len(), |i: int| Report { role, result: results[i] })
}

/// Every report, role by role.
pub open spec fn all_reports(roles: Seq<(Seq<char>, Seq<CaseView>)>) -> Seq<Report>
    decreases roles.len(),
{
    if roles.len() == 0 {
        Seq::<Report>::empty()
    } else {
        all_reports(roles.drop_last()) + role_reports(roles.last().0, roles.last().1)
    }
}

/// The cases in the order of their first report.
pub open spec fn case_order(reports: Seq<Report>) -> Seq<Seq<char>>
    decreases reports.len(),
{
    if reports.len() == 0 {
        Seq::<Seq<char>>::empty()
    } else {
        let init = case_order(reports.drop_last());
        if init.contains(reports.last().result.case) {
            init
        } else {
            init.push(reports.last().result.case)
        }
    }
}

/// The reports of one case.
pub open spec fn reports_of(reports: Seq<Report>, case: Seq<char>) -> Seq<Report>
    decreases reports.len(),
{
    if reports.len() == 0 {
        Seq::<Report>::empty()
    } else {
        let init = reports_of(reports.drop_last(), case);
        if reports.last().result.case == case {
            init.push(reports.last())
        } else {
            init
        }
    }
}

/// The position of the worst of the first `n` reports, the earliest of equals.
pub open spec fn worst(reports: Seq<Report>, n: int) -> int
    decreases n,
{
    if n <= 1 {
        0
    } else {
        let best = worst(reports, n - 1);
        if rank(reports[n - 1].result.status) > rank(reports[best].result.status) {
            n - 1
        } else {
            best
        }
    }
}

/// What a report says: its detail, or else its status.
pub open spec fn said(r: CaseView) -> Seq<char> {
    match r.detail {
        Some(d) => d,
        None => r.status.text(),
    }
}

/// A line with the role that it comes from.
pub open spec fn labelled(role: Seq<char>, line: Seq<char>) -> Seq<char> {
    role + ": "@ + line
}

/// What the reports that did not pass say, each after `; `.
pub open spec fn other_details(others: Seq<Report>) -> Seq<char>
    decreases others.len(),
{
    if others.len() == 0 {
        Seq::<char>::empty()
    } else if rank(others.last().result.status) > 0 {
        other_details(others.drop_last()) + "; "@ + labelled(
            others.last().role,
            said(others.last().result),
        )
    } else {
        other_details(others.drop_last())
    }
}

/// The diagnostics of a report with its role on every line.
pub open spec fn labelled_diagnostics(r: Report) -> Seq<Seq<char>> {
    Seq::new(r.result.diagnostics.len(), |i: int| labelled(r.role, r.result.diagnostics[i]))
}

/// The labelled diagnostics of several reports.
pub open spec fn all_diagnostics(reports: Seq<Report>) -> Seq<Seq<char>>
    decreases reports.len(),
{
    if reports.len() == 0 {
        Seq::<Seq<char>>::empty()
    } else {
        all_diagnostics(reports.drop_last()) + labelled_diagnostics(reports.last())
    }
}

/// The longer of two durations, where there are any.
pub open spec fn longer(a: Option<u64>, b: Option<u64>) -> Option<u64> {
    match (a, b) {
        (Some(x), Some(y)) => if x >= y { Some(x) } else { Some(y) },
        (Some(x), None) => Some(x),
        (None, y) => y,
    }
}

/// The longest duration among the reports.
pub open spec fn longest(reports: Seq<Report>) -> Option<u64>
    decreases reports.len(),
{
    if reports.len() == 0 {
        None
    } else {
        longer(longest(reports.drop_last()), reports.last().result.duration_ms)
    }
}

/// Are all diagnostics complete?
pub open spec fn all_complete(reports: Seq<Report>) -> bool {
    forall|i: int| 0 <= i < reports.len() ==> (#[trigger] reports[i]).result.diagnostics_complete
}

/// The one result for the reports of a case: the worst of them, with every
/// side named; a single report stays as it is.
pub open spec fn merged(reports: Seq<Report>) -> CaseView {
    if reports.len() == 1 {
        reports[0].result
    } else {
        let at = worst(reports, reports.len() as int);
        let winner = reports[at];
        let others = reports.remove(at);
        CaseView {
            detail: if rank(winner.result.status) > 0 {
                Some(labelled(winner.role, said(winner.result)) + other_details(others))
            } else {
                winner.result.detail
            },
            diagnostics: labelled_diagnostics(winner) + all_diagnostics(others),
            diagnostics_complete: all_complete(reports),
            duration_ms: longest(reports),
            ..winner.result
        }
    }
}

/// One result per case, in the order of first reports.
pub open spec fn folded_roles(roles: Seq<(Seq<char>, Seq<CaseView>)>) -> Seq<CaseView> {
    let reports = all_reports(roles);
    let order = case_order(reports);
    Seq::new(order.len(), |i: int| merged(reports_of(reports, order[i])))
}

/// The view of role-labelled result sets.
pub open spec fn roles_view<S: Text>(roles: Seq<(S, Vec<CaseResult>)>) -> Seq<
    (Seq<char>, Seq<CaseView>),
> {
    Seq::new(roles.len(), |i: int| (roles[i].0.text(), case_views(roles[i].1@)))
}

// ---------------------------------------------------------------------
// Code
// ---------------------------------------------------------------------

fn rank_of(status: Status) -> (r: u8)
    ensures
        r == rank(status),
{
    match status {
        Status::Fail => 3,
        Status::NotReached => 2,
        Status::Skipped => 1,
        _ => 0,
    }
}

/// A report as a role's position and a borrowed result.
struct Seen<'a> {
    role: usize,
    result: &'a CaseResult,
}

spec fn seen_view<S: Text>(roles: Seq<(S, Vec<CaseResult>)>, s: Seen) -> Report {
    Report { role: roles[s.role as int].0.text(), result: s.result@ }
}

spec fn seen_views<S: Text>(roles: Seq<(S, Vec<CaseResult>)>, v: Seq<Seen>) -> Seq<Report> {
    Seq::new(v.len(), |i: int| seen_view(roles, v[i]))
}

spec fn in_range<S: Text>(roles: Seq<(S, Vec<CaseResult>)>, v: Seq<Seen>) -> bool {
    forall|i: int| 0 <= i < v.len() ==> (#[trigger] v[i]).role < roles.len()
}

fn collect_reports<'a, S: Text>(roles: &'a [(S, Vec<CaseResult>)]) -> (r: Vec<Seen<'a>>)
    ensures
        seen_views(roles@, r@) == all_reports(roles_view(roles@)),
        in_range(roles@, r@),
{
    let ghost rv = roles_view(roles@);
    let mut r: Vec<Seen<'a>> = Vec::new();
    let mut i: usize = 0;
    assert(seen_views(roles@, r@) =~= all_reports(rv.take(0)));
    while i < roles.len()
        invariant
            i <= roles@.len(),
            rv == roles_view(roles@),
            seen_views(roles@, r@) == all_reports(rv.take(i as int)),
            in_range(roles@, r@),
        decreases roles.len() - i,
    {
        assert(rv.take(i + 1).drop_last() =~= rv.take(i as int));
        assert(rv.take(i + 1).last() == rv[i as int]);
        let ghost base = seen_views(roles@, r@);
        let ghost mine = role_reports(rv[i as int].0, rv[i as int].1);
        let results = &roles[i].1;
        let mut k: usize = 0;
        assert(seen_views(roles@, r@) =~= base + mine.take(0));
        while k < results.len()
            invariant
                k <= results@.len(),
                i < roles@.len(),
                rv == roles_view(roles@),
                mine == role_reports(rv[i as int].0, rv[i as int].1),
                *results == roles@[i as int].1,
                seen_views(roles@, r@) == base + mine.take(k as int),
                in_range(roles@, r@),
            decreases results.len() - k,
        {
            let ghost was = seen_views(roles@, r@);
            let seen = Seen { role: i, result: &results[k] };
            assert(seen_view(roles@, seen) == mine[k as int]);
            r.push(seen);
            assert(seen_views(roles@, r@) =~= was.push(mine[k as int]));
            assert(was.push(mine[k as int]) =~= base + mine.take(k + 1));
            k += 1;
        }
        assert(mine.take(k as int) =~= mine);
        i += 1;
    }
    assert(rv.take(i as int) =~= rv);
    r
}

fn order_of<'a, S: Text>(roles: &'a [(S, Vec<CaseResult>)], seen: &[Seen<'a>]) -> (r: Vec<String>)
    ensures
        views(r@) == case_order(seen_views(roles@, seen@)),
{
    let ghost sv = seen_views(roles@, seen@);
    let mut r: Vec<String> = Vec::new();
    let mut i: usize = 0;
    assert(views(r@) =~= case_order(sv.take(0)));
    while i < seen.len()
        invariant
            i <= seen@.len(),
            sv == seen_views(roles@, seen@),
            views(r@) == case_order(sv.take(i as int)),
        decreases seen.len() - i,
    {
        assert(sv.take(i + 1).drop_last() =~= sv.take(i as int));
        assert(sv.take(i + 1).last().result.case == seen@[i as int].result.case@);
        let case = &seen[i].result.case;
        if !crate::text::among(&r, case.as_str()) {
            let ghost was = views(r@);
            r.push(case.clone());
            assert(views(r@) =~= was.push(case@));
        }
        i += 1;
    }
    assert(sv.take(i as int) =~= sv);
    r
}

fn select<'a, S: Text>(
    roles: &'a [(S, Vec<CaseResult>)],
    seen: &[Seen<'a>],
    case: &str,
) -> (r: Vec<Seen<'a>>)
    requires
        in_range(roles@, seen@),
    ensures
        seen_views(roles@, r@) == reports_of(seen_views(roles@, seen@), case@),
        in_range(roles@, r@),
{
    let ghost sv = seen_views(roles@, seen@);
    let mut r: Vec<Seen<'a>> = Vec::new();
    let mut i: usize = 0;
    assert(seen_views(roles@, r@) =~= reports_of(sv.take(0), case@));
    while i < seen.len()
        invariant
            i <= seen@.len(),
            sv == seen_views(roles@, seen@),
            seen_views(roles@, r@) == reports_of(sv.take(i as int), case@),
            in_range(roles@, seen@),
            in_range(roles@, r@),
        decreases seen.len() - i,
    {
        assert(sv.take(i + 1).drop_last() =~= sv.take(i as int));
        assert(sv.take(i + 1).last() == seen_view(roles@, seen@[i as int]));
        if same(seen[i].result.case.as_str(), case) {
            let ghost was = seen_views(roles@, r@);
            r.push(Seen { role: seen[i].role, result: seen[i].result });
            assert(seen_views(roles@, r@) =~= was.push(sv[i as int]));
        }
        i += 1;
    }
    assert(sv.take(i as int) =~= sv);
    r
}

fn append_labelled(out: &mut String, role: &str, line: &str)
    ensures
        final(out)@ == old(out)@ + labelled(role@, line@),
{
    let ghost was = out@;
    out.append(role);
    out.append(": ");
    out.append(line);
    assert(out@ =~= was + labelled(role@, line@));
}

fn append_said(out: &mut String, role: &str, r: &CaseResult)
    ensures
        final(out)@ == old(out)@ + labelled(role@, said(r@)),
{
    match &r.detail {
        Some(d) => append_labelled(out, role, d.as_str()),
        None => append_labelled(out, role, r.status.word()),
    }
}

fn push_diagnostics(out: &mut Vec<String>, role: &str, r: &CaseResult)
    ensures
        views(final(out)@) == views(old(out)@) + labelled_diagnostics(
            Report { role: role@, result: r@ },
        ),
{
    let ghost base = views(out@);
    let ghost mine = labelled_diagnostics(Report { role: role@, result: r@ });
    let mut k: usize = 0;
    assert(views(out@) =~= base + mine.take(0));
    while k < r.diagnostics.len()
        invariant
            k <= r.diagnostics@.len(),
            mine == labelled_diagnostics(Report { role: role@, result: r@ }),
            views(out@) == base + mine.take(k as int),
        decreases r.diagnostics.len() - k,
    {
        let mut line = String::new();
        append_labelled(&mut line, role, r.diagnostics[k].as_str());
        assert(line@ =~= mine[k as int]);
        let ghost was = views(out@);
        out.push(line);
        assert(views(out@) =~= was.push(mine[k as int]));
        assert(was.push(mine[k as int]) =~= base + mine.take(k + 1));
        k += 1;
    }
    assert(mine.take(k as int) =~= mine);
}

proof fn lemma_worst(reports: Seq<Report>, n: int)
    requires
        1 <= n <= reports.len(),
    ensures
        0 <= worst(reports, n) < n,
        forall|i: int|
            0 <= i < n ==> rank((#[trigger] reports[i]).result.status) <= rank(
                reports[worst(reports, n)].result.status,
            ),
        forall|i: int|
            0 <= i < worst(reports, n) ==> rank((#[trigger] reports[i]).result.status) < rank(
                reports[worst(reports, n)].result.status,
            ),
    decreases n,
{
    if n > 1 {
        lemma_worst(reports, n - 1);
    }
}

fn merge<'a, S: Text>(roles: &'a [(S, Vec<CaseResult>)], seen: &[Seen<'a>]) -> (r: CaseResult)
    requires
        seen@.len() >= 1,
        in_range(roles@, seen@),
    ensures
        r@ == merged(seen_views(roles@, seen@)),
{
    let ghost sv = seen_views(roles@, seen@);
    if seen.len() == 1 {
        assert(sv[0].result == seen@[0].result@);
        return seen[0].result.clone();
    }
    let mut at: usize = 0;
    let mut i: usize = 1;
    while i < seen.len()
        invariant
            1 <= i <= seen@.len(),
            sv == seen_views(roles@, seen@),
            at == worst(sv, i as int),
            at < i,
        decreases seen.len() - i,
    {
        assert(sv[i as int].result == seen@[i as int].result@);
        assert(sv[at as int].result == seen@[at as int].result@);
        if rank_of(seen[i].result.status) > rank_of(seen[at].result.status) {
            at = i;
        }
        i += 1;
    }
    let winner = seen[at].result;
    let role = roles[seen[at].role].0.as_text();
    let ghost w = sv[at as int];
    let ghost others = sv.remove(at as int);
    assert(w.result == winner@ && w.role == role@);
    let failing = rank_of(winner.status) > 0;
    let mut detail = String::new();
    append_said(&mut detail, role, winner);
    let mut diagnostics: Vec<String> = Vec::new();
    push_diagnostics(&mut diagnostics, role, winner);
    let ghost detail0 = labelled(w.role, said(w.result));
    let ghost diags0 = labelled_diagnostics(w);
    assert(detail@ =~= detail0);
    assert(views(diagnostics@) =~= diags0);
    let mut complete = true;
    let mut duration: Option<u64> = None;
    let mut k: usize = 0;
    proof {
        assert(other_details(others.take(0)) =~= Seq::<char>::empty());
        assert(all_diagnostics(others.take(0)) =~= Seq::<Seq<char>>::empty());
        assert(detail@ =~= detail0 + other_details(others.take(0)));
        assert(views(diagnostics@) =~= diags0 + all_diagnostics(others.take(0)));
        assert(longest(sv.take(0)) is None);
    }
    while k < seen.len()
        invariant
            k <= seen@.len(),
            at < seen@.len(),
            sv == seen_views(roles@, seen@),
            others == sv.remove(at as int),
            in_range(roles@, seen@),
            detail@ == detail0 + other_details(others.take(if k <= at { k as int } else { k - 1 })),
            views(diagnostics@) == diags0 + all_diagnostics(
                others.take(if k <= at { k as int } else { k - 1 }),
            ),
            complete == all_complete(sv.take(k as int)),
            duration == longest(sv.take(k as int)),
        decreases seen.len() - k,
    {
        let r = seen[k].result;
        let name = roles[seen[k].role].0.as_text();
        assert(sv[k as int].result == r@ && sv[k as int].role == name@);
        assert(sv.take(k + 1).drop_last() =~= sv.take(k as int));
        assert(sv.take(k + 1).last() == sv[k as int]);
        proof {
            let s0 = sv.take(k as int);
            let s1 = sv.take(k + 1);
            if all_complete(s1) {
                assert forall|j: int| 0 <= j < s0.len() implies (
                #[trigger] s0[j]).result.diagnostics_complete by {
                    assert(s1[j] == s0[j]);
                }
                assert(s1[k as int].result.diagnostics_complete);
            }
            if all_complete(s0) && r.diagnostics_complete {
                assert forall|j: int| 0 <= j < s1.len() implies (
                #[trigger] s1[j]).result.diagnostics_complete by {
                    if j < k {
                        assert(s1[j] == s0[j]);
                    }
                }
            }
        }
        complete = complete && r.diagnostics_complete;
        duration = match (duration, r.duration_ms) {
            (Some(x), Some(y)) => if x >= y {
                Some(x)
            } else {
                Some(y)
            },
            (Some(x), None) => Some(x),
            (None, y) => y,
        };
        if k != at {
            let ghost p = if k <= at {
                k as int
            } else {
                k - 1
            };
            assert(others[p] == sv[k as int]);
            assert(others.take(p + 1).drop_last() =~= others.take(p));
            assert(others.take(p + 1).last() == sv[k as int]);
            if rank_of(r.status) > 0 {
                let ghost was = detail@;
                detail.append("; ");
                append_said(&mut detail, name, r);
                assert(detail@ =~= was + "; "@ + labelled(name@, said(r@)));
                assert(detail@ =~= detail0 + other_details(others.take(p + 1)));
            }
            push_diagnostics(&mut diagnostics, name, r);
            assert(views(diagnostics@) =~= diags0 + all_diagnostics(others.take(p + 1)));
        }
        k += 1;
    }
    assert(others.take(k - 1) =~= others);
    assert(sv.take(k as int) =~= sv);
    let mut out = winner.clone();
    if failing {
        out.detail = Some(detail);
    }
    out.diagnostics = diagnostics;
    out.diagnostics_complete = complete;
    out.duration_ms = duration;
    out
}

proof fn lemma_order_reported(reports: Seq<Report>, i: int)
    requires
        0 <= i < case_order(reports).len(),
    ensures
        reports_of(reports, case_order(reports)[i]).len() >= 1,
    decreases reports.len(),
{
    if reports.len() > 0 {
        let init = reports.drop_last();
        if i < case_order(init).len() {
            lemma_order_reported(init, i);
        }
    }
}

/// Fold role-labelled result sets of one run into one result per case.
///
/// - The worst status wins: fail, then not-reached, then skipped, then
///   everything else; ties go to the earlier role, and the cases come in the
///   order of their first report.
/// - Details and diagnostics name their role, the winner's first.
/// - A case that was reported once stays as it is.
/// - The diagnostics are complete when all are; the duration is the longest.
pub fn fold_roles<S: Text>(roles: &[(S, Vec<CaseResult>)]) -> (r: Vec<CaseResult>)
    ensures
        case_views(r@) == folded_roles(roles_view(roles@)),
{
    let seen = collect_reports(roles);
    let order = order_of(roles, &seen);
    let ghost reports = all_reports(roles_view(roles@));
    let ghost all = folded_roles(roles_view(roles@));
    let mut out: Vec<CaseResult> = Vec::new();
    let mut i: usize = 0;
    assert(case_views(out@) =~= all.take(0));
    while i < order.len()
        invariant
            i <= order@.len(),
            reports == all_reports(roles_view(roles@)),
            reports == seen_views(roles@, seen@),
            in_range(roles@, seen@),
            views(order@) == case_order(reports),
            all == folded_roles(roles_view(roles@)),
            case_views(out@) == all.take(i as int),
        decreases order.len() - i,
    {
        assert(views(order@)[i as int] == order@[i as int]@);
        proof {
            lemma_order_reported(reports, i as int);
        }
        let mine = select(roles, &seen, order[i].as_str());
        assert(seen_views(roles@, mine@).len() == mine@.len());
        let r = merge(roles, &mine);
        let ghost was = case_views(out@);
        assert(r@ == all[i as int]);
        out.push(r);
        assert(case_views(out@) =~= was.push(all[i as int]));
        assert(was.push(all[i as int]) =~= all.take(i + 1));
        i += 1;
    }
    assert(all.take(i as int) =~= all);
    out
}

// ---------------------------------------------------------------------
// Laws
// ---------------------------------------------------------------------

/// The result of a case has the worst status that any role reported, and it
/// is the earliest report with that status.
pub proof fn law_worst_status_wins(reports: Seq<Report>)
    requires
        reports.len() >= 1,
    ensures
        forall|i: int|
            0 <= i < reports.len() ==> rank((#[trigger] reports[i]).result.status) <= rank(
                merged(reports).status,
            ),
        exists|i: int|
            0 <= i < reports.len() && (#[trigger] reports[i]).result.status == merged(
                reports,
            ).status && forall|j: int|
                0 <= j < i ==> rank((#[trigger] reports[j]).result.status) < rank(
                    merged(reports).status,
                ),
{
    lemma_worst(reports, reports.len() as int);
    let at = worst(reports, reports.len() as int);
    assert(reports[at].result.status == merged(reports).status);
}

/// A failing report makes the folded result failing: the fold is never
/// greener than a role.
pub proof fn law_fold_never_greener(reports: Seq<Report>, i: int)
    requires
        0 <= i < reports.len(),
        reports[i].result.status.is_failing(),
    ensures
        merged(reports).status.is_failing(),
{
    law_worst_status_wins(reports);
    assert(rank(reports[i].result.status) <= rank(merged(reports).status));
}

/// A single report passes through unmodified.
pub proof fn law_single_report_passes_through(report: Report)
    ensures
        merged(seq![report]) == report.result,
{
}

proof fn lemma_order_contains(reports: Seq<Report>, i: int)
    requires
        0 <= i < reports.len(),
    ensures
        case_order(reports).contains(reports[i].result.case),
    decreases reports.len(),
{
    let init = reports.drop_last();
    let o = case_order(init);
    let c = reports[i].result.case;
    if i == reports.len() - 1 {
        if !o.contains(c) {
            assert(case_order(reports)[o.len() as int] == c);
        }
    } else {
        lemma_order_contains(init, i);
        assert(init[i] == reports[i]);
        let k = choose|k: int| 0 <= k < o.len() && o[k] == c;
        assert(case_order(reports)[k] == c);
    }
}

proof fn lemma_order_distinct(reports: Seq<Report>)
    ensures
        case_order(reports).no_duplicates(),
    decreases reports.len(),
{
    if reports.len() > 0 {
        lemma_order_distinct(reports.drop_last());
    }
}

/// Every reported case gets exactly one place in the order of results.
pub proof fn law_each_case_once(roles: Seq<(Seq<char>, Seq<CaseView>)>)
    ensures
        case_order(all_reports(roles)).no_duplicates(),
        forall|i: int|
            0 <= i < all_reports(roles).len() ==> case_order(all_reports(roles)).contains(
                (#[trigger] all_reports(roles)[i]).result.case,
            ),
{
    let reports = all_reports(roles);
    lemma_order_distinct(reports);
    assert forall|i: int| 0 <= i < reports.len() implies case_order(reports).contains(
        (#[trigger] reports[i]).result.case,
    ) by {
        lemma_order_contains(reports, i);
    }
}

/// Is one status worse than another: failed than any other, not reached than
/// all but failed, skipped than those that nothing is the matter with?
pub open spec fn is_worse(a: Status, b: Status) -> bool {
    match a {
        Status::Fail => !(b is Fail),
        Status::NotReached => !(b is Fail) && !(b is NotReached),
        Status::Skipped => b is Pass || b is NotApplicable || b is Deselected,
        _ => false,
    }
}

proof fn lemma_all_reports(roles: Seq<(Seq<char>, Seq<CaseView>)>)
    ensures
        all_reports(roles) == roles.map_values(
            |x: (Seq<char>, Seq<CaseView>)|
                x.1.map_values(|r: CaseView| Report { role: x.0, result: r }),
        ).flatten_alt(),
    decreases roles.len(),
{
    let f = |x: (Seq<char>, Seq<CaseView>)|
        x.1.map_values(|r: CaseView| Report { role: x.0, result: r });
    if roles.len() > 0 {
        lemma_all_reports(roles.drop_last());
        assert(roles.map_values(f).drop_last() =~= roles.drop_last().map_values(f));
        assert(roles.map_values(f).last() == f(roles.last()));
        assert(role_reports(roles.last().0, roles.last().1) =~= f(roles.last()));
    } else {
        assert(roles.map_values(f) =~= Seq::empty());
    }
}

proof fn lemma_reports_of(reports: Seq<Report>, case: Seq<char>)
    ensures
        reports_of(reports, case) == reports.filter(|r: Report| r.result.case == case),
    decreases reports.len(),
{
    reveal(Seq::filter);
    if reports.len() > 0 {
        lemma_reports_of(reports.drop_last(), case);
    }
}

proof fn lemma_order_first(reports: Seq<Report>, i: int, j: int)
    requires
        0 <= i < j < case_order(reports).len(),
    ensures
        exists|a: int|
            0 <= a < reports.len() && (#[trigger] reports[a]).result.case == case_order(reports)[i]
                && forall|b: int|
                0 <= b <= a ==> (#[trigger] reports[b]).result.case != case_order(reports)[j],
    decreases reports.len(),
{
    let init = reports.drop_last();
    let order = case_order(init);
    lemma_order_distinct(reports);
    if j < order.len() {
        lemma_order_first(init, i, j);
        let a = choose|a: int|
            0 <= a < init.len() && (#[trigger] init[a]).result.case == order[i] && forall|b: int|
                0 <= b <= a ==> (#[trigger] init[b]).result.case != order[j];
        assert(reports[a] == init[a]);
        assert forall|b: int| 0 <= b <= a implies (#[trigger] reports[b]).result.case
            != case_order(reports)[j] by {
            assert(reports[b] == init[b]);
        }
    } else {
        let new = case_order(reports)[j];
        lemma_order_named(init, i);
        let a = choose|a: int| 0 <= a < init.len() && (#[trigger] init[a]).result.case == order[i];
        assert(reports[a] == init[a]);
        assert forall|b: int| 0 <= b <= a implies (#[trigger] reports[b]).result.case != new by {
            assert(reports[b] == init[b]);
            lemma_order_contains(init, b);
        }
    }
}

proof fn lemma_order_named(reports: Seq<Report>, i: int)
    requires
        0 <= i < case_order(reports).len(),
    ensures
        exists|a: int|
            0 <= a < reports.len() && (#[trigger] reports[a]).result.case == case_order(reports)[i],
    decreases reports.len(),
{
    let init = reports.drop_last();
    if i < case_order(init).len() {
        lemma_order_named(init, i);
        let a = choose|a: int|
            0 <= a < init.len() && (#[trigger] init[a]).result.case == case_order(init)[i];
        assert(reports[a] == init[a]);
    } else {
        assert(reports[reports.len() - 1].result.case == case_order(reports)[i]);
    }
}

/// What a report says: its detail, or else its status.
pub open spec fn says(r: Report) -> Seq<char> {
    r.role + ": "@ + (match r.result.detail {
        Some(d) => d,
        None => r.result.status.text(),
    })
}

/// The diagnostics of a report, each after the role.
pub open spec fn diagnoses(r: Report) -> Seq<Seq<char>> {
    r.result.diagnostics.map_values(|x: Seq<char>| r.role + ": "@ + x)
}

/// Is something the matter with a report: did the case fail, was it not
/// reached, or skipped?
pub open spec fn is_marred(r: Report) -> bool {
    r.result.status is Fail || r.result.status is NotReached || r.result.status is Skipped
}

proof fn lemma_other_details(others: Seq<Report>)
    ensures
        other_details(others) == others.filter(|r: Report| is_marred(r)).map_values(
            |r: Report| "; "@ + says(r),
        ).flatten_alt(),
    decreases others.len(),
{
    reveal(Seq::filter);
    let p = |r: Report| is_marred(r);
    let f = |r: Report| "; "@ + says(r);
    let all = others.filter(p).map_values(f);
    if others.len() > 0 {
        lemma_other_details(others.drop_last());
        let init = others.drop_last().filter(p).map_values(f);
        if is_marred(others.last()) {
            assert(all.drop_last() =~= init);
            assert(all.last() == f(others.last()));
            assert(other_details(others) =~= init.flatten_alt() + f(others.last()));
        } else {
            assert(all =~= init);
        }
    } else {
        assert(all =~= Seq::empty());
    }
}

proof fn lemma_all_diagnostics(reports: Seq<Report>)
    ensures
        all_diagnostics(reports) == reports.map_values(|r: Report| diagnoses(r)).flatten_alt(),
    decreases reports.len(),
{
    let f = |r: Report| diagnoses(r);
    if reports.len() > 0 {
        lemma_all_diagnostics(reports.drop_last());
        assert(reports.map_values(f).drop_last() =~= reports.drop_last().map_values(f));
        assert(reports.map_values(f).last() == f(reports.last()));
        assert(labelled_diagnostics(reports.last()) =~= diagnoses(reports.last()));
    } else {
        assert(reports.map_values(f) =~= Seq::empty());
    }
}

proof fn lemma_longest(reports: Seq<Report>)
    ensures
        match longest(reports) {
            Some(n) => (exists|i: int|
                0 <= i < reports.len() && (#[trigger] reports[i]).result.duration_ms == Some(n))
                && forall|i: int|
                0 <= i < reports.len() && (#[trigger] reports[i]).result.duration_ms is Some
                    ==> reports[i].result.duration_ms->0 <= n,
            None => forall|i: int|
                0 <= i < reports.len() ==> (#[trigger] reports[i]).result.duration_ms is None,
        },
    decreases reports.len(),
{
    if reports.len() > 0 {
        let init = reports.drop_last();
        lemma_longest(init);
        assert forall|i: int| 0 <= i < init.len() implies init[i] == #[trigger] reports[i] by {}
        match longest(reports) {
            Some(n) => {
                if reports.last().result.duration_ms == Some(n) {
                    assert(reports[reports.len() - 1].result.duration_ms == Some(n));
                } else {
                    let i = choose|i: int|
                        0 <= i < init.len() && (#[trigger] init[i]).result.duration_ms == Some(n);
                    assert(reports[i].result.duration_ms == Some(n));
                }
                assert forall|i: int|
                    0 <= i < reports.len() && (#[trigger] reports[i]).result.duration_ms is Some implies
                    reports[i].result.duration_ms->0 <= n by {
                    if i < init.len() {
                        assert(init[i].result.duration_ms is Some);
                    }
                }
            },
            None => {
                assert forall|i: int| 0 <= i < reports.len() implies (
                #[trigger] reports[i]).result.duration_ms is None by {
                    if i < init.len() {
                        assert(init[i].result.duration_ms is None);
                    }
                }
            },
        }
    }
}

/// Is a result the fold of several reports with the `w`-th as the winner: the
/// first that no other is worse than? The result is the winner's. Where
/// something is the matter with it, its detail says so, and what the others
/// say that something is the matter with. It has the diagnostics of all, and
/// the longest time.
pub open spec fn is_fold(reports: Seq<Report>, w: int, r: CaseView) -> bool {
    &&& 0 <= w < reports.len()
    &&& forall|i: int|
        0 <= i < reports.len() ==> !is_worse(
            (#[trigger] reports[i]).result.status,
            reports[w].result.status,
        )
    &&& forall|i: int|
        0 <= i < w ==> is_worse(reports[w].result.status, (#[trigger] reports[i]).result.status)
    &&& r.case == reports[w].result.case
    &&& r.status == reports[w].result.status
    &&& r.provenance == reports[w].result.provenance
    &&& r.seed == reports[w].result.seed
    &&& r.detail == if is_marred(reports[w]) {
        Some(
            says(reports[w]) + reports.remove(w).filter(|x: Report| is_marred(x)).map_values(
                |x: Report| "; "@ + says(x),
            ).flatten_alt(),
        )
    } else {
        reports[w].result.detail
    }
    &&& r.diagnostics == diagnoses(reports[w]) + reports.remove(w).map_values(
        |x: Report| diagnoses(x),
    ).flatten_alt()
    &&& r.diagnostics_complete <==> forall|i: int|
        0 <= i < reports.len() ==> (#[trigger] reports[i]).result.diagnostics_complete
    &&& match r.duration_ms {
        Some(n) => (exists|i: int|
            0 <= i < reports.len() && (#[trigger] reports[i]).result.duration_ms == Some(n))
            && forall|i: int|
            0 <= i < reports.len() && (#[trigger] reports[i]).result.duration_ms is Some
                ==> reports[i].result.duration_ms->0 <= n,
        None => forall|i: int|
            0 <= i < reports.len() ==> (#[trigger] reports[i]).result.duration_ms is None,
    }
}

proof fn lemma_is_fold(reports: Seq<Report>)
    requires
        reports.len() >= 2,
    ensures
        is_fold(reports, worst(reports, reports.len() as int), merged(reports)),
{
    let n = reports.len() as int;
    let w = worst(reports, n);
    lemma_worst(reports, n);
    let others = reports.remove(w);
    lemma_other_details(others);
    lemma_all_diagnostics(others);
    lemma_longest(reports);
    assert(labelled_diagnostics(reports[w]) =~= diagnoses(reports[w]));
    assert(labelled(reports[w].role, said(reports[w].result)) =~= says(reports[w]));
    assert forall|a: Status, b: Status| #[trigger] is_worse(a, b) == (rank(a) > rank(b)) by {}
}

/// The reports of all roles, one role after the other.
pub open spec fn every_report(roles: Seq<(Seq<char>, Seq<CaseView>)>) -> Seq<Report> {
    roles.map_values(
        |x: (Seq<char>, Seq<CaseView>)|
            x.1.map_values(|r: CaseView| Report { role: x.0, result: r }),
    ).flatten_alt()
}

/// Is a result what the reports on its case come to: the one report as it is,
/// or the fold of several?
pub open spec fn comes_to(reports: Seq<Report>, r: CaseView) -> bool {
    let mine = reports.filter(|x: Report| x.result.case == r.case);
    &&& mine.len() >= 1
    &&& mine.len() == 1 ==> r == mine[0].result
    &&& mine.len() > 1 ==> exists|w: int| is_fold(mine, w, r)
}

proof fn lemma_comes_to(reports: Seq<Report>, i: int)
    requires
        0 <= i < case_order(reports).len(),
    ensures
        merged(reports_of(reports, case_order(reports)[i])).case == case_order(reports)[i],
        comes_to(reports, merged(reports_of(reports, case_order(reports)[i]))),
{
    let case = case_order(reports)[i];
    let p = |x: Report| x.result.case == case;
    let mine = reports.filter(p);
    lemma_reports_of(reports, case);
    lemma_order_reported(reports, i);
    let r = merged(mine);
    if mine.len() == 1 {
        reports.lemma_filter_pred(p, 0);
    } else {
        lemma_is_fold(mine);
        reports.lemma_filter_pred(p, worst(mine, mine.len() as int));
    }
    assert(r.case == case);
    assert(p =~= (|x: Report| x.result.case == r.case));
}

/// Does one case come before another in the reports?
pub open spec fn comes_first(reports: Seq<Report>, a: Seq<char>, b: Seq<char>) -> bool {
    exists|x: int|
        0 <= x < reports.len() && (#[trigger] reports[x]).result.case == a && forall|y: int|
            0 <= y <= x ==> (#[trigger] reports[y]).result.case != b
}

/// The fold of several roles has each reported case once, in the order of its
/// first report. A case that one role reports is as that role says. A case
/// that several report is their fold.
pub proof fn law_roles_fold(roles: Seq<(Seq<char>, Seq<CaseView>)>)
    ensures
        forall|a: int|
            0 <= a < every_report(roles).len() ==> exists|i: int|
                0 <= i < folded_roles(roles).len() && (#[trigger] folded_roles(roles)[i]).case == (
                #[trigger] every_report(roles)[a]).result.case,
        forall|i: int, j: int|
            0 <= i < j < folded_roles(roles).len() ==> (#[trigger] folded_roles(roles)[i]).case != (
            #[trigger] folded_roles(roles)[j]).case && comes_first(
                every_report(roles),
                folded_roles(roles)[i].case,
                folded_roles(roles)[j].case,
            ),
        forall|i: int|
            0 <= i < folded_roles(roles).len() ==> comes_to(
                every_report(roles),
                #[trigger] folded_roles(roles)[i],
            ),
{
    lemma_all_reports(roles);
    let reports = all_reports(roles);
    assert(every_report(roles) == reports);
    let order = case_order(reports);
    let f = folded_roles(roles);
    lemma_order_distinct(reports);
    assert forall|i: int| 0 <= i < f.len() implies (#[trigger] f[i]).case == order[i]
        && comes_to(reports, f[i]) by {
        lemma_comes_to(reports, i);
    }
    assert forall|a: int| 0 <= a < reports.len() implies exists|i: int|
        0 <= i < f.len() && (#[trigger] f[i]).case == (#[trigger] reports[a]).result.case by {
        lemma_order_contains(reports, a);
        let i = choose|i: int| 0 <= i < order.len() && order[i] == reports[a].result.case;
        assert(f[i].case == order[i]);
    }
    assert forall|i: int, j: int| 0 <= i < j < f.len() implies (#[trigger] f[i]).case != (
    #[trigger] f[j]).case && comes_first(reports, f[i].case, f[j].case) by {
        lemma_order_first(reports, i, j);
        assert(f[i].case == order[i] && f[j].case == order[j]);
        assert(order[i] != order[j]);
    }
}

} // verus!
