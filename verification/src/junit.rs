//! JUnit XML from folded documents. JUnit has a smaller vocabulary than the
//! results format; what is written is never greener than the stream.

use vstd::prelude::*;

use crate::results::{case_views, CaseResult, CaseView, Document, DocumentView, Status};
use crate::text::{
    chars_of, decimal, decimal_text, digit, join, join_texts, last_index, lemma_last_index, owned,
    text_of, views,
};
use crate::verdict::{Provenance, ProvenanceView};

verus! {

// ---------------------------------------------------------------------
// Meaning
// ---------------------------------------------------------------------

/// A character of an attribute value.
pub open spec fn attr_char(c: char) -> Seq<char> {
    if c == '&' {
        "&amp;"@
    } else if c == '<' {
        "&lt;"@
    } else if c == '>' {
        "&gt;"@
    } else if c == '"' {
        "&quot;"@
    } else {
        seq![c]
    }
}

/// A text as an attribute value.
pub open spec fn attr_text(s: Seq<char>) -> Seq<char>
    decreases s.len(),
{
    if s.len() == 0 {
        Seq::<char>::empty()
    } else {
        attr_text(s.drop_last()) + attr_char(s.last())
    }
}

/// A character of an element's text.
pub open spec fn body_char(c: char) -> Seq<char> {
    if c == '"' { seq![c] } else { attr_char(c) }
}

/// A text as an element's text.
pub open spec fn body_text(s: Seq<char>) -> Seq<char>
    decreases s.len(),
{
    if s.len() == 0 {
        Seq::<char>::empty()
    } else {
        body_text(s.drop_last()) + body_char(s.last())
    }
}

/// Class name and name of a case: its prefix and its leaf, or twice the
/// whole name where it has one segment.
pub open spec fn class_and_name(case: Seq<char>) -> (Seq<char>, Seq<char>) {
    let i = last_index(case, '/');
    if i < 0 { (case, case) } else { (case.take(i), case.skip(i + 1)) }
}

/// A number below 1000 with three digits.
pub open spec fn three_digits(n: nat) -> Seq<char> {
    if n < 10 {
        "00"@ + decimal(n)
    } else if n < 100 {
        "0"@ + decimal(n)
    } else {
        decimal(n)
    }
}

/// Milliseconds as seconds with three decimals.
pub open spec fn seconds(ms: nat) -> Seq<char> {
    decimal(ms / 1000) + "."@ + three_digits(ms % 1000)
}

/// The reported duration of a result, or nothing.
pub open spec fn millis(r: CaseView) -> nat {
    match r.duration_ms {
        Some(n) => n as nat,
        None => 0,
    }
}

/// The detail of a result, or nothing.
pub open spec fn detail_or_empty(r: CaseView) -> Seq<char> {
    match r.detail {
        Some(d) => d,
        None => Seq::empty(),
    }
}

/// What kind of failure a failed result is.
pub open spec fn failure_kind(r: CaseView) -> Seq<char> {
    match r.provenance {
        Some(ProvenanceView::Trap) => "trap"@,
        Some(ProvenanceView::LimitExceeded(l)) => "limit-exceeded: "@ + l,
        _ => "fail"@,
    }
}

/// The element for a result's status; a pass has none.
pub open spec fn status_element(r: CaseView) -> Seq<char> {
    let detail = attr_text(detail_or_empty(r));
    match r.status {
        Status::Pass => Seq::empty(),
        Status::Fail => "      <failure message=\""@ + detail + "\" type=\""@ + attr_text(
            failure_kind(r),
        ) + "\"/>\n"@,
        Status::NotReached => "      <failure message=\""@ + detail
            + "\" type=\"not-reached\"/>\n"@,
        Status::Skipped => "      <skipped message=\""@ + detail + "\"/>\n"@,
        Status::NotApplicable => "      <skipped message=\"not applicable ("@ + detail
            + ")\"/>\n"@,
        Status::Deselected => "      <skipped message=\"deselected ("@ + detail + ")\"/>\n"@,
    }
}

/// The element for a result's diagnostics; without any there is none.
pub open spec fn output_element(r: CaseView) -> Seq<char> {
    if r.diagnostics.len() == 0 {
        Seq::empty()
    } else {
        let all = join(r.diagnostics, "\n"@);
        let shown = if r.diagnostics_complete { all } else { all + "\n[diagnostics incomplete]"@ };
        "      <system-out>"@ + body_text(shown) + "</system-out>\n"@
    }
}

/// The element of a result.
pub open spec fn case_element(r: CaseView) -> Seq<char> {
    let (class, name) = class_and_name(r.case);
    let open = "    <testcase classname=\""@ + attr_text(class) + "\" name=\""@ + attr_text(name)
        + "\" time=\""@ + seconds(millis(r)) + "\""@;
    let inner = status_element(r) + output_element(r);
    if inner.len() == 0 {
        open + "/>\n"@
    } else {
        open + ">\n"@ + inner + "    </testcase>\n"@
    }
}

/// The elements of the first `n` results.
pub open spec fn case_elements(rs: Seq<CaseView>, n: int) -> Seq<char>
    decreases n,
{
    if n <= 0 {
        Seq::<char>::empty()
    } else {
        case_elements(rs, n - 1) + case_element(rs[n - 1])
    }
}

/// The element for a problem of the stream.
pub open spec fn problem_element(
    target: Seq<char>,
    name: Seq<char>,
    kind: Seq<char>,
    message: Seq<char>,
) -> Seq<char> {
    "    <testcase classname=\""@ + attr_text(target) + "\" name=\""@ + attr_text(name)
        + "\" time=\"0.000\">\n      <error message=\""@ + attr_text(message) + "\" type=\""@
        + attr_text(kind) + "\"/>\n    </testcase>\n"@
}

/// The elements of the first `n` run errors.
pub open spec fn run_error_elements(target: Seq<char>, es: Seq<Seq<char>>, n: int) -> Seq<char>
    decreases n,
{
    if n <= 0 {
        Seq::<char>::empty()
    } else {
        run_error_elements(target, es, n - 1) + problem_element(
            target,
            "run-error-"@ + decimal((n - 1) as nat),
            "run-error"@,
            es[n - 1],
        )
    }
}

/// The elements of the first `n` statuses that were not understood.
pub open spec fn unknown_elements(
    target: Seq<char>,
    us: Seq<(Seq<char>, Seq<char>)>,
    n: int,
) -> Seq<char>
    decreases n,
{
    if n <= 0 {
        Seq::<char>::empty()
    } else {
        unknown_elements(target, us, n - 1) + problem_element(
            target,
            us[n - 1].0,
            "unknown-status"@,
            "unknown status `"@ + us[n - 1].1 + "`"@,
        )
    }
}

/// The element for a stream without a terminator.
pub open spec fn unterminated_element(target: Seq<char>, d: DocumentView) -> Seq<char> {
    if d.terminated {
        Seq::empty()
    } else {
        problem_element(
            target,
            "unterminated-segment"@,
            "unterminated"@,
            "the results stream has no segment-end terminator"@,
        )
    }
}

/// How many of the first `n` results fail.
pub open spec fn failing_count(rs: Seq<CaseView>, n: int) -> nat
    decreases n,
{
    if n <= 0 {
        0
    } else {
        failing_count(rs, n - 1) + if rs[n - 1].status.is_failing() { 1nat } else { 0nat }
    }
}

/// How many of the first `n` results count as skipped.
pub open spec fn skipped_count(rs: Seq<CaseView>, n: int) -> nat
    decreases n,
{
    if n <= 0 {
        0
    } else {
        skipped_count(rs, n - 1) + if rs[n - 1].status is Pass || rs[n - 1].status.is_failing() {
            0nat
        } else {
            1nat
        }
    }
}

/// How many of the first `n` results pass.
pub open spec fn passing_count(rs: Seq<CaseView>, n: int) -> nat
    decreases n,
{
    if n <= 0 {
        0
    } else {
        passing_count(rs, n - 1) + if rs[n - 1].status is Pass { 1nat } else { 0nat }
    }
}

/// The reported durations of the first `n` results together.
pub open spec fn total_millis(rs: Seq<CaseView>, n: int) -> nat
    decreases n,
{
    if n <= 0 {
        0
    } else {
        total_millis(rs, n - 1) + millis(rs[n - 1])
    }
}

/// How many problems the stream has.
pub open spec fn problem_count(d: DocumentView) -> nat {
    d.run_errors.len() + d.unknown_statuses.len() + if d.terminated { 0nat } else { 1nat }
}

/// The element of a target.
pub open spec fn suite_element(target: Seq<char>, d: DocumentView) -> Seq<char> {
    let n = d.results.len() as int;
    "  <testsuite name=\""@ + attr_text(target) + "\" tests=\""@ + decimal(
        d.results.len() + problem_count(d),
    ) + "\" failures=\""@ + decimal(failing_count(d.results, n)) + "\" errors=\""@ + decimal(
        problem_count(d),
    ) + "\" skipped=\""@ + decimal(skipped_count(d.results, n)) + "\" time=\""@ + seconds(
        total_millis(d.results, n),
    ) + "\">\n"@ + (case_elements(d.results, n) + run_error_elements(
        target,
        d.run_errors,
        d.run_errors.len() as int,
    ) + unknown_elements(target, d.unknown_statuses, d.unknown_statuses.len() as int)
        + unterminated_element(target, d)) + "  </testsuite>\n"@
}

/// The elements of the first `n` targets.
pub open spec fn suite_elements(docs: Seq<(Seq<char>, DocumentView)>, n: int) -> Seq<char>
    decreases n,
{
    if n <= 0 {
        Seq::<char>::empty()
    } else {
        suite_elements(docs, n - 1) + suite_element(docs[n - 1].0, docs[n - 1].1)
    }
}

/// The whole document.
pub open spec fn junit_text(docs: Seq<(Seq<char>, DocumentView)>) -> Seq<char> {
    "<?xml version=\"1.0\" encoding=\"UTF-8\"?>\n<testsuites>\n"@ + suite_elements(
        docs,
        docs.len() as int,
    ) + "</testsuites>\n"@
}

// ---------------------------------------------------------------------
// Code
// ---------------------------------------------------------------------

/// A text as an attribute value.
pub fn attr(s: &str) -> (r: String)
    ensures
        r@ == attr_text(s@),
{
    let chars = chars_of(s);
    let mut r = String::new();
    let mut i: usize = 0;
    assert(r@ =~= attr_text(chars@.take(0)));
    while i < chars.len()
        invariant
            i <= chars@.len(),
            r@ == attr_text(chars@.take(i as int)),
        decreases chars.len() - i,
    {
        assert(chars@.take(i + 1).drop_last() =~= chars@.take(i as int));
        let c = chars[i];
        let ghost was = r@;
        if c == '&' {
            r.append("&amp;");
        } else if c == '<' {
            r.append("&lt;");
        } else if c == '>' {
            r.append("&gt;");
        } else if c == '"' {
            r.append("&quot;");
        } else {
            r.push(c);
        }
        assert(r@ =~= was + attr_char(c));
        i += 1;
    }
    assert(chars@.take(i as int) =~= chars@);
    r
}

/// A text as an element's text.
fn text(s: &str) -> (r: String)
    ensures
        r@ == body_text(s@),
{
    let chars = chars_of(s);
    let mut r = String::new();
    let mut i: usize = 0;
    assert(r@ =~= body_text(chars@.take(0)));
    while i < chars.len()
        invariant
            i <= chars@.len(),
            r@ == body_text(chars@.take(i as int)),
        decreases chars.len() - i,
    {
        assert(chars@.take(i + 1).drop_last() =~= chars@.take(i as int));
        let c = chars[i];
        let ghost was = r@;
        if c == '&' {
            r.append("&amp;");
        } else if c == '<' {
            r.append("&lt;");
        } else if c == '>' {
            r.append("&gt;");
        } else {
            r.push(c);
        }
        assert(r@ =~= was + body_char(c));
        i += 1;
    }
    assert(chars@.take(i as int) =~= chars@);
    r
}

/// Class name and name of a case.
fn split_case(case: &str) -> (r: (String, String))
    ensures
        (r.0@, r.1@) == class_and_name(case@),
{
    let chars = chars_of(case);
    proof {
        lemma_last_index(case@, '/');
    }
    let mut n: usize = chars.len();
    assert(chars@.take(n as int) =~= chars@);
    while n > 0
        invariant
            n <= chars@.len(),
            chars@ == case@,
            last_index(chars@, '/') == last_index(chars@.take(n as int), '/'),
        decreases n,
    {
        assert(chars@.take(n as int).last() == chars@[n - 1]);
        assert(chars@.take(n as int).drop_last() =~= chars@.take(n - 1));
        if chars[n - 1] == '/' {
            let class = text_of(&chars, 0, n - 1);
            let name = text_of(&chars, n, chars.len());
            assert(class@ =~= case@.take(n - 1));
            assert(name@ =~= case@.skip(n as int));
            return (class, name);
        }
        n -= 1;
    }
    (owned(case), owned(case))
}

fn seconds_text(ms: u128) -> (r: String)
    ensures
        r@ == seconds(ms as nat),
{
    let mut r = decimal_text(ms / 1000);
    r.append(".");
    let rest: u128 = ms % 1000;
    if rest < 10 {
        r.append("00");
    } else if rest < 100 {
        r.append("0");
    }
    r.append(decimal_text(rest).as_str());
    assert(r@ =~= seconds(ms as nat));
    r
}

fn millis_of(r: &CaseResult) -> (n: u64)
    ensures
        n == millis(r@),
{
    match r.duration_ms {
        Some(n) => n,
        None => 0,
    }
}

fn kind_of(r: &CaseResult) -> (s: String)
    ensures
        s@ == failure_kind(r@),
{
    match &r.provenance {
        Some(Provenance::Trap) => owned("trap"),
        Some(Provenance::LimitExceeded(l)) => {
            let mut s = owned("limit-exceeded: ");
            s.append(l.as_str());
            s
        },
        _ => owned("fail"),
    }
}

fn status_of(r: &CaseResult) -> (s: String)
    ensures
        s@ == status_element(r@),
{
    let detail = match &r.detail {
        Some(d) => attr(d.as_str()),
        None => {
            let e = String::new();
            assert(e@ =~= attr_text(Seq::<char>::empty()));
            e
        },
    };
    match r.status {
        Status::Pass => String::new(),
        Status::Fail => {
            let mut s = owned("      <failure message=\"");
            s.append(detail.as_str());
            s.append("\" type=\"");
            s.append(attr(kind_of(r).as_str()).as_str());
            s.append("\"/>\n");
            s
        },
        Status::NotReached => {
            let mut s = owned("      <failure message=\"");
            s.append(detail.as_str());
            s.append("\" type=\"not-reached\"/>\n");
            s
        },
        Status::Skipped => {
            let mut s = owned("      <skipped message=\"");
            s.append(detail.as_str());
            s.append("\"/>\n");
            s
        },
        Status::NotApplicable => {
            let mut s = owned("      <skipped message=\"not applicable (");
            s.append(detail.as_str());
            s.append(")\"/>\n");
            s
        },
        Status::Deselected => {
            let mut s = owned("      <skipped message=\"deselected (");
            s.append(detail.as_str());
            s.append(")\"/>\n");
            s
        },
    }
}

fn output_of(r: &CaseResult) -> (s: String)
    ensures
        s@ == output_element(r@),
{
    assert(r@.diagnostics.len() == r.diagnostics@.len());
    if r.diagnostics.len() == 0 {
        return String::new();
    }
    let mut all = join_texts(&r.diagnostics, "\n");
    if !r.diagnostics_complete {
        all.append("\n[diagnostics incomplete]");
    }
    let mut s = owned("      <system-out>");
    s.append(text(all.as_str()).as_str());
    s.append("</system-out>\n");
    s
}

fn push_case(cases: &mut String, r: &CaseResult)
    ensures
        final(cases)@ == old(cases)@ + case_element(r@),
{
    let ghost start = cases@;
    let (class, name) = split_case(r.case.as_str());
    let mut s = owned("    <testcase classname=\"");
    s.append(attr(class.as_str()).as_str());
    s.append("\" name=\"");
    s.append(attr(name.as_str()).as_str());
    s.append("\" time=\"");
    s.append(seconds_text(millis_of(r) as u128).as_str());
    s.append("\"");
    let ghost open = s@;
    let mut inner = status_of(r);
    inner.append(output_of(r).as_str());
    if inner.as_str().is_empty() {
        s.append("/>\n");
    } else {
        s.append(">\n");
        s.append(inner.as_str());
        s.append("    </testcase>\n");
    }
    cases.append(s.as_str());
    assert(cases@ =~= start + case_element(r@));
}

fn push_problem(cases: &mut String, target: &str, name: &str, kind: &str, message: &str)
    ensures
        final(cases)@ == old(cases)@ + problem_element(target@, name@, kind@, message@),
{
    let ghost start = cases@;
    let mut s = owned("    <testcase classname=\"");
    s.append(attr(target).as_str());
    s.append("\" name=\"");
    s.append(attr(name).as_str());
    s.append("\" time=\"0.000\">\n      <error message=\"");
    s.append(attr(message).as_str());
    s.append("\" type=\"");
    s.append(attr(kind).as_str());
    s.append("\"/>\n    </testcase>\n");
    cases.append(s.as_str());
    assert(cases@ =~= start + problem_element(target@, name@, kind@, message@));
}

fn push_problems(cases: &mut String, target: &str, doc: &Document)
    ensures
        final(cases)@ == old(cases)@ + run_error_elements(
            target@,
            doc@.run_errors,
            doc@.run_errors.len() as int,
        ) + unknown_elements(
            target@,
            doc@.unknown_statuses,
            doc@.unknown_statuses.len() as int,
        ) + unterminated_element(target@, doc@),
{
    let ghost start = cases@;
    let ghost es = doc@.run_errors;
    let mut i: usize = 0;
    assert(cases@ =~= start + run_error_elements(target@, es, 0));
    while i < doc.run_errors.len()
        invariant
            i <= doc.run_errors@.len(),
            es == views(doc.run_errors@),
            cases@ == start + run_error_elements(target@, es, i as int),
        decreases doc.run_errors.len() - i,
    {
        assert(es[i as int] == doc.run_errors@[i as int]@);
        let mut name = owned("run-error-");
        name.append(decimal_text(i as u128).as_str());
        push_problem(cases, target, name.as_str(), "run-error", doc.run_errors[i].as_str());
        assert(cases@ =~= start + run_error_elements(target@, es, i + 1));
        i += 1;
    }
    assert(es.len() == doc.run_errors@.len());
    let ghost mid = cases@;
    let ghost us = doc@.unknown_statuses;
    let n = doc.unknown_statuses.len();
    let mut k: usize = 0;
    assert(cases@ =~= mid + unknown_elements(target@, us, 0));
    while k < n
        invariant
            k <= n,
            n == us.len(),
            us == doc.unknown_statuses@,
            cases@ == mid + unknown_elements(target@, us, k as int),
        decreases n - k,
    {
        let mut message = owned("unknown status `");
        message.append(doc.unknown_statuses.value_at(k).as_str());
        message.append("`");
        push_problem(
            cases,
            target,
            doc.unknown_statuses.key_at(k),
            "unknown-status",
            message.as_str(),
        );
        assert(cases@ =~= mid + unknown_elements(target@, us, k + 1));
        k += 1;
    }
    let ghost last = cases@;
    if !doc.terminated {
        push_problem(
            cases,
            target,
            "unterminated-segment",
            "unterminated",
            "the results stream has no segment-end terminator",
        );
    }
    assert(cases@ =~= last + unterminated_element(target@, doc@));
}

/// The element of a target.
fn suite(target: &str, doc: &Document) -> (r: String)
    ensures
        r@ == suite_element(target@, doc@),
{
    let ghost d = doc@;
    let ghost rs = d.results;
    let mut cases = String::new();
    let mut failures: u128 = 0;
    let mut skipped: u128 = 0;
    let mut total_ms: u128 = 0;
    let mut i: usize = 0;
    assert(cases@ =~= case_elements(rs, 0));
    while i < doc.results.len()
        invariant
            i <= doc.results@.len(),
            rs == case_views(doc.results@),
            cases@ == case_elements(rs, i as int),
            failures == failing_count(rs, i as int),
            failures <= i,
            skipped == skipped_count(rs, i as int),
            skipped <= i,
            total_ms == total_millis(rs, i as int),
            total_ms <= i * 0xffff_ffff_ffff_ffff,
        decreases doc.results.len() - i,
    {
        let r = &doc.results[i];
        assert(rs[i as int] == r@);
        push_case(&mut cases, r);
        match r.status {
            Status::Pass => {},
            Status::Fail | Status::NotReached => {
                failures += 1;
            },
            Status::Skipped | Status::NotApplicable | Status::Deselected => {
                skipped += 1;
            },
        }
        assert(i * 0xffff_ffff_ffff_ffff + 0xffff_ffff_ffff_ffff == (i + 1)
            * 0xffff_ffff_ffff_ffff) by (nonlinear_arith);
        assert((i + 1) * 0xffff_ffff_ffff_ffff <= 0xffff_ffff_ffff_ffff * 0xffff_ffff_ffff_ffff)
            by (nonlinear_arith)
            requires
                i + 1 <= 0xffff_ffff_ffff_ffff,
        ;
        total_ms += millis_of(r) as u128;
        i += 1;
    }
    assert(rs.len() == doc.results@.len());
    let ghost body = cases@;
    push_problems(&mut cases, target, doc);
    let errors: u128 = doc.run_errors.len() as u128 + doc.unknown_statuses.len() as u128
        + if doc.terminated { 0u128 } else { 1u128 };
    assert(errors == problem_count(d)) by {
        assert(d.run_errors.len() == doc.run_errors@.len());
    }
    let tests: u128 = doc.results.len() as u128 + errors;
    let mut out = owned("  <testsuite name=\"");
    out.append(attr(target).as_str());
    out.append("\" tests=\"");
    out.append(decimal_text(tests).as_str());
    out.append("\" failures=\"");
    out.append(decimal_text(failures).as_str());
    out.append("\" errors=\"");
    out.append(decimal_text(errors).as_str());
    out.append("\" skipped=\"");
    out.append(decimal_text(skipped).as_str());
    out.append("\" time=\"");
    out.append(seconds_text(total_ms).as_str());
    out.append("\">\n");
    out.append(cases.as_str());
    out.append("  </testsuite>\n");
    out
}

/// Render one `<testsuites>` document from the folded streams of targets.
pub fn junit(streams: &[(String, Document)]) -> (r: String)
    ensures
        r@ == junit_text(crate::aggregate::docs_view(streams@)),
{
    let ghost ds = crate::aggregate::docs_view(streams@);
    let mut out = owned("<?xml version=\"1.0\" encoding=\"UTF-8\"?>\n<testsuites>\n");
    let ghost start = out@;
    let mut i: usize = 0;
    assert(out@ =~= start + suite_elements(ds, 0));
    while i < streams.len()
        invariant
            i <= streams@.len(),
            ds == crate::aggregate::docs_view(streams@),
            out@ == start + suite_elements(ds, i as int),
        decreases streams.len() - i,
    {
        assert(ds[i as int] == (streams@[i as int].0@, streams@[i as int].1@));
        out.append(suite(streams[i].0.as_str(), &streams[i].1).as_str());
        assert(out@ =~= start + suite_elements(ds, i + 1));
        i += 1;
    }
    assert(ds.len() == streams@.len());
    out.append("</testsuites>\n");
    out
}

// ---------------------------------------------------------------------
// Laws
// ---------------------------------------------------------------------

/// Never greener than the stream: what is counted as neither failed, nor
/// skipped, nor in error is exactly what passed.
pub proof fn law_never_greener(rs: Seq<CaseView>, n: int)
    requires
        0 <= n <= rs.len(),
    ensures
        passing_count(rs, n) + failing_count(rs, n) + skipped_count(rs, n) == n,
    decreases n,
{
    if n > 0 {
        law_never_greener(rs, n - 1);
    }
}

/// Every failing result shows: its element begins with a failure.
pub proof fn law_failing_shows(r: CaseView)
    requires
        r.status.is_failing(),
    ensures
        crate::text::starts_with(status_element(r), "      <failure message=\""@),
{
    let e = status_element(r);
    let p = "      <failure message=\""@;
    assert(e.subrange(0, p.len() as int) =~= p);
}

/// An escaped text holds none of the characters that end an attribute value
/// or begin an element.
pub proof fn law_attr_is_inert(s: Seq<char>)
    ensures
        forall|i: int|
            0 <= i < attr_text(s).len() ==> #[trigger] attr_text(s)[i] != '"' && attr_text(s)[i]
                != '<' && attr_text(s)[i] != '>',
    decreases s.len(),
{
    if s.len() > 0 {
        law_attr_is_inert(s.drop_last());
        let c = s.last();
        reveal_strlit("&amp;");
        reveal_strlit("&lt;");
        reveal_strlit("&gt;");
        reveal_strlit("&quot;");
        let head = attr_text(s.drop_last());
        let tail = attr_char(c);
        assert forall|i: int| 0 <= i < attr_text(s).len() implies #[trigger] attr_text(s)[i] != '"'
            && attr_text(s)[i] != '<' && attr_text(s)[i] != '>' by {
            if i >= head.len() {
                assert(attr_text(s)[i] == tail[i - head.len()]);
            } else {
                assert(attr_text(s)[i] == head[i]);
            }
        }
    }
}

/// Does one of the four escapes stand at `i`?
pub open spec fn escape_at(t: Seq<char>, i: int) -> bool {
    crate::text::starts_with(t.skip(i), "&amp;"@) || crate::text::starts_with(t.skip(i), "&lt;"@)
        || crate::text::starts_with(t.skip(i), "&gt;"@) || crate::text::starts_with(
        t.skip(i),
        "&quot;"@,
    )
}

proof fn lemma_escape_stays(t: Seq<char>, more: Seq<char>, i: int)
    requires
        0 <= i < t.len(),
        escape_at(t, i),
    ensures
        escape_at(t + more, i),
{
    let short = t.skip(i);
    let long = (t + more).skip(i);
    assert(long =~= short + more);
    assert forall|p: Seq<char>| #[trigger] crate::text::starts_with(short, p) implies
        crate::text::starts_with(long, p) by {
        assert(long.subrange(0, p.len() as int) =~= short.subrange(0, p.len() as int));
    }
}

/// Every ampersand of an escaped text begins one of the four escapes.
pub proof fn law_attr_ampersands_escape(s: Seq<char>)
    ensures
        forall|i: int|
            0 <= i < attr_text(s).len() && #[trigger] attr_text(s)[i] == '&' ==> escape_at(
                attr_text(s),
                i,
            ),
    decreases s.len(),
{
    if s.len() > 0 {
        law_attr_ampersands_escape(s.drop_last());
        reveal_strlit("&amp;");
        reveal_strlit("&lt;");
        reveal_strlit("&gt;");
        reveal_strlit("&quot;");
        let head = attr_text(s.drop_last());
        let tail = attr_char(s.last());
        let t = attr_text(s);
        assert forall|i: int| 0 <= i < t.len() && #[trigger] t[i] == '&' implies escape_at(t, i) by {
            if i < head.len() {
                assert(head[i] == t[i]);
                lemma_escape_stays(head, tail, i);
            } else {
                assert(tail[i - head.len()] == t[i]);
                assert(i == head.len());
                assert(t.skip(i) =~= tail);
                assert(tail.subrange(0, tail.len() as int) =~= tail);
            }
        }
    }
}

/// A text with the four escapes undone, in one pass from the left.
pub open spec fn unescaped(t: Seq<char>) -> Seq<char>
    decreases t.len(),
{
    if t.len() == 0 {
        Seq::<char>::empty()
    } else if crate::text::starts_with(t, "&amp;"@) && "&amp;"@.len() > 0 {
        seq!['&'] + unescaped(t.skip("&amp;"@.len() as int))
    } else if crate::text::starts_with(t, "&lt;"@) && "&lt;"@.len() > 0 {
        seq!['<'] + unescaped(t.skip("&lt;"@.len() as int))
    } else if crate::text::starts_with(t, "&gt;"@) && "&gt;"@.len() > 0 {
        seq!['>'] + unescaped(t.skip("&gt;"@.len() as int))
    } else if crate::text::starts_with(t, "&quot;"@) && "&quot;"@.len() > 0 {
        seq!['"'] + unescaped(t.skip("&quot;"@.len() as int))
    } else {
        seq![t[0]] + unescaped(t.skip(1))
    }
}

proof fn lemma_attr_first(s: Seq<char>)
    requires
        s.len() > 0,
    ensures
        attr_text(s) == attr_char(s[0]) + attr_text(s.skip(1)),
    decreases s.len(),
{
    if s.len() == 1 {
        assert(s.drop_last() =~= Seq::<char>::empty());
        assert(s.skip(1) =~= Seq::<char>::empty());
        assert(attr_text(s.drop_last()) =~= Seq::<char>::empty());
        assert(attr_text(s) =~= attr_char(s[0]) + attr_text(s.skip(1)));
    } else {
        let init = s.drop_last();
        lemma_attr_first(init);
        assert(s.skip(1).drop_last() =~= init.skip(1));
        assert(attr_text(s) =~= attr_char(s[0]) + attr_text(s.skip(1)));
    }
}

/// Escaping loses nothing: undoing the escapes gives the text back.
pub proof fn law_attr_roundtrip(s: Seq<char>)
    ensures
        unescaped(attr_text(s)) == s,
    decreases s.len(),
{
    if s.len() > 0 {
        lemma_attr_first(s);
        law_attr_roundtrip(s.skip(1));
        reveal_strlit("&amp;");
        reveal_strlit("&lt;");
        reveal_strlit("&gt;");
        reveal_strlit("&quot;");
        let t = attr_text(s);
        let head = attr_char(s[0]);
        let n = head.len() as int;
        assert(t.skip(n) =~= attr_text(s.skip(1)));
        assert(t.subrange(0, n) =~= head);
        assert(t[0] == head[0]);
        if s[0] == '<' || s[0] == '>' || s[0] == '"' {
            assert(t[1] == head[1]);
            assert(!crate::text::starts_with(t, "&amp;"@)) by {
                if t.len() >= 5 {
                    assert(t.subrange(0, 5)[1] == t[1]);
                }
            }
            if s[0] != '<' {
                assert(!crate::text::starts_with(t, "&lt;"@)) by {
                    if t.len() >= 4 {
                        assert(t.subrange(0, 4)[1] == t[1]);
                    }
                }
            }
            if s[0] == '"' {
                assert(!crate::text::starts_with(t, "&gt;"@)) by {
                    if t.len() >= 4 {
                        assert(t.subrange(0, 4)[1] == t[1]);
                    }
                }
            }
        } else if s[0] != '&' {
            assert(!crate::text::starts_with(t, "&amp;"@) && !crate::text::starts_with(t, "&lt;"@)
                && !crate::text::starts_with(t, "&gt;"@) && !crate::text::starts_with(
                t,
                "&quot;"@,
            )) by {
                assert forall|p: Seq<char>| p.len() > 0 && p[0] == '&' implies
                    !#[trigger] crate::text::starts_with(t, p) by {
                    if t.len() >= p.len() {
                        assert(t.subrange(0, p.len() as int)[0] == t[0]);
                    }
                }
            }
        }
        assert(s =~= seq![s[0]] + s.skip(1));
    } else {
        assert(unescaped(attr_text(s)) =~= s);
    }
}

/// Two texts with the same escaped form are the same.
pub proof fn law_attr_injective(a: Seq<char>, b: Seq<char>)
    requires
        attr_text(a) == attr_text(b),
    ensures
        a == b,
{
    law_attr_roundtrip(a);
    law_attr_roundtrip(b);
}

// ---------------------------------------------------------------------
// Laws: what is written, against the documents
// ---------------------------------------------------------------------

/// A text is escaped piece by piece.
pub proof fn law_escaping_is_by_pieces(a: Seq<char>, b: Seq<char>)
    ensures
        attr_text(a + b) == attr_text(a) + attr_text(b),
        body_text(a + b) == body_text(a) + body_text(b),
    decreases b.len(),
{
    if b.len() > 0 {
        law_escaping_is_by_pieces(a, b.drop_last());
        assert((a + b).drop_last() =~= a + b.drop_last());
        assert(attr_text(a + b) =~= attr_text(a) + attr_text(b));
        assert(body_text(a + b) =~= body_text(a) + body_text(b));
    } else {
        assert(a + b =~= a);
        assert(attr_text(a) + attr_text(b) =~= attr_text(a));
        assert(body_text(a) + body_text(b) =~= body_text(a));
    }
}

/// Between tags an ampersand and the angle brackets are escaped as in an
/// attribute; a text that has none of them, quotes or not, stands as it is.
pub proof fn law_body_text(s: Seq<char>)
    ensures
        body_text(seq!['&']) == "&amp;"@,
        body_text(seq!['<']) == "&lt;"@,
        body_text(seq!['>']) == "&gt;"@,
        !s.contains('&') && !s.contains('<') && !s.contains('>') ==> body_text(s) == s,
    decreases s.len(),
{
    assert(seq!['&'].drop_last() =~= Seq::<char>::empty());
    assert(seq!['<'].drop_last() =~= Seq::<char>::empty());
    assert(seq!['>'].drop_last() =~= Seq::<char>::empty());
    assert(body_text(Seq::<char>::empty()) =~= Seq::<char>::empty());
    assert(body_text(seq!['&']) =~= "&amp;"@);
    assert(body_text(seq!['<']) =~= "&lt;"@);
    assert(body_text(seq!['>']) =~= "&gt;"@);
    if s.len() > 0 && !s.contains('&') && !s.contains('<') && !s.contains('>') {
        assert(s.contains(s.last())) by {
            assert(s[s.len() - 1] == s.last());
        }
        assert forall|c: char| !s.contains(c) implies !#[trigger] s.drop_last().contains(c) by {
            if s.drop_last().contains(c) {
                let i = choose|i: int| 0 <= i < s.drop_last().len() && s.drop_last()[i] == c;
                assert(s[i] == c);
            }
        }
        law_body_text(s.drop_last());
        assert(body_text(s) =~= s);
    }
}

/// In an attribute a quote is escaped too; a text with nothing to escape
/// stands as it is.
pub proof fn law_attr_text(s: Seq<char>)
    ensures
        attr_text(seq!['&']) == "&amp;"@,
        attr_text(seq!['<']) == "&lt;"@,
        attr_text(seq!['>']) == "&gt;"@,
        attr_text(seq!['"']) == "&quot;"@,
        !s.contains('&') && !s.contains('<') && !s.contains('>') && !s.contains('"') ==> attr_text(
            s,
        ) == s,
    decreases s.len(),
{
    assert(seq!['&'].drop_last() =~= Seq::<char>::empty());
    assert(seq!['<'].drop_last() =~= Seq::<char>::empty());
    assert(seq!['>'].drop_last() =~= Seq::<char>::empty());
    assert(seq!['"'].drop_last() =~= Seq::<char>::empty());
    assert(attr_text(Seq::<char>::empty()) =~= Seq::<char>::empty());
    assert(attr_text(seq!['&']) =~= "&amp;"@);
    assert(attr_text(seq!['<']) =~= "&lt;"@);
    assert(attr_text(seq!['>']) =~= "&gt;"@);
    assert(attr_text(seq!['"']) =~= "&quot;"@);
    if s.len() > 0 && !s.contains('&') && !s.contains('<') && !s.contains('>') && !s.contains('"') {
        assert(s.contains(s.last())) by {
            assert(s[s.len() - 1] == s.last());
        }
        assert forall|c: char| !s.contains(c) implies !#[trigger] s.drop_last().contains(c) by {
            if s.drop_last().contains(c) {
                let i = choose|i: int| 0 <= i < s.drop_last().len() && s.drop_last()[i] == c;
                assert(s[i] == c);
            }
        }
        law_attr_text(s.drop_last());
        assert(attr_text(s) =~= s);
    }
}

/// A case without a slash is its own class. Otherwise class and name are the
/// case around its last slash.
pub proof fn law_class_and_name(case: Seq<char>)
    ensures
        ({
            let (class, name) = class_and_name(case);
            if case.contains('/') {
                class + seq!['/'] + name == case && !name.contains('/')
            } else {
                class == case && name == case
            }
        }),
{
    let i = last_index(case, '/');
    lemma_last_index(case, '/');
    if i >= 0 {
        let (class, name) = class_and_name(case);
        assert(case[i] == '/');
        assert(class + seq!['/'] + name =~= case);
        if name.contains('/') {
            let k = choose|k: int| 0 <= k < name.len() && name[k] == '/';
            assert(case[i + 1 + k] == '/');
        }
    } else if case.contains('/') {
        let k = choose|k: int| 0 <= k < case.len() && case[k] == '/';
        assert(case[k] == '/');
    }
}

/// A time is written as whole seconds, a point, and exactly three digits for
/// the milliseconds beyond them.
pub proof fn law_seconds(whole: nat, a: nat, b: nat, c: nat)
    requires
        a < 10,
        b < 10,
        c < 10,
    ensures
        seconds(whole * 1000 + a * 100 + b * 10 + c) == decimal(whole) + seq!['.', digit(a), digit(
            b,
        ), digit(c)],
{
    reveal_strlit(".");
    reveal_strlit("00");
    reveal_strlit("0");
    let ms = whole * 1000 + a * 100 + b * 10 + c;
    let rest = a * 100 + b * 10 + c;
    assert(ms / 1000 == whole);
    assert(ms % 1000 == rest);
    assert(rest / 10 == a * 10 + b);
    assert(rest % 10 == c);
    assert((a * 10 + b) / 10 == a);
    assert((a * 10 + b) % 10 == b);
    reveal_with_fuel(decimal, 3);
    assert(digit(0) == '0');
    assert(three_digits(rest) =~= seq![digit(a), digit(b), digit(c)]);
    assert(seconds(ms) =~= decimal(whole) + seq!['.', digit(a), digit(b), digit(c)]);
}

/// What is wrong with a stream as a whole, each as name, kind and message:
/// its run errors by number, the statuses nobody knows by case, and a missing
/// end.
pub open spec fn problems_of(d: DocumentView) -> Seq<(Seq<char>, Seq<char>, Seq<char>)> {
    Seq::new(
        d.run_errors.len(),
        |i: int| ("run-error-"@ + decimal(i as nat), "run-error"@, d.run_errors[i]),
    ) + d.unknown_statuses.map_values(
        |u: (Seq<char>, Seq<char>)| (u.0, "unknown-status"@, "unknown status `"@ + u.1 + "`"@),
    ) + (if d.terminated {
        seq![]
    } else {
        seq![
            (
                "unterminated-segment"@,
                "unterminated"@,
                "the results stream has no segment-end terminator"@,
            ),
        ]
    })
}

/// The time that a case took, nothing where none was recorded.
pub open spec fn taken(r: CaseView) -> nat {
    if r.duration_ms is Some { r.duration_ms->0 as nat } else { 0 }
}

/// The time that the cases took together.
pub open spec fn time_taken(rs: Seq<CaseView>) -> nat {
    rs.fold_left(0nat, |sum: nat, r: CaseView| sum + taken(r))
}

proof fn lemma_counted(rs: Seq<CaseView>, n: int)
    requires
        0 <= n <= rs.len(),
    ensures
        failing_count(rs, n) == rs.take(n).filter(
            |r: CaseView| r.status == Status::Fail || r.status == Status::NotReached,
        ).len(),
        skipped_count(rs, n) == rs.take(n).filter(
            |r: CaseView|
                r.status == Status::Skipped || r.status == Status::NotApplicable || r.status
                    == Status::Deselected,
        ).len(),
        total_millis(rs, n) == time_taken(rs.take(n)),
        case_elements(rs, n) == rs.take(n).map_values(
            |r: CaseView| case_element(r),
        ).flatten_alt(),
    decreases n,
{
    reveal(Seq::filter);
    let e = |r: CaseView| case_element(r);
    if n > 0 {
        lemma_counted(rs, n - 1);
        assert(rs.take(n).drop_last() =~= rs.take(n - 1));
        assert(rs.take(n).last() == rs[n - 1]);
        assert(rs.take(n).map_values(e).drop_last() =~= rs.take(n - 1).map_values(e));
        assert(rs.take(n).map_values(e).last() == case_element(rs[n - 1]));
    } else {
        assert(rs.take(n).map_values(e) =~= Seq::empty());
        assert(case_elements(rs, n) =~= rs.take(n).map_values(e).flatten_alt());
    }
}

proof fn lemma_run_errors(target: Seq<char>, es: Seq<Seq<char>>, n: int)
    requires
        0 <= n <= es.len(),
    ensures
        run_error_elements(target, es, n) == Seq::new(
            n as nat,
            |i: int|
                problem_element(
                    target,
                    "run-error-"@ + decimal(i as nat),
                    "run-error"@,
                    es[i],
                ),
        ).flatten_alt(),
    decreases n,
{
    let f = |i: int|
        problem_element(target, "run-error-"@ + decimal(i as nat), "run-error"@, es[i]);
    if n > 0 {
        lemma_run_errors(target, es, n - 1);
        assert(Seq::new(n as nat, f).drop_last() =~= Seq::new((n - 1) as nat, f));
        assert(Seq::new(n as nat, f).last() == f(n - 1));
    } else {
        assert(Seq::new(n as nat, f) =~= Seq::empty());
        assert(run_error_elements(target, es, n) =~= Seq::new(n as nat, f).flatten_alt());
    }
}

proof fn lemma_unknowns(target: Seq<char>, us: Seq<(Seq<char>, Seq<char>)>, n: int)
    requires
        0 <= n <= us.len(),
    ensures
        unknown_elements(target, us, n) == us.take(n).map_values(
            |u: (Seq<char>, Seq<char>)|
                problem_element(target, u.0, "unknown-status"@, "unknown status `"@ + u.1 + "`"@),
        ).flatten_alt(),
    decreases n,
{
    let f = |u: (Seq<char>, Seq<char>)|
        problem_element(target, u.0, "unknown-status"@, "unknown status `"@ + u.1 + "`"@);
    if n > 0 {
        lemma_unknowns(target, us, n - 1);
        assert(us.take(n).map_values(f).drop_last() =~= us.take(n - 1).map_values(f));
        assert(us.take(n).map_values(f).last() == f(us[n - 1]));
    } else {
        assert(us.take(n).map_values(f) =~= Seq::empty());
        assert(unknown_elements(target, us, n) =~= us.take(n).map_values(f).flatten_alt());
    }
}

proof fn lemma_problems(target: Seq<char>, d: DocumentView)
    ensures
        run_error_elements(target, d.run_errors, d.run_errors.len() as int) + unknown_elements(
            target,
            d.unknown_statuses,
            d.unknown_statuses.len() as int,
        ) + unterminated_element(target, d) == problems_of(d).map_values(
            |p: (Seq<char>, Seq<char>, Seq<char>)| problem_element(target, p.0, p.1, p.2),
        ).flatten_alt(),
{
    let w = |p: (Seq<char>, Seq<char>, Seq<char>)| problem_element(target, p.0, p.1, p.2);
    let f = |i: int|
        problem_element(target, "run-error-"@ + decimal(i as nat), "run-error"@, d.run_errors[i]);
    let g = |u: (Seq<char>, Seq<char>)|
        problem_element(target, u.0, "unknown-status"@, "unknown status `"@ + u.1 + "`"@);
    let n = d.run_errors.len();
    let us = d.unknown_statuses;
    lemma_run_errors(target, d.run_errors, n as int);
    lemma_unknowns(target, us, us.len() as int);
    assert(us.take(us.len() as int) =~= us);
    let last = if d.terminated {
        Seq::<Seq<char>>::empty()
    } else {
        seq![
            problem_element(
                target,
                "unterminated-segment"@,
                "unterminated"@,
                "the results stream has no segment-end terminator"@,
            ),
        ]
    };
    let x = Seq::new(n, f);
    let y = us.map_values(g);
    assert(problems_of(d).map_values(w) =~= x + y + last);
    vstd::seq_lib::lemma_flatten_alt_concat(x + y, last);
    vstd::seq_lib::lemma_flatten_alt_concat(x, y);
    if !d.terminated {
        assert(last.drop_last() =~= Seq::<Seq<char>>::empty());
        assert(last.drop_last().flatten_alt() =~= Seq::<char>::empty());
        assert(last.flatten_alt() =~= last[0]);
    }
}

/// A suite's head counts what stands in it: a test for every result and every
/// problem, a failure for every failing result, an error for every problem, a
/// skip for every result that neither passed nor failed, and the time of all.
/// Its body is one element for each, results first.
pub proof fn law_suite_element(target: Seq<char>, d: DocumentView)
    ensures
        suite_element(target, d) == "  <testsuite name=\""@ + attr_text(target) + "\" tests=\""@
            + decimal(d.results.len() + problems_of(d).len()) + "\" failures=\""@ + decimal(
            d.results.filter(
                |r: CaseView| r.status == Status::Fail || r.status == Status::NotReached,
            ).len(),
        ) + "\" errors=\""@ + decimal(problems_of(d).len()) + "\" skipped=\""@ + decimal(
            d.results.filter(
                |r: CaseView|
                    r.status == Status::Skipped || r.status == Status::NotApplicable || r.status
                        == Status::Deselected,
            ).len(),
        ) + "\" time=\""@ + seconds(time_taken(d.results)) + "\">\n"@ + (d.results.map_values(
            |r: CaseView| case_element(r),
        ).flatten_alt() + problems_of(d).map_values(
            |p: (Seq<char>, Seq<char>, Seq<char>)| problem_element(target, p.0, p.1, p.2),
        ).flatten_alt()) + "  </testsuite>\n"@,
{
    let n = d.results.len() as int;
    lemma_counted(d.results, n);
    assert(d.results.take(n) =~= d.results);
    lemma_problems(target, d);
    let a = case_elements(d.results, n);
    let b = run_error_elements(target, d.run_errors, d.run_errors.len() as int);
    let c = unknown_elements(target, d.unknown_statuses, d.unknown_statuses.len() as int);
    let e = unterminated_element(target, d);
    assert(a + b + c + e =~= a + (b + c + e));
    assert(problem_count(d) == problems_of(d).len());
}

/// The file has one suite for each stream, in order, and nothing between them.
pub proof fn law_junit_text(docs: Seq<(Seq<char>, DocumentView)>)
    ensures
        junit_text(docs) == "<?xml version=\"1.0\" encoding=\"UTF-8\"?>\n<testsuites>\n"@
            + docs.map_values(
            |d: (Seq<char>, DocumentView)| suite_element(d.0, d.1),
        ).flatten_alt() + "</testsuites>\n"@,
{
    lemma_suite_elements(docs, docs.len() as int);
    assert(docs.take(docs.len() as int) =~= docs);
}

proof fn lemma_suite_elements(docs: Seq<(Seq<char>, DocumentView)>, n: int)
    requires
        0 <= n <= docs.len(),
    ensures
        suite_elements(docs, n) == docs.take(n).map_values(
            |d: (Seq<char>, DocumentView)| suite_element(d.0, d.1),
        ).flatten_alt(),
    decreases n,
{
    let f = |d: (Seq<char>, DocumentView)| suite_element(d.0, d.1);
    if n > 0 {
        lemma_suite_elements(docs, n - 1);
        assert(docs.take(n).map_values(f).drop_last() =~= docs.take(n - 1).map_values(f));
        assert(docs.take(n).map_values(f).last() == f(docs[n - 1]));
    } else {
        assert(docs.take(n).map_values(f) =~= Seq::empty());
        assert(suite_elements(docs, n) =~= docs.take(n).map_values(f).flatten_alt());
    }
}

/// The words for a result inside its element: none for a pass, a failure with
/// its kind where the run is worse for it, a skip for anything else.
pub open spec fn said_of(r: CaseView) -> Seq<char> {
    let detail = attr_text(if r.detail is Some { r.detail->0 } else { ""@ });
    if r.status == Status::Pass {
        ""@
    } else if r.status == Status::Fail || r.status == Status::NotReached {
        let kind = if r.status == Status::NotReached {
            "not-reached"@
        } else if r.provenance == Some(ProvenanceView::Trap) {
            "trap"@
        } else if r.provenance is Some && r.provenance->0 is LimitExceeded {
            attr_text("limit-exceeded: "@ + r.provenance->0->LimitExceeded_0)
        } else {
            "fail"@
        };
        "      <failure message=\""@ + detail + "\" type=\""@ + kind + "\"/>\n"@
    } else {
        "      <skipped message=\""@ + (if r.status == Status::NotApplicable {
            "not applicable ("@ + detail + ")"@
        } else if r.status == Status::Deselected {
            "deselected ("@ + detail + ")"@
        } else {
            detail
        }) + "\"/>\n"@
    }
}

/// A result's element carries its class, name and time, what is said of it,
/// and its diagnostics where it has any; with nothing inside it is closed at
/// once.
pub proof fn law_case_element(r: CaseView)
    ensures
        ({
            let open = "    <testcase classname=\""@ + attr_text(class_and_name(r.case).0)
                + "\" name=\""@ + attr_text(class_and_name(r.case).1) + "\" time=\""@ + seconds(
                taken(r),
            ) + "\""@;
            let out = if r.diagnostics.len() == 0 {
                ""@
            } else if r.diagnostics_complete {
                "      <system-out>"@ + body_text(join(r.diagnostics, "\n"@))
                    + "</system-out>\n"@
            } else {
                "      <system-out>"@ + body_text(join(r.diagnostics, "\n"@)) + body_text(
                    "\n[diagnostics incomplete]"@,
                ) + "</system-out>\n"@
            };
            if r.status == Status::Pass && r.diagnostics.len() == 0 {
                case_element(r) == open + "/>\n"@
            } else {
                case_element(r) == open + ">\n"@ + (said_of(r) + out) + "    </testcase>\n"@
            }
        }),
{
    reveal_strlit("");
    reveal_strlit("fail");
    reveal_strlit("trap");
    assert(""@ =~= Seq::<char>::empty());
    law_attr_text("fail"@);
    law_attr_text("trap"@);
    let all = join(r.diagnostics, "\n"@);
    law_escaping_is_by_pieces(all, "\n[diagnostics incomplete]"@);
    reveal_strlit("      <failure message=\"");
    reveal_strlit("      <skipped message=\"");
    reveal_strlit("      <skipped message=\"not applicable (");
    reveal_strlit("      <skipped message=\"deselected (");
    reveal_strlit("not applicable (");
    reveal_strlit("deselected (");
    reveal_strlit(")");
    reveal_strlit("\" type=\"");
    reveal_strlit("not-reached");
    reveal_strlit("\"/>\n");
    reveal_strlit(")\"/>\n");
    reveal_strlit("\" type=\"not-reached\"/>\n");
    reveal_strlit("      <system-out>");
    assert(status_element(r) =~= said_of(r));
    let t = body_text(all) + body_text("\n[diagnostics incomplete]"@);
    assert("      <system-out>"@ + t + "</system-out>\n"@ =~= "      <system-out>"@ + body_text(all)
        + body_text("\n[diagnostics incomplete]"@) + "</system-out>\n"@);
}

} // verus!
