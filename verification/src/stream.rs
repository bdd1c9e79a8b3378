//! The results stream: framing, and the fold into a document.
//!
//! - A segment without a terminator folds its open (selected but unreported)
//!   cases to `not-reached`.
//! - A status that is not understood folds to no result and a note.
//! - An empty selection is an error of the run.

use vstd::prelude::*;

use crate::json::{json_member, json_string_member};
use crate::results::{
    bare_case, bare_result, case_views, CaseResult, CaseView, Document, DocumentView, Envelope,
    EnvelopeView, EventView, Status, RESULTS_VERSION, TERMINATOR,
};
use crate::table::{has_key, law_lookup_put, put, Table};
use crate::text::{
    blank, is_blank, lemma_split_concat, lemma_split_single, lines, lines_of, opt_text, owned, same,
    split, texts, views, without_cr, Text,
};
use crate::verdict::{Provenance, ProvenanceView};

verus! {

// ---------------------------------------------------------------------
// Framing
// ---------------------------------------------------------------------

/// The items that are not blank.
pub open spec fn not_blank(ls: Seq<Seq<char>>) -> Seq<Seq<char>>
    decreases ls.len(),
{
    if ls.len() == 0 {
        Seq::<Seq<char>>::empty()
    } else if is_blank(ls.last()) {
        not_blank(ls.drop_last())
    } else {
        not_blank(ls.drop_last()).push(ls.last())
    }
}

/// The lines of a stream that carry something.
pub open spec fn content_lines(stream: Seq<char>) -> Seq<Seq<char>> {
    not_blank(lines(stream))
}

/// The lines of a stream that carry something.
pub fn content_lines_of(stream: &str) -> (r: Vec<String>)
    ensures
        views(r@) == content_lines(stream@),
{
    let all = lines_of(stream);
    let ghost ls = views(all@);
    let mut r: Vec<String> = Vec::new();
    let mut i: usize = 0;
    assert(views(r@) =~= not_blank(ls.take(0)));
    while i < all.len()
        invariant
            i <= all@.len(),
            ls == views(all@),
            views(r@) == not_blank(ls.take(i as int)),
        decreases all.len() - i,
    {
        assert(ls.take(i + 1).drop_last() =~= ls.take(i as int));
        assert(ls[i as int] == all@[i as int]@);
        if !blank(all[i].as_str()) {
            let ghost was = views(r@);
            r.push(all[i].clone());
            assert(views(r@) =~= was.push(ls[i as int]));
        }
        i += 1;
    }
    assert(ls.take(i as int) =~= ls);
    r
}

/// `items`, each followed by a line feed.
pub open spec fn terminated_lines(items: Seq<Seq<char>>) -> Seq<char>
    decreases items.len(),
{
    if items.len() == 0 {
        Seq::<char>::empty()
    } else {
        terminated_lines(items.drop_last()) + items.last().push('\n')
    }
}

/// The stream of an encoded envelope and encoded events.
pub open spec fn jsonl(envelope: Seq<char>, events: Seq<Seq<char>>) -> Seq<char> {
    terminated_lines(seq![envelope] + events + seq![TERMINATOR@])
}

/// Frame an encoded envelope and encoded events as a stream: one line each,
/// and the terminator.
pub fn to_jsonl(envelope: &str, events: &[String]) -> (r: String)
    ensures
        r@ == jsonl(envelope@, views(events@)),
{
    let ghost items = seq![envelope@] + views(events@) + seq![TERMINATOR@];
    let mut out = owned(envelope);
    out.push('\n');
    assert(items.take(1) =~= seq![envelope@]);
    assert(items.take(1).drop_last() =~= Seq::<Seq<char>>::empty());
    assert(terminated_lines(items.take(1).drop_last()) =~= Seq::<char>::empty());
    assert(items.take(1).last() == envelope@);
    assert(out@ =~= terminated_lines(items.take(1)));
    let mut i: usize = 0;
    while i < events.len()
        invariant
            i <= events@.len(),
            items == seq![envelope@] + views(events@) + seq![TERMINATOR@],
            out@ == terminated_lines(items.take(i + 1)),
        decreases events.len() - i,
    {
        assert(items.take(i + 2).drop_last() =~= items.take(i + 1));
        assert(items[i + 1] == events@[i as int]@);
        let ghost was = out@;
        out.append(events[i].as_str());
        out.push('\n');
        assert(out@ =~= was + items[i + 1].push('\n'));
        i += 1;
    }
    assert(items.take(i + 2).drop_last() =~= items.take(i + 1));
    assert(items.take(i + 2) =~= items);
    let ghost was = out@;
    out.append(TERMINATOR);
    out.push('\n');
    assert(out@ =~= was + TERMINATOR@.push('\n'));
    out
}

/// A text that one line can hold: something, on one line, and no carriage
/// return at its end.
pub open spec fn is_line(s: Seq<char>) -> bool {
    !is_blank(s) && !s.contains('\n') && s.last() != '\r'
}

proof fn lemma_split_terminated(items: Seq<Seq<char>>)
    requires
        forall|i: int| 0 <= i < items.len() ==> is_line(#[trigger] items[i]),
    ensures
        split(terminated_lines(items), '\n') == items.push(Seq::<char>::empty()),
    decreases items.len(),
{
    if items.len() == 0 {
        assert(split(terminated_lines(items), '\n') =~= items.push(Seq::<char>::empty()));
    } else {
        let init = items.drop_last();
        let last = items.last();
        assert forall|i: int| 0 <= i < init.len() implies is_line(#[trigger] init[i]) by {
            assert(init[i] == items[i]);
        }
        lemma_split_terminated(init);
        assert(is_line(items[items.len() - 1]));
        let head = terminated_lines(init);
        let s = head + last;
        assert(terminated_lines(items) =~= s.push('\n') + Seq::<char>::empty());
        lemma_split_concat(s, Seq::<char>::empty(), '\n');
        assert(split(Seq::<char>::empty(), '\n') =~= seq![Seq::<char>::empty()]);
        lemma_split_single(last, '\n');
        if init.len() == 0 {
            assert(head =~= Seq::<char>::empty());
            assert(s =~= last);
            assert(split(s, '\n') =~= items);
        } else {
            let before = terminated_lines(init.drop_last()) + init.last();
            assert(head =~= before.push('\n'));
            lemma_split_concat(before, Seq::<char>::empty(), '\n');
            lemma_split_concat(before, last, '\n');
            assert(before.push('\n') + Seq::<char>::empty() =~= head);
            assert(split(head, '\n') == split(before, '\n') + seq![Seq::<char>::empty()]);
            assert(split(before, '\n') =~= init) by {
                assert((split(before, '\n') + seq![Seq::<char>::empty()]).drop_last() =~= split(
                    before,
                    '\n',
                ));
                assert(init.push(Seq::<char>::empty()).drop_last() =~= init);
            }
            assert(split(s, '\n') == init + seq![last]);
            assert(init + seq![last] =~= items);
        }
        assert(split(terminated_lines(items), '\n') =~= items.push(Seq::<char>::empty()));
    }
}

proof fn lemma_not_blank_all(items: Seq<Seq<char>>)
    requires
        forall|i: int| 0 <= i < items.len() ==> is_line(#[trigger] items[i]),
    ensures
        not_blank(items) == items,
    decreases items.len(),
{
    if items.len() > 0 {
        let init = items.drop_last();
        assert forall|i: int| 0 <= i < init.len() implies is_line(#[trigger] init[i]) by {
            assert(init[i] == items[i]);
        }
        assert(is_line(items[items.len() - 1]));
        lemma_not_blank_all(init);
        assert(init.push(items.last()) =~= items);
    } else {
        assert(not_blank(items) =~= items);
    }
}

/// Reading framed lines gives them back.
pub proof fn law_lines_roundtrip(items: Seq<Seq<char>>)
    requires
        forall|i: int| 0 <= i < items.len() ==> is_line(#[trigger] items[i]),
    ensures
        content_lines(terminated_lines(items)) == items,
{
    lemma_split_terminated(items);
    lemma_not_blank_all(items);
    let s = terminated_lines(items);
    let pieces = split(s, '\n');
    let n = pieces.len() - 1;
    assert(lines(s) =~= items) by {
        assert forall|i: int| 0 <= i < n implies without_cr(#[trigger] pieces[i]) == items[i] by {
            assert(is_line(items[i]));
        }
        assert(pieces[n].len() == 0);
    }
}

/// Reading a framed stream line by line gives back the envelope, the events
/// and the terminator.
pub proof fn law_framing_roundtrip(envelope: Seq<char>, events: Seq<Seq<char>>)
    requires
        is_line(envelope),
        forall|i: int| 0 <= i < events.len() ==> is_line(#[trigger] events[i]),
    ensures
        content_lines(jsonl(envelope, events)) == seq![envelope] + events + seq![TERMINATOR@],
{
    let items = seq![envelope] + events + seq![TERMINATOR@];
    reveal_strlit("{\"segment-end\":true}");
    assert(is_line(TERMINATOR@)) by {
        assert(TERMINATOR@[0] == '{');
        assert(!crate::text::is_space(TERMINATOR@[0]));
        assert forall|i: int| 0 <= i < TERMINATOR@.len() implies TERMINATOR@[i] != '\n' by {
        }
    }
    assert forall|i: int| 0 <= i < items.len() implies is_line(#[trigger] items[i]) by {
        if i > 0 && i <= events.len() {
            assert(items[i] == events[i - 1]);
        }
    }
    law_lines_roundtrip(items);
}

// ---------------------------------------------------------------------
// The fold
// ---------------------------------------------------------------------

/// What one event line is when it is read as a typed record: the flag of a
/// segment terminator, if it is one, and the case result, if it is one.
#[derive(Debug, PartialEq, Eq)]
pub struct LineReading {
    pub segment_end: Option<bool>,
    pub case: Option<CaseResult>,
}

/// A [`LineReading`] over texts.
pub struct ReadingView {
    pub segment_end: Option<bool>,
    pub case: Option<CaseView>,
}

impl View for LineReading {
    type V = ReadingView;

    open spec fn view(&self) -> ReadingView {
        ReadingView {
            segment_end: self.segment_end,
            case: match self.case {
                Some(r) => Some(r@),
                None => None,
            },
        }
    }
}

/// The views of a list of readings.
pub open spec fn reading_views(v: Seq<LineReading>) -> Seq<ReadingView> {
    Seq::new(v.len(), |i: int| v[i]@)
}

/// Why a stream does not fold.
#[derive(Debug, PartialEq, Eq)]
pub enum FoldError {
    /// There is no line to hold the envelope.
    MissingEnvelope,
    /// The first line is no envelope; the payload says why.
    BadEnvelope(String),
    /// The envelope names a version that is not understood.
    UnsupportedVersion(String),
    /// Nothing was selected.
    EmptySelection,
    /// There are events after the terminator.
    AfterTerminator,
    /// An event line is no JSON; the payload says why.
    BadLine(String),
}

/// A [`FoldError`] over texts.
pub enum FoldFault {
    MissingEnvelope,
    BadEnvelope(Seq<char>),
    UnsupportedVersion(Seq<char>),
    EmptySelection,
    AfterTerminator,
    BadLine(Seq<char>),
}

impl View for FoldError {
    type V = FoldFault;

    open spec fn view(&self) -> FoldFault {
        match *self {
            FoldError::MissingEnvelope => FoldFault::MissingEnvelope,
            FoldError::BadEnvelope(e) => FoldFault::BadEnvelope(e@),
            FoldError::UnsupportedVersion(v) => FoldFault::UnsupportedVersion(v@),
            FoldError::EmptySelection => FoldFault::EmptySelection,
            FoldError::AfterTerminator => FoldFault::AfterTerminator,
            FoldError::BadLine(e) => FoldFault::BadLine(e@),
        }
    }
}

/// The message of a fold fault.
pub open spec fn fold_fault_text(f: FoldFault) -> Seq<char> {
    match f {
        FoldFault::MissingEnvelope => "empty stream: missing envelope"@,
        FoldFault::BadEnvelope(e) => "parsing envelope: "@ + e,
        FoldFault::UnsupportedVersion(v) => "unsupported results version `"@ + v
            + "` (this consumer understands `"@ + RESULTS_VERSION@ + "`)"@,
        FoldFault::EmptySelection => "empty selection is a run error"@,
        FoldFault::AfterTerminator => "events after segment terminator"@,
        FoldFault::BadLine(e) => "parsing event line: "@ + e,
    }
}

impl FoldError {
    /// The error as a message.
    pub fn to_string(&self) -> (r: String)
        ensures
            r@ == fold_fault_text(self@),
    {
        match self {
            FoldError::MissingEnvelope => owned("empty stream: missing envelope"),
            FoldError::BadEnvelope(e) => {
                let mut r = owned("parsing envelope: ");
                r.append(e.as_str());
                r
            },
            FoldError::UnsupportedVersion(v) => {
                let mut r = owned("unsupported results version `");
                r.append(v.as_str());
                r.append("` (this consumer understands `");
                r.append(RESULTS_VERSION);
                r.append("`)");
                r
            },
            FoldError::EmptySelection => owned("empty selection is a run error"),
            FoldError::AfterTerminator => owned("events after segment terminator"),
            FoldError::BadLine(e) => {
                let mut r = owned("parsing event line: ");
                r.append(e.as_str());
                r
            },
        }
    }
}

/// What has been folded so far.
#[verifier::ext_equal]
pub struct FoldState {
    pub results: Seq<CaseView>,
    pub run_errors: Seq<Seq<char>>,
    pub unknown_statuses: Seq<(Seq<char>, Seq<char>)>,
    pub terminated: bool,
}

/// The start of a fold.
pub open spec fn fold_start() -> FoldState {
    FoldState {
        results: Seq::empty(),
        run_errors: Seq::empty(),
        unknown_statuses: Seq::empty(),
        terminated: false,
    }
}

/// A looked-up member, or what to say in its place.
pub open spec fn member_or(
    r: Result<Option<Seq<char>>, Seq<char>>,
    default: Seq<char>,
) -> Seq<char> {
    match r {
        Ok(Some(s)) => s,
        _ => default,
    }
}

/// What one event line does.
pub open spec fn fold_step(st: FoldState, line: Seq<char>, reading: ReadingView) -> Result<
    FoldState,
    FoldFault,
> {
    if st.terminated {
        Err(FoldFault::AfterTerminator)
    } else if reading.segment_end == Some(true) {
        Ok(FoldState { terminated: true, ..st })
    } else {
        match json_member(line, "run-error"@) {
            Err(e) => Err(FoldFault::BadLine(e)),
            Ok(Some(msg)) => Ok(FoldState { run_errors: st.run_errors.push(msg), ..st }),
            Ok(None) => match reading.case {
                Some(r) => Ok(FoldState { results: st.results.push(r), ..st }),
                None => Ok(
                    FoldState {
                        unknown_statuses: put(
                            st.unknown_statuses,
                            member_or(json_member(line, "case"@), "<unknown>"@),
                            member_or(json_member(line, "status"@), "<unparseable>"@),
                        ),
                        ..st
                    },
                ),
            },
        }
    }
}

/// What the event lines from the `i`-th on do.
pub open spec fn fold_from(
    st: FoldState,
    events: Seq<Seq<char>>,
    readings: Seq<ReadingView>,
    i: int,
) -> Result<FoldState, FoldFault>
    decreases events.len() - i,
{
    if i < 0 || i >= events.len() {
        Ok(st)
    } else {
        match fold_step(st, events[i], readings[i]) {
            Ok(next) => fold_from(next, events, readings, i + 1),
            Err(e) => Err(e),
        }
    }
}

/// Did the case fail without returning?
pub open spec fn is_abnormal(r: CaseView) -> bool {
    r.status is Fail && (r.provenance == Some(ProvenanceView::Trap) || (r.provenance is Some
        && r.provenance->0 is LimitExceeded))
}

/// The last case that failed without returning.
pub open spec fn last_abnormal(results: Seq<CaseView>) -> Option<Seq<char>>
    decreases results.len(),
{
    if results.len() == 0 {
        None
    } else if is_abnormal(results.last()) {
        Some(results.last().case)
    } else {
        last_abnormal(results.drop_last())
    }
}

/// Was the case reported, in whatever form?
pub open spec fn is_reported(st: FoldState, name: Seq<char>) -> bool {
    has_key(st.unknown_statuses, name) || exists|i: int|
        0 <= i < st.results.len() && (#[trigger] st.results[i]).case == name
}

/// Why an open case was not reached.
pub open spec fn open_detail(cause: Option<Seq<char>>) -> Option<Seq<char>> {
    match cause {
        Some(c) => Some("segment ended after `"@ + c + "`"@),
        None => None,
    }
}

/// The `not-reached` results of the open cases among `selected`.
pub open spec fn open_cases(st: FoldState, selected: Seq<Seq<char>>) -> Seq<CaseView>
    decreases selected.len(),
{
    if selected.len() == 0 {
        Seq::<CaseView>::empty()
    } else {
        let init = open_cases(st, selected.drop_last());
        if is_reported(st, selected.last()) {
            init
        } else {
            init.push(
                bare_case(
                    selected.last(),
                    Status::NotReached,
                    open_detail(last_abnormal(st.results)),
                ),
            )
        }
    }
}

/// The document that a fold ends with.
pub open spec fn fold_end(
    envelope: EnvelopeView,
    st: FoldState,
    selected: Seq<Seq<char>>,
) -> DocumentView {
    DocumentView {
        envelope,
        results: if st.terminated { st.results } else { st.results + open_cases(st, selected) },
        run_errors: st.run_errors,
        unknown_statuses: st.unknown_statuses,
        terminated: st.terminated,
    }
}

/// The view of the reading of an envelope line.
pub open spec fn envelope_reading(r: Result<Envelope, String>) -> Result<EnvelopeView, Seq<char>> {
    match r {
        Ok(e) => Ok(e@),
        Err(m) => Err(m@),
    }
}

/// The document that a stream folds into, or why it does not. The envelope
/// line and the event lines come with what they are when read as records.
pub open spec fn folded(
    stream: Seq<char>,
    envelope: Result<EnvelopeView, Seq<char>>,
    readings: Seq<ReadingView>,
    selected: Seq<Seq<char>>,
) -> Result<DocumentView, FoldFault> {
    let ls = content_lines(stream);
    if ls.len() == 0 {
        Err(FoldFault::MissingEnvelope)
    } else {
        match envelope {
            Err(m) => Err(FoldFault::BadEnvelope(m)),
            Ok(e) => if e.version != RESULTS_VERSION@ {
                Err(FoldFault::UnsupportedVersion(e.version))
            } else if selected.len() == 0 {
                Err(FoldFault::EmptySelection)
            } else {
                match fold_from(fold_start(), ls.drop_first(), readings, 0) {
                    Ok(st) => Ok(fold_end(e, st, selected)),
                    Err(f) => Err(f),
                }
            },
        }
    }
}

/// The view of the outcome of a fold.
pub open spec fn fold_view(r: Result<Document, FoldError>) -> Result<DocumentView, FoldFault> {
    match r {
        Ok(d) => Ok(d@),
        Err(e) => Err(e@),
    }
}

/// The parts of a document while it is being folded.
struct Folding {
    results: Vec<CaseResult>,
    run_errors: Vec<String>,
    unknown_statuses: Table<String>,
    terminated: bool,
}

impl View for Folding {
    type V = FoldState;

    closed spec fn view(&self) -> FoldState {
        FoldState {
            results: case_views(self.results@),
            run_errors: views(self.run_errors@),
            unknown_statuses: self.unknown_statuses@,
            terminated: self.terminated,
        }
    }
}

fn member_text(r: Result<Option<String>, String>, default: &str) -> (s: String)
    ensures
        s@ == member_or(crate::json::member_view(r), default@),
{
    match r {
        Ok(Some(s)) => s,
        _ => owned(default),
    }
}

fn fold_line(st: &mut Folding, line: &str, reading: &LineReading) -> (r: Result<(), FoldError>)
    ensures
        match r {
            Ok(_) => fold_step(old(st)@, line@, reading@) == Ok::<FoldState, FoldFault>(final(st)@),
            Err(e) => fold_step(old(st)@, line@, reading@) == Err::<FoldState, FoldFault>(e@),
        },
{
    let ghost was = st@;
    if st.terminated {
        return Err(FoldError::AfterTerminator);
    }
    match reading.segment_end {
        Some(true) => {
            st.terminated = true;
            return Ok(());
        },
        _ => {},
    }
    match json_string_member(line, "run-error") {
        Err(e) => {
            return Err(FoldError::BadLine(e));
        },
        Ok(Some(msg)) => {
            st.run_errors.push(msg);
            assert(st@.run_errors =~= was.run_errors.push(msg@));
            return Ok(());
        },
        Ok(None) => {},
    }
    match &reading.case {
        Some(r) => {
            let copy = r.clone();
            st.results.push(copy);
            assert(st@.results =~= was.results.push(r@));
        },
        None => {
            let case = member_text(json_string_member(line, "case"), "<unknown>");
            let status = member_text(json_string_member(line, "status"), "<unparseable>");
            st.unknown_statuses.insert(case, status);
        },
    }
    Ok(())
}

fn abnormal(r: &CaseResult) -> (b: bool)
    ensures
        b == is_abnormal(r@),
{
    match r.status {
        Status::Fail => match &r.provenance {
            Some(Provenance::Trap) => true,
            Some(Provenance::LimitExceeded(_)) => true,
            _ => false,
        },
        _ => false,
    }
}

fn last_abnormal_of(results: &[CaseResult]) -> (r: Option<String>)
    ensures
        opt_text(r) == last_abnormal(case_views(results@)),
{
    let ghost rs = case_views(results@);
    let mut n: usize = results.len();
    assert(rs.take(n as int) =~= rs);
    while n > 0
        invariant
            n <= results@.len(),
            rs == case_views(results@),
            last_abnormal(rs) == last_abnormal(rs.take(n as int)),
        decreases n,
    {
        assert(rs.take(n as int).drop_last() =~= rs.take(n - 1));
        assert(rs.take(n as int).last() == results@[n - 1]@);
        if abnormal(&results[n - 1]) {
            return Some(results[n - 1].case.clone());
        }
        n -= 1;
    }
    None
}

fn reported(st: &Folding, known: usize, name: &str) -> (r: bool)
    requires
        known <= st.results@.len(),
    ensures
        r == is_reported(
            (FoldState { results: case_views(st.results@).take(known as int), ..st@ }),
            name@,
        ),
{
    let ghost s = FoldState { results: case_views(st.results@).take(known as int), ..st@ };
    if st.unknown_statuses.contains_key(name) {
        return true;
    }
    for i in 0..known
        invariant
            known <= st.results@.len(),
            s == (FoldState { results: case_views(st.results@).take(known as int), ..st@ }),
            !has_key(st.unknown_statuses@, name@),
            forall|k: int| 0 <= k < i ==> (#[trigger] s.results[k]).case != name@,
    {
        assert(s.results[i as int] == st.results@[i as int]@);
        if same(st.results[i].case.as_str(), name) {
            assert(s.results[i as int].case == name@);
            return true;
        }
    }
    false
}

/// Fold a stream into a [`Document`]. `envelope` is its first line read as
/// an envelope, `readings` what each later line is when read as a record,
/// and `selected` the scheduler's selection for this segment.
pub fn fold_jsonl<S: Text>(
    stream: &str,
    envelope: Result<Envelope, String>,
    readings: &[LineReading],
    selected: &[S],
) -> (r: Result<Document, FoldError>)
    requires
        content_lines(stream@).len() <= readings@.len() + 1,
    ensures
        fold_view(r) == folded(
            stream@,
            envelope_reading(envelope),
            reading_views(readings@),
            texts(selected@),
        ),
{
    let ls = content_lines_of(stream);
    let ghost all = content_lines(stream@);
    if ls.len() == 0 {
        return Err(FoldError::MissingEnvelope);
    }
    let head = match envelope {
        Ok(e) => e,
        Err(m) => {
            return Err(FoldError::BadEnvelope(m));
        },
    };
    if !same(head.version.as_str(), RESULTS_VERSION) {
        return Err(FoldError::UnsupportedVersion(head.version));
    }
    if selected.len() == 0 {
        return Err(FoldError::EmptySelection);
    }
    let mut st = Folding {
        results: Vec::new(),
        run_errors: Vec::new(),
        unknown_statuses: Table::new(),
        terminated: false,
    };
    let ghost events = all.drop_first();
    let ghost rs = reading_views(readings@);
    proof {
        assert(st@.results =~= Seq::<CaseView>::empty());
        assert(st@.run_errors =~= Seq::<Seq<char>>::empty());
        assert(st@ =~= fold_start());
    }
    let ghost outcome = fold_from(fold_start(), events, rs, 0);
    let mut i: usize = 1;
    while i < ls.len()
        invariant
            1 <= i <= ls@.len(),
            ls@.len() <= readings@.len() + 1,
            all == views(ls@),
            events == all.drop_first(),
            rs == reading_views(readings@),
            all == content_lines(stream@),
            all.len() > 0,
            envelope_reading(envelope) == Ok::<EnvelopeView, Seq<char>>(head@),
            head@.version == RESULTS_VERSION@,
            texts(selected@).len() > 0,
            outcome == fold_from(fold_start(), events, rs, 0),
            outcome == fold_from(st@, events, rs, i - 1),
        decreases ls.len() - i,
    {
        assert(events[i - 1] == ls@[i as int]@);
        assert(rs[i - 1] == readings@[i - 1]@);
        match fold_line(&mut st, ls[i].as_str(), &readings[i - 1]) {
            Ok(_) => {},
            Err(e) => {
                return Err(e);
            },
        }
        i += 1;
    }
    let ghost end = st@;
    if !st.terminated {
        let cause = last_abnormal_of(&st.results);
        let detail = match cause {
            Some(c) => {
                let mut d = owned("segment ended after `");
                d.append(c.as_str());
                d.append("`");
                Some(d)
            },
            None => None,
        };
        let known: usize = st.results.len();
        let ghost names = texts(selected@);
        let mut k: usize = 0;
        assert(st@.results =~= end.results + open_cases(end, names.take(0)));
        while k < selected.len()
            invariant
                k <= selected@.len(),
                names == texts(selected@),
                known == end.results.len(),
                !end.terminated,
                st@.run_errors == end.run_errors,
                st@.unknown_statuses == end.unknown_statuses,
                st@.terminated == end.terminated,
                st@.results == end.results + open_cases(end, names.take(k as int)),
                opt_text(detail) == open_detail(last_abnormal(end.results)),
            decreases selected.len() - k,
        {
            assert(names.take(k + 1).drop_last() =~= names.take(k as int));
            assert(names[k as int] == selected@[k as int].text());
            let name = selected[k].as_text();
            let ghost was = st@.results;
            assert((FoldState { results: case_views(st.results@).take(known as int), ..st@ })
                =~= end);
            assert(st.results@.len() == st@.results.len());
            if !reported(&st, known, name) {
                let open = bare_result(name, Status::NotReached, crate::text::clone_opt(&detail));
                let ghost o = open@;
                st.results.push(open);
                assert(st@.results =~= was.push(o));
                assert(was.push(o) =~= end.results + open_cases(end, names.take(k + 1)));
            }
            k += 1;
        }
        assert(names.take(k as int) =~= names);
    }
    Ok(
        Document {
            envelope: head,
            results: st.results,
            run_errors: st.run_errors,
            unknown_statuses: st.unknown_statuses,
            terminated: st.terminated,
        },
    )
}

// ---------------------------------------------------------------------
// Laws
// ---------------------------------------------------------------------

/// A terminated stream folds to what it reports and nothing else.
pub proof fn law_terminated_adds_nothing(
    envelope: EnvelopeView,
    st: FoldState,
    selected: Seq<Seq<char>>,
)
    requires
        st.terminated,
    ensures
        fold_end(envelope, st, selected).results == st.results,
{
}

/// What was reported stays, in order, at the head of the results.
pub proof fn law_reports_are_kept(
    envelope: EnvelopeView,
    st: FoldState,
    selected: Seq<Seq<char>>,
)
    ensures
        st.results.is_prefix_of(fold_end(envelope, st, selected).results),
{
    let d = fold_end(envelope, st, selected);
    assert(d.results.take(st.results.len() as int) =~= st.results);
}

proof fn lemma_open_cases(st: FoldState, selected: Seq<Seq<char>>)
    ensures
        forall|i: int|
            0 <= i < selected.len() && !is_reported(st, #[trigger] selected[i]) ==> exists|k: int|
                0 <= k < open_cases(st, selected).len() && (#[trigger] open_cases(
                    st,
                    selected,
                )[k]).case == selected[i],
        forall|k: int|
            0 <= k < open_cases(st, selected).len() ==> {
                let r = #[trigger] open_cases(st, selected)[k];
                r.status is NotReached && !is_reported(st, r.case) && selected.contains(r.case)
            },
    decreases selected.len(),
{
    if selected.len() > 0 {
        let init = selected.drop_last();
        let o = open_cases(st, init);
        let all = open_cases(st, selected);
        lemma_open_cases(st, init);
        assert forall|i: int| 0 <= i < selected.len() && !is_reported(
            st,
            #[trigger] selected[i],
        ) implies exists|k: int| 0 <= k < all.len() && (#[trigger] all[k]).case == selected[i] by {
            if i < init.len() {
                assert(init[i] == selected[i]);
                let k = choose|k: int| 0 <= k < o.len() && (#[trigger] o[k]).case == init[i];
                assert(all[k].case == selected[i]);
            } else {
                assert(all[all.len() - 1].case == selected[i]);
            }
        }
        assert forall|k: int| 0 <= k < all.len() implies {
            let r = #[trigger] all[k];
            r.status is NotReached && !is_reported(st, r.case) && selected.contains(r.case)
        } by {
            if k < o.len() {
                assert(all[k] == o[k]);
                let j = choose|j: int| 0 <= j < init.len() && init[j] == o[k].case;
                assert(selected[j] == all[k].case);
            } else {
                assert(selected[selected.len() - 1] == all[k].case);
            }
        }
    }
}

/// In an unterminated segment every selected case has a result or a note of
/// a status that was not understood; the results that the fold adds are
/// `not-reached`, for selected cases that were not reported.
pub proof fn law_unterminated_covers_selection(
    envelope: EnvelopeView,
    st: FoldState,
    selected: Seq<Seq<char>>,
)
    requires
        !st.terminated,
    ensures
        forall|i: int|
            0 <= i < selected.len() ==> has_key(st.unknown_statuses, #[trigger] selected[i])
                || exists|k: int|
                0 <= k < fold_end(envelope, st, selected).results.len() && (#[trigger] fold_end(
                    envelope,
                    st,
                    selected,
                ).results[k]).case == selected[i],
        forall|k: int|
            st.results.len() <= k < fold_end(envelope, st, selected).results.len() ==> {
                let r = #[trigger] fold_end(envelope, st, selected).results[k];
                r.status is NotReached && !is_reported(st, r.case) && selected.contains(r.case)
            },
{
    let d = fold_end(envelope, st, selected);
    let o = open_cases(st, selected);
    lemma_open_cases(st, selected);
    assert forall|i: int| 0 <= i < selected.len() implies has_key(
        st.unknown_statuses,
        #[trigger] selected[i],
    ) || exists|k: int| 0 <= k < d.results.len() && (#[trigger] d.results[k]).case
        == selected[i] by {
        if is_reported(st, selected[i]) {
            if !has_key(st.unknown_statuses, selected[i]) {
                let k = choose|k: int|
                    0 <= k < st.results.len() && (#[trigger] st.results[k]).case == selected[i];
                assert(d.results[k].case == selected[i]);
            }
        } else {
            let k = choose|k: int| 0 <= k < o.len() && (#[trigger] o[k]).case == selected[i];
            assert(d.results[st.results.len() + k].case == selected[i]);
        }
    }
    assert forall|k: int| st.results.len() <= k < d.results.len() implies {
        let r = #[trigger] d.results[k];
        r.status is NotReached && !is_reported(st, r.case) && selected.contains(r.case)
    } by {
        assert(d.results[k] == o[k - st.results.len()]);
    }
}

/// The case results among the first `n` events, in order.
pub open spec fn cases_among(events: Seq<EventView>, n: int) -> Seq<CaseView>
    decreases n,
{
    if n <= 0 {
        Seq::<CaseView>::empty()
    } else {
        match events[n - 1] {
            EventView::Case(r) => cases_among(events, n - 1).push(r),
            EventView::RunError(_) => cases_among(events, n - 1),
        }
    }
}

/// The messages of the run errors among the first `n` events, in order.
pub open spec fn errors_among(events: Seq<EventView>, n: int) -> Seq<Seq<char>>
    decreases n,
{
    if n <= 0 {
        Seq::<Seq<char>>::empty()
    } else {
        match events[n - 1] {
            EventView::RunError(m) => errors_among(events, n - 1).push(m),
            EventView::Case(_) => errors_among(events, n - 1),
        }
    }
}

/// Does the line, with what it is as a record, read as the event?
pub open spec fn reads_as(line: Seq<char>, reading: ReadingView, event: EventView) -> bool {
    &&& reading.segment_end != Some(true)
    &&& match event {
        EventView::RunError(m) => json_member(line, "run-error"@) == Ok::<
            Option<Seq<char>>,
            Seq<char>,
        >(Some(m)),
        EventView::Case(r) => json_member(line, "run-error"@) == Ok::<
            Option<Seq<char>>,
            Seq<char>,
        >(None) && reading.case == Some(r),
    }
}

/// The state of a fold after the first `n` events.
spec fn after_events(events: Seq<EventView>, n: int) -> FoldState {
    FoldState {
        results: cases_among(events, n),
        run_errors: errors_among(events, n),
        unknown_statuses: Seq::empty(),
        terminated: false,
    }
}

proof fn lemma_fold_events(
    events: Seq<EventView>,
    lines: Seq<Seq<char>>,
    readings: Seq<ReadingView>,
    i: int,
)
    requires
        0 <= i <= events.len(),
        lines.len() == events.len() + 1,
        readings.len() == lines.len(),
        forall|k: int|
            0 <= k < events.len() ==> reads_as(#[trigger] lines[k], readings[k], events[k]),
        readings.last().segment_end == Some(true),
    ensures
        fold_from(after_events(events, i), lines, readings, i) == Ok::<FoldState, FoldFault>(
            FoldState { terminated: true, ..after_events(events, events.len() as int) },
        ),
    decreases events.len() - i,
{
    let st = after_events(events, i);
    if i == events.len() {
        let end = FoldState { terminated: true, ..st };
        assert(fold_step(st, lines[i], readings[i]) == Ok::<FoldState, FoldFault>(end));
        assert(fold_from(end, lines, readings, i + 1) == Ok::<FoldState, FoldFault>(end));
    } else {
        assert(reads_as(lines[i], readings[i], events[i]));
        assert(fold_step(st, lines[i], readings[i]) == Ok::<FoldState, FoldFault>(
            after_events(events, i + 1),
        ));
        lemma_fold_events(events, lines, readings, i + 1);
    }
}

/// What a run wrote is what the fold reads: a framed stream of events, case
/// results and run errors in any mix, folds to a terminated document with the
/// same envelope, exactly those results and those messages, each in their
/// order, and nothing else, whatever was selected.
pub proof fn law_written_stream_folds(
    head: Seq<char>,
    lines: Seq<Seq<char>>,
    events: Seq<EventView>,
    envelope: EnvelopeView,
    readings: Seq<ReadingView>,
    selected: Seq<Seq<char>>,
)
    requires
        is_line(head),
        forall|i: int| 0 <= i < lines.len() ==> is_line(#[trigger] lines[i]),
        envelope.version == RESULTS_VERSION@,
        selected.len() > 0,
        lines.len() == events.len(),
        readings.len() == lines.len() + 1,
        forall|i: int|
            0 <= i < lines.len() ==> reads_as(#[trigger] lines[i], readings[i], events[i]),
        readings.last().segment_end == Some(true),
    ensures
        folded(jsonl(head, lines), Ok(envelope), readings, selected) == Ok::<
            DocumentView,
            FoldFault,
        >(
            DocumentView {
                envelope,
                results: cases_among(events, events.len() as int),
                run_errors: errors_among(events, events.len() as int),
                unknown_statuses: Seq::empty(),
                terminated: true,
            },
        ),
{
    law_framing_roundtrip(head, lines);
    let es = content_lines(jsonl(head, lines)).drop_first();
    assert(es =~= lines + seq![TERMINATOR@]);
    assert forall|k: int| 0 <= k < events.len() implies reads_as(
        #[trigger] es[k],
        readings[k],
        events[k],
    ) by {
        assert(es[k] == lines[k]);
    }
    assert(after_events(events, 0) == fold_start());
    lemma_fold_events(events, es, readings, 0);
}

proof fn lemma_not_blank(ls: Seq<Seq<char>>)
    ensures
        not_blank(ls) == ls.filter(|x: Seq<char>| !is_blank(x)),
    decreases ls.len(),
{
    reveal(Seq::filter);
    if ls.len() > 0 {
        lemma_not_blank(ls.drop_last());
    }
}

/// The content of a stream are its lines that are not all white space, in
/// order.
pub proof fn law_content_lines(stream: Seq<char>)
    ensures
        content_lines(stream) == lines(stream).filter(|x: Seq<char>| !is_blank(x)),
{
    lemma_not_blank(lines(stream));
}

/// A line after the envelope, with what it reads as.
pub type Line = (Seq<char>, ReadingView);

/// The run error that a line is, if it is one.
pub open spec fn error_on(x: Line) -> Option<Seq<char>> {
    if x.1.segment_end == Some(true) {
        None
    } else {
        match json_member(x.0, "run-error"@) {
            Ok(Some(m)) => Some(m),
            _ => None,
        }
    }
}

/// The result that a line is, if it is one.
pub open spec fn case_on(x: Line) -> Option<CaseView> {
    if x.1.segment_end != Some(true) && json_member(x.0, "run-error"@) == Ok::<
        Option<Seq<char>>,
        Seq<char>,
    >(None) {
        x.1.case
    } else {
        None
    }
}

/// Is a line neither the end, nor a run error, nor a result that is
/// understood?
pub open spec fn is_unknown(x: Line) -> bool {
    x.1.segment_end != Some(true) && json_member(x.0, "run-error"@) == Ok::<
        Option<Seq<char>>,
        Seq<char>,
    >(None) && x.1.case is None
}

/// The case that a line names, as far as it does.
pub open spec fn named_on(x: Line) -> Seq<char> {
    match json_member(x.0, "case"@) {
        Ok(Some(s)) => s,
        _ => "<unknown>"@,
    }
}

/// The lines after the envelope, each with what it reads as.
pub open spec fn lines_read(stream: Seq<char>, readings: Seq<ReadingView>) -> Seq<Line> {
    Seq::new(
        (content_lines(stream).len() - 1) as nat,
        |i: int| (content_lines(stream)[i + 1], readings[i]),
    )
}

/// May a line stand before others: is it no end, and can it be read?
pub open spec fn goes_on(x: Line) -> bool {
    x.1.segment_end != Some(true) && json_member(x.0, "run-error"@) is Ok
}

/// Is the fold of the lines so far this state?
spec fn folds_to(ls: Seq<Line>, st: FoldState) -> bool {
    &&& st.results == ls.filter_map(|x: Line| case_on(x))
    &&& st.run_errors == ls.filter_map(|x: Line| error_on(x))
    &&& !st.terminated
    &&& forall|name: Seq<char>| #[trigger]
        has_key(st.unknown_statuses, name) <==> exists|i: int|
            0 <= i < ls.len() && is_unknown(#[trigger] ls[i]) && named_on(ls[i]) == name
}

proof fn lemma_fold_steps(
    events: Seq<Seq<char>>,
    readings: Seq<ReadingView>,
    all: Seq<Line>,
    st: FoldState,
    i: int,
)
    requires
        0 <= i <= events.len(),
        events.len() <= readings.len(),
        all == Seq::new(events.len(), |k: int| (events[k], readings[k])),
        forall|k: int| 0 <= k < i ==> goes_on(#[trigger] all[k]),
        folds_to(all.take(i), st),
    ensures
        fold_from(st, events, readings, i) is Ok <==> forall|k: int|
            i <= k < events.len() ==> goes_on(#[trigger] all[k]) || (k == events.len() - 1
                && all[k].1.segment_end == Some(true)),
        fold_from(st, events, readings, i) is Ok ==> {
            let end = fold_from(st, events, readings, i)->Ok_0;
            &&& end.terminated <==> events.len() > i && all[events.len() - 1].1.segment_end == Some(
                true,
            )
            &&& folds_to(all, FoldState { terminated: false, ..end })
        },
    decreases events.len() - i,
{
    let n = events.len() as int;
    if i < n {
        let x = all[i];
        let c = |x: Line| case_on(x);
        let e = |x: Line| error_on(x);
        all.lemma_filter_map_take_succ(c, i);
        all.lemma_filter_map_take_succ(e, i);
        match fold_step(st, events[i], readings[i]) {
            Ok(next) => {
                if next.terminated {
                    if i == n - 1 {
                        assert(all.take(i + 1) =~= all);
                        assert(fold_from(next, events, readings, i + 1) == Ok::<
                            FoldState,
                            FoldFault,
                        >(next));
                        lemma_unknown_keys(all, i, st, FoldState { terminated: false, ..next });
                        assert(next.results =~= all.filter_map(c));
                        assert(next.run_errors =~= all.filter_map(e));
                    } else {
                        assert(fold_step(next, events[i + 1], readings[i + 1]) is Err);
                        assert(!goes_on(all[i]));
                    }
                } else {
                    assert(next.results =~= all.take(i + 1).filter_map(c));
                    assert(next.run_errors =~= all.take(i + 1).filter_map(e));
                    if is_unknown(all[i]) {
                        let word = member_or(json_member(events[i], "status"@), "<unparseable>"@);
                        assert(next.unknown_statuses == put(
                            st.unknown_statuses,
                            named_on(all[i]),
                            word,
                        ));
                    }
                    lemma_unknown_keys(all, i, st, next);
                    lemma_fold_steps(events, readings, all, next, i + 1);
                }
            },
            Err(_) => {
                assert(!goes_on(all[i]));
            },
        }
    } else {
        assert(all.take(i) =~= all);
    }
}

proof fn lemma_unknown_keys(all: Seq<Line>, i: int, st: FoldState, next: FoldState)
    requires
        0 <= i < all.len(),
        forall|name: Seq<char>| #[trigger]
            has_key(st.unknown_statuses, name) <==> exists|k: int|
                0 <= k < i && is_unknown(#[trigger] all.take(i)[k]) && named_on(all.take(i)[k])
                    == name,
        if is_unknown(all[i]) {
            exists|word: Seq<char>|
                next.unknown_statuses == #[trigger] put(st.unknown_statuses, named_on(all[i]), word)
        } else {
            next.unknown_statuses == st.unknown_statuses
        },
    ensures
        forall|name: Seq<char>| #[trigger]
            has_key(next.unknown_statuses, name) <==> exists|k: int|
                0 <= k < all.take(i + 1).len() && is_unknown(#[trigger] all.take(i + 1)[k])
                    && named_on(all.take(i + 1)[k]) == name,
{
    assert forall|name: Seq<char>| #[trigger]
        has_key(next.unknown_statuses, name) <==> exists|k: int|
            0 <= k < all.take(i + 1).len() && is_unknown(#[trigger] all.take(i + 1)[k]) && named_on(
                all.take(i + 1)[k],
            ) == name by {
        if is_unknown(all[i]) {
            let word = choose|word: Seq<char>|
                next.unknown_statuses == #[trigger] put(st.unknown_statuses, named_on(all[i]), word);
            law_lookup_put(st.unknown_statuses, named_on(all[i]), word, name);
        }
        if has_key(st.unknown_statuses, name) {
            let k = choose|k: int|
                0 <= k < i && is_unknown(#[trigger] all.take(i)[k]) && named_on(all.take(i)[k])
                    == name;
            assert(all.take(i + 1)[k] == all.take(i)[k]);
        }
        if is_unknown(all[i]) && named_on(all[i]) == name {
            assert(all.take(i + 1)[i] == all[i]);
        }
        if exists|k: int|
            0 <= k < all.take(i + 1).len() && is_unknown(#[trigger] all.take(i + 1)[k]) && named_on(
                all.take(i + 1)[k],
            ) == name {
            let k = choose|k: int|
                0 <= k < all.take(i + 1).len() && is_unknown(#[trigger] all.take(i + 1)[k])
                    && named_on(all.take(i + 1)[k]) == name;
            if k < i {
                assert(all.take(i)[k] == all.take(i + 1)[k]);
            }
        }
    }
}

proof fn lemma_open_cases_filter(st: FoldState, selected: Seq<Seq<char>>)
    ensures
        open_cases(st, selected) == selected.filter(
            |s: Seq<char>| !is_reported(st, s),
        ).map_values(
            |s: Seq<char>|
                bare_case(s, Status::NotReached, open_detail(last_abnormal(st.results))),
        ),
    decreases selected.len(),
{
    reveal(Seq::filter);
    let p = |s: Seq<char>| !is_reported(st, s);
    let f = |s: Seq<char>|
        bare_case(s, Status::NotReached, open_detail(last_abnormal(st.results)));
    if selected.len() > 0 {
        lemma_open_cases_filter(st, selected.drop_last());
    }
    assert(open_cases(st, selected) =~= selected.filter(p).map_values(f));
}

proof fn lemma_last_abnormal(rs: Seq<CaseView>)
    ensures
        match last_abnormal(rs) {
            Some(c) => exists|k: int|
                0 <= k < rs.len() && ended_badly(#[trigger] rs[k]) && rs[k].case == c && forall|
                    j: int,
                |
                    k < j < rs.len() ==> !ended_badly(#[trigger] rs[j]),
            None => forall|k: int| 0 <= k < rs.len() ==> !ended_badly(#[trigger] rs[k]),
        },
    decreases rs.len(),
{
    if rs.len() > 0 {
        let init = rs.drop_last();
        lemma_last_abnormal(init);
        if is_abnormal(rs.last()) {
            assert(ended_badly(rs[rs.len() - 1]));
        } else {
            match last_abnormal(init) {
                Some(c) => {
                    let k = choose|k: int|
                        0 <= k < init.len() && ended_badly(#[trigger] init[k]) && init[k].case == c
                            && forall|j: int|
                            k < j < init.len() ==> !ended_badly(#[trigger] init[j]);
                    assert(rs[k] == init[k]);
                    assert forall|j: int| k < j < rs.len() implies !ended_badly(#[trigger] rs[j]) by {
                        if j < init.len() {
                            assert(init[j] == rs[j]);
                        }
                    }
                    assert(ended_badly(rs[k]));
                },
                None => {
                    assert forall|k: int| 0 <= k < rs.len() implies !ended_badly(#[trigger] rs[k]) by {
                        if k < init.len() {
                            assert(init[k] == rs[k]);
                        }
                    }
                },
            }
        }
    }
}

/// Did a case fail in a way that can end a stream: by a trap, or over a limit?
pub open spec fn ended_badly(r: CaseView) -> bool {
    r.status is Fail && r.provenance is Some && (r.provenance->0 is Trap
        || r.provenance->0 is LimitExceeded)
}

/// Is this what a case that was not reached says: that the stream ended after
/// the last case that failed by a trap or over a limit, where one did?
pub open spec fn says_why(reported: Seq<CaseView>, detail: Option<Seq<char>>) -> bool {
    match detail {
        Some(text) => exists|k: int|
            0 <= k < reported.len() && ended_badly(#[trigger] reported[k]) && text
                == "segment ended after `"@ + reported[k].case + "`"@ && forall|j: int|
                k < j < reported.len() ==> !ended_badly(#[trigger] reported[j]),
        None => forall|k: int| 0 <= k < reported.len() ==> !ended_badly(#[trigger] reported[k]),
    }
}

/// Is no line about a case, neither as a result nor with a status that was not
/// understood?
pub open spec fn no_line_is_about(ls: Seq<Line>, case: Seq<char>) -> bool {
    &&& forall|i: int|
        0 <= i < ls.len() && is_unknown(#[trigger] ls[i]) ==> named_on(ls[i]) != case
    &&& forall|i: int|
        0 <= i < ls.len() && case_on(#[trigger] ls[i]) is Some ==> case_on(ls[i])->0.case != case
}

/// Is a result one of that case?
spec fn is_among(rs: Seq<CaseView>, case: Seq<char>) -> bool {
    exists|k: int| 0 <= k < rs.len() && (#[trigger] rs[k]).case == case
}

proof fn lemma_kept_results(ls: Seq<Line>, n: int, case: Seq<char>)
    requires
        0 <= n <= ls.len(),
    ensures
        is_among(ls.take(n).filter_map(|x: Line| case_on(x)), case) <==> exists|i: int|
            0 <= i < n && case_on(#[trigger] ls[i]) is Some && case_on(ls[i])->0.case == case,
    decreases n,
{
    let c = |x: Line| case_on(x);
    if n > 0 {
        lemma_kept_results(ls, n - 1, case);
        ls.lemma_filter_map_take_succ(c, n - 1);
        let init = ls.take(n - 1).filter_map(c);
        let all = ls.take(n).filter_map(c);
        assert(forall|k: int| 0 <= k < init.len() ==> all[k] == init[k]);
        if case_on(ls[n - 1]) is Some {
            assert(all[init.len() as int] == case_on(ls[n - 1])->0);
        }
        if exists|k: int| 0 <= k < init.len() && (#[trigger] init[k]).case == case {
            let k = choose|k: int| 0 <= k < init.len() && (#[trigger] init[k]).case == case;
            assert(all[k].case == case);
        }
        if exists|k: int| 0 <= k < all.len() && (#[trigger] all[k]).case == case {
            let k = choose|k: int| 0 <= k < all.len() && (#[trigger] all[k]).case == case;
            if k < init.len() {
                assert(init[k].case == case);
            }
        }
    } else {
        assert(ls.take(0) =~= Seq::empty());
    }
}

proof fn lemma_about(ls: Seq<Line>, st: FoldState, case: Seq<char>)
    requires
        st.results == ls.filter_map(|x: Line| case_on(x)),
        has_key(st.unknown_statuses, case) <==> exists|i: int|
            0 <= i < ls.len() && is_unknown(#[trigger] ls[i]) && named_on(ls[i]) == case,
    ensures
        is_reported(st, case) == !no_line_is_about(ls, case),
{
    lemma_kept_results(ls, ls.len() as int, case);
    assert(ls.take(ls.len() as int) =~= ls);
}

/// A stream folds exactly where it has an envelope of the known version,
/// something is selected, every line can be read, and none stands after the
/// end. Its document has the results and the run errors of the lines, in
/// order, and the cases whose status was not understood; it ended where the
/// last line says so. Where it did not, each selected case that no line is
/// about is not reached.
pub proof fn law_fold_keeps_what_the_lines_say(
    stream: Seq<char>,
    envelope: Result<EnvelopeView, Seq<char>>,
    readings: Seq<ReadingView>,
    selected: Seq<Seq<char>>,
)
    requires
        content_lines(stream).len() <= readings.len() + 1,
    ensures
        folded(stream, envelope, readings, selected) is Ok <==> {
            let ls = lines_read(stream, readings);
            &&& content_lines(stream).len() > 0
            &&& envelope is Ok
            &&& envelope->Ok_0.version == "0.1"@
            &&& selected.len() > 0
            &&& forall|k: int|
                0 <= k < ls.len() ==> goes_on(#[trigger] ls[k]) || (k == ls.len() - 1
                    && ls[k].1.segment_end == Some(true))
        },
        folded(stream, envelope, readings, selected) is Ok ==> {
            let ls = lines_read(stream, readings);
            let d = folded(stream, envelope, readings, selected)->Ok_0;
            let reported = ls.filter_map(|x: Line| case_on(x));
            &&& d.envelope == envelope->Ok_0
            &&& d.terminated <==> ls.len() > 0 && ls[ls.len() - 1].1.segment_end == Some(true)
            &&& d.run_errors == ls.filter_map(|x: Line| error_on(x))
            &&& forall|name: Seq<char>| #[trigger]
                has_key(d.unknown_statuses, name) <==> exists|i: int|
                    0 <= i < ls.len() && is_unknown(#[trigger] ls[i]) && named_on(ls[i]) == name
            &&& d.terminated ==> d.results == reported
            &&& !d.terminated ==> exists|why: Option<Seq<char>>| #[trigger]
                says_why(reported, why) && d.results == reported + selected.filter(
                    |s: Seq<char>| no_line_is_about(ls, s),
                ).map_values(|s: Seq<char>| bare_case(s, Status::NotReached, why))
        },
{
    let cl = content_lines(stream);
    let ls = lines_read(stream, readings);
    if cl.len() > 0 {
        let events = cl.drop_first();
        assert(ls =~= Seq::new(events.len(), |k: int| (events[k], readings[k])));
        let c = |x: Line| case_on(x);
        let e = |x: Line| error_on(x);
        assert(ls.take(0) =~= Seq::<Line>::empty());
        assert(fold_start().results =~= ls.take(0).filter_map(c));
        assert(fold_start().run_errors =~= ls.take(0).filter_map(e));
        lemma_fold_steps(events, readings, ls, fold_start(), 0);
        if folded(stream, envelope, readings, selected) is Ok {
            let st = fold_from(fold_start(), events, readings, 0)->Ok_0;
            let d = folded(stream, envelope, readings, selected)->Ok_0;
            if !d.terminated {
                lemma_open_cases_filter(st, selected);
                lemma_last_abnormal(st.results);
                let why = open_detail(last_abnormal(st.results));
                assert(says_why(st.results, why));
                let p = |s: Seq<char>| !is_reported(st, s);
                let q = |s: Seq<char>| no_line_is_about(ls, s);
                assert forall|s: Seq<char>| #[trigger] p(s) == q(s) by {
                    lemma_about(ls, st, s);
                }
                assert(p =~= q);
                let f = |s: Seq<char>| bare_case(s, Status::NotReached, why);
                assert(open_cases(st, selected) =~= selected.filter(q).map_values(f));
                assert(d.results == st.results + selected.filter(q).map_values(f));
            }
            assert(d.terminated ==> d.results == ls.filter_map(c));
            assert(d.run_errors == ls.filter_map(e));
            let open = FoldState { terminated: false, ..st };
            assert forall|name: Seq<char>| #[trigger]
                has_key(d.unknown_statuses, name) <==> exists|i: int|
                    0 <= i < ls.len() && is_unknown(#[trigger] ls[i]) && named_on(ls[i]) == name by {
                assert(has_key(open.unknown_statuses, name) <==> exists|i: int|
                    0 <= i < ls.len() && is_unknown(#[trigger] ls[i]) && named_on(ls[i]) == name);
            }
        }
    }
}

} // verus!
