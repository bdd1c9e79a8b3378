//! The cross-target matrix in markdown: a row per top-level group of cases,
//! a column per target, then failures and a summary.

use vstd::prelude::*;

use crate::aggregate::{
    assessment_of, corpus_failing, Aggregate, AggregateView, Assessment, AssessmentTable,
    AssessmentView, CaseTable,
};
use crate::lockfile::hangs_from;
use crate::results::{CaseResult, CaseView, Status};
use crate::table::{is_sorted, keys, law_lookup_put, law_put_sorted, lookup, put, Table};
use crate::tags::lemma_keys;
use crate::tally::{tally_of, tally_text};
use crate::text::{
    chars_of, decimal, decimal_text, first_index, lemma_first_index, owned, same, text_lt, text_of,
    views,
};

verus! {

// ---------------------------------------------------------------------
// Meaning
// ---------------------------------------------------------------------

/// The top-level group of a case: its name up to the first slash.
pub open spec fn group_of(case: Seq<char>) -> Seq<char> {
    case.take(first_index(case, '/'))
}

/// The word for a status in a cell. Failures shout.
pub open spec fn status_word(status: Status) -> Seq<char> {
    match status {
        Status::Pass => "pass"@,
        Status::Fail => "FAIL"@,
        Status::Skipped => "skip"@,
        Status::NotReached => "NOT-REACHED"@,
        Status::NotApplicable => "N/A"@,
        Status::Deselected => "deselected"@,
    }
}

/// The word for a result in a cell: a declared known failure has its own.
pub open spec fn cell_word(a: AggregateView, target: Seq<char>, r: CaseView) -> Seq<char> {
    match assessment_of(a, target, r.case) {
        Some(AssessmentView::ExpectedFail(..)) => "xfail"@,
        Some(AssessmentView::UnexpectedPass) => "XPASS"@,
        None => status_word(r.status),
    }
}

/// `set` with the first `n` cases of a table.
pub open spec fn with_cases(
    set: Seq<(Seq<char>, ())>,
    table: CaseTable,
    n: int,
) -> Seq<(Seq<char>, ())>
    decreases n,
{
    if n <= 0 {
        set
    } else {
        put(with_cases(set, table, n - 1), table[n - 1].0, ())
    }
}

/// The cases of the first `n` targets.
pub open spec fn cases_among(results: Seq<(Seq<char>, CaseTable)>, n: int) -> Seq<(Seq<char>, ())>
    decreases n,
{
    if n <= 0 {
        Seq::<(Seq<char>, ())>::empty()
    } else {
        with_cases(cases_among(results, n - 1), results[n - 1].1, results[n - 1].1.len() as int)
    }
}

/// Every case that has a result, in order.
pub open spec fn all_cases(a: AggregateView) -> Seq<Seq<char>> {
    keys(cases_among(a.results, a.results.len() as int))
}

/// The groups of the first `n` cases.
pub open spec fn groups_among(cases: Seq<Seq<char>>, n: int) -> Seq<(Seq<char>, ())>
    decreases n,
{
    if n <= 0 {
        Seq::<(Seq<char>, ())>::empty()
    } else {
        put(groups_among(cases, n - 1), group_of(cases[n - 1]), ())
    }
}

/// The groups, in order.
pub open spec fn all_groups(cases: Seq<Seq<char>>) -> Seq<Seq<char>> {
    keys(groups_among(cases, cases.len() as int))
}

/// The members of a group among the first `n` cases.
pub open spec fn members(cases: Seq<Seq<char>>, group: Seq<char>, n: int) -> Seq<Seq<char>>
    decreases n,
{
    if n <= 0 {
        Seq::<Seq<char>>::empty()
    } else {
        let init = members(cases, group, n - 1);
        if group_of(cases[n - 1]) == group { init.push(cases[n - 1]) } else { init }
    }
}

/// The result of a case on a target, if there is one.
pub open spec fn result_of(a: AggregateView, target: Seq<char>, case: Seq<char>) -> Option<
    CaseView,
> {
    match lookup(a.results, target) {
        Some(table) => lookup(table, case),
        None => None,
    }
}

/// The words for those of the first `n` members that have a result on a
/// target.
pub open spec fn member_words(
    a: AggregateView,
    target: Seq<char>,
    cases: Seq<Seq<char>>,
    n: int,
) -> Seq<Seq<char>>
    decreases n,
{
    if n <= 0 {
        Seq::<Seq<char>>::empty()
    } else {
        let init = member_words(a, target, cases, n - 1);
        match result_of(a, target, cases[n - 1]) {
            Some(r) => init.push(cell_word(a, target, r)),
            None => init,
        }
    }
}

/// Is there one word for all?
pub open spec fn is_uniform(words: Seq<Seq<char>>) -> bool {
    words.len() > 0 && forall|i: int| 0 <= i < words.len() ==> #[trigger] words[i] == words[0]
}

/// The cell for the words: the one word, or counts, or a dash.
pub open spec fn cell_text(words: Seq<Seq<char>>) -> Seq<char> {
    if is_uniform(words) {
        words[0]
    } else if words.len() == 0 {
        "—"@
    } else {
        tally_text(words)
    }
}

/// The words of a group on a target.
pub open spec fn group_words(a: AggregateView, target: Seq<char>, cases: Seq<Seq<char>>) -> Seq<
    Seq<char>,
> {
    member_words(a, target, cases, cases.len() as int)
}

/// The cells of a row for the first `n` targets.
pub open spec fn row_cells(a: AggregateView, cases: Seq<Seq<char>>, n: int) -> Seq<char>
    decreases n,
{
    if n <= 0 {
        Seq::<char>::empty()
    } else {
        row_cells(a, cases, n - 1) + " "@ + cell_text(group_words(a, a.targets[n - 1], cases))
            + " |"@
    }
}

/// Is every cell of the row uniform?
pub open spec fn is_uniform_row(a: AggregateView, cases: Seq<Seq<char>>) -> bool {
    forall|i: int|
        0 <= i < a.targets.len() ==> is_uniform(group_words(a, #[trigger] a.targets[i], cases))
}

/// The label of a row.
pub open spec fn row_label(a: AggregateView, group: Seq<char>, cases: Seq<Seq<char>>) -> Seq<char> {
    if is_uniform_row(a, cases) && cases.len() == 1 {
        cases[0]
    } else {
        group + " ("@ + decimal(cases.len()) + " cases)"@
    }
}

/// The row of a group.
pub open spec fn row_text(a: AggregateView, group: Seq<char>, cases: Seq<Seq<char>>) -> Seq<char> {
    "| "@ + row_label(a, group, cases) + " |"@ + row_cells(a, cases, a.targets.len() as int)
        + "\n"@
}

/// The rows of the first `n` groups.
pub open spec fn rows_text(
    a: AggregateView,
    groups: Seq<Seq<char>>,
    cases: Seq<Seq<char>>,
    n: int,
) -> Seq<char>
    decreases n,
{
    if n <= 0 {
        Seq::<char>::empty()
    } else {
        rows_text(a, groups, cases, n - 1) + row_text(
            a,
            groups[n - 1],
            members(cases, groups[n - 1], cases.len() as int),
        )
    }
}

/// The first `n` items as a list.
pub open spec fn bullets(items: Seq<Seq<char>>, n: int) -> Seq<char>
    decreases n,
{
    if n <= 0 {
        Seq::<char>::empty()
    } else {
        bullets(items, n - 1) + "- "@ + items[n - 1] + "\n"@
    }
}

/// A section with a list, unless the list is empty.
pub open spec fn list_section(title: Seq<char>, items: Seq<Seq<char>>) -> Seq<char> {
    if items.len() == 0 {
        Seq::<char>::empty()
    } else {
        title + bullets(items, items.len() as int) + "\n"@
    }
}

/// The first `n` column titles.
pub open spec fn column_titles(targets: Seq<Seq<char>>, n: int) -> Seq<char>
    decreases n,
{
    if n <= 0 {
        Seq::<char>::empty()
    } else {
        column_titles(targets, n - 1) + " "@ + targets[n - 1] + " |"@
    }
}

/// The rules below `n` column titles.
pub open spec fn column_rules(n: int) -> Seq<char>
    decreases n,
{
    if n <= 0 {
        Seq::<char>::empty()
    } else {
        column_rules(n - 1) + " --- |"@
    }
}

/// The first `n` diagnostics of a failure.
pub open spec fn diagnostics_text(lines: Seq<Seq<char>>, n: int) -> Seq<char>
    decreases n,
{
    if n <= 0 {
        Seq::<char>::empty()
    } else {
        diagnostics_text(lines, n - 1) + "  - diag: "@ + lines[n - 1] + "\n"@
    }
}

/// The text of an optional detail.
pub open spec fn detail_text(detail: Option<Seq<char>>) -> Seq<char> {
    match detail {
        Some(d) => d,
        None => "(no detail)"@,
    }
}

/// What the matrix says of one failure.
pub open spec fn failure_entry(target: Seq<char>, r: CaseView) -> Seq<char> {
    let head = "- `"@ + target + "` `"@ + r.case + "` "@ + status_word(r.status) + ": "@
        + detail_text(r.detail) + "\n"@ + diagnostics_text(
        r.diagnostics,
        r.diagnostics.len() as int,
    );
    if r.diagnostics_complete { head } else { head + "  - (diagnostics truncated)\n"@ }
}

/// The failures among the first `n` results of a target.
pub open spec fn target_failures(
    a: AggregateView,
    target: Seq<char>,
    table: CaseTable,
    n: int,
) -> Seq<char>
    decreases n,
{
    if n <= 0 {
        Seq::<char>::empty()
    } else {
        let init = target_failures(a, target, table, n - 1);
        if corpus_failing(a, target, table[n - 1].1) {
            init + failure_entry(target, table[n - 1].1)
        } else {
            init
        }
    }
}

/// The failures of the first `n` targets.
pub open spec fn failures_text(a: AggregateView, n: int) -> Seq<char>
    decreases n,
{
    if n <= 0 {
        Seq::<char>::empty()
    } else {
        let init = failures_text(a, n - 1);
        match lookup(a.results, a.targets[n - 1]) {
            Some(table) => init + target_failures(
                a,
                a.targets[n - 1],
                table,
                table.len() as int,
            ),
            None => init,
        }
    }
}

/// What the matrix says of one known failure that failed as declared.
pub open spec fn expected_entry(
    target: Seq<char>,
    case: Seq<char>,
    reason: Seq<char>,
    tracking: Seq<char>,
) -> Seq<char> {
    "- `"@ + target + "` `"@ + case + "` xfail: "@ + reason + " ("@ + tracking + ")\n"@
}

/// The expected failures among the first `n` assessments of a target.
pub open spec fn target_expected(
    target: Seq<char>,
    table: crate::aggregate::AssessmentTable,
    n: int,
) -> Seq<char>
    decreases n,
{
    if n <= 0 {
        Seq::<char>::empty()
    } else {
        let init = target_expected(target, table, n - 1);
        match table[n - 1].1 {
            AssessmentView::ExpectedFail(reason, tracking) => init + expected_entry(
                target,
                table[n - 1].0,
                reason,
                tracking,
            ),
            AssessmentView::UnexpectedPass => init,
        }
    }
}

/// The expected failures of the first `n` targets that have assessments.
pub open spec fn expected_text(a: AggregateView, n: int) -> Seq<char>
    decreases n,
{
    if n <= 0 {
        Seq::<char>::empty()
    } else {
        let (target, table) = a.assessments[n - 1];
        expected_text(a, n - 1) + target_expected(target, table, table.len() as int)
    }
}

/// The section about expected failures, unless there are none.
pub open spec fn expected_section(a: AggregateView) -> Seq<char> {
    let list = expected_text(a, a.assessments.len() as int);
    if list.len() == 0 {
        Seq::<char>::empty()
    } else {
        "## Expected failures\n\n"@ + list + "\n"@
    }
}

/// The words of the first `n` results of a target.
pub open spec fn table_words(
    a: AggregateView,
    target: Seq<char>,
    table: CaseTable,
    n: int,
) -> Seq<Seq<char>>
    decreases n,
{
    if n <= 0 {
        Seq::<Seq<char>>::empty()
    } else {
        table_words(a, target, table, n - 1).push(cell_word(a, target, table[n - 1].1))
    }
}

/// The summary line of a target.
pub open spec fn summary_line(a: AggregateView, target: Seq<char>) -> Seq<char> {
    match lookup(a.results, target) {
        Some(table) => "- `"@ + target + "`: "@ + tally_text(
            table_words(a, target, table, table.len() as int),
        ) + " ("@ + decimal(table.len()) + " total)\n"@,
        None => "- `"@ + target + "`: no results\n"@,
    }
}

/// The summary lines of the first `n` targets.
pub open spec fn summary_text(a: AggregateView, n: int) -> Seq<char>
    decreases n,
{
    if n <= 0 {
        Seq::<char>::empty()
    } else {
        summary_text(a, n - 1) + summary_line(a, a.targets[n - 1])
    }
}

/// The head of the matrix: title, errors, warnings, column titles.
pub open spec fn matrix_head(a: AggregateView) -> Seq<char> {
    "# Test matrix\n\n"@ + list_section("## Validation errors\n\n"@, a.errors) + list_section(
        "## Warnings\n\n"@,
        a.warnings,
    ) + "| Case |"@ + column_titles(a.targets, a.targets.len() as int) + "\n| --- |"@
        + column_rules(a.targets.len() as int) + "\n"@
}

/// The rows of the matrix.
pub open spec fn matrix_rows(a: AggregateView) -> Seq<char> {
    let cases = all_cases(a);
    let groups = all_groups(cases);
    rows_text(a, groups, cases, groups.len() as int) + "\n"@
}

/// The failures below the matrix.
pub open spec fn matrix_failures(a: AggregateView) -> Seq<char> {
    let list = failures_text(a, a.targets.len() as int);
    "## Failures\n\n"@ + (if list.len() == 0 { "None.\n"@ } else { list }) + "\n"@
}

/// The whole matrix.
pub open spec fn matrix(a: AggregateView) -> Seq<char> {
    matrix_head(a) + matrix_rows(a) + matrix_failures(a) + expected_section(a) + "## Summary\n\n"@
        + summary_text(a, a.targets.len() as int)
}

// ---------------------------------------------------------------------
// Code
// ---------------------------------------------------------------------

/// The top-level group of a case.
fn top_group(case: &str) -> (r: String)
    ensures
        r@ == group_of(case@),
{
    let chars = chars_of(case);
    proof {
        lemma_first_index(case@, '/');
    }
    let mut i: usize = 0;
    assert(chars@.skip(0) =~= chars@);
    while i < chars.len() && chars[i] != '/'
        invariant
            i <= chars@.len(),
            first_index(chars@, '/') == i + first_index(chars@.skip(i as int), '/'),
        decreases chars.len() - i,
    {
        assert(chars@.skip(i as int)[0] == chars@[i as int]);
        assert(chars@.skip(i as int).drop_first() =~= chars@.skip(i + 1));
        i += 1;
    }
    if i < chars.len() {
        assert(chars@.skip(i as int)[0] == chars@[i as int]);
    }
    let r = text_of(&chars, 0, i);
    assert(r@ =~= group_of(case@));
    r
}

/// The word for a status in a cell.
fn word(status: Status) -> (r: &'static str)
    ensures
        r@ == status_word(status),
{
    match status {
        Status::Pass => "pass",
        Status::Fail => "FAIL",
        Status::Skipped => "skip",
        Status::NotReached => "NOT-REACHED",
        Status::NotApplicable => "N/A",
        Status::Deselected => "deselected",
    }
}

fn cell_word_of(agg: &Aggregate, target: &str, r: &CaseResult) -> (w: &'static str)
    ensures
        w@ == cell_word(agg@, target@, r@),
{
    let found = match agg.assessments.get(target) {
        Some(m) => m.get(r.case.as_str()),
        None => None,
    };
    match found {
        Some(Assessment::ExpectedFail { .. }) => "xfail",
        Some(Assessment::UnexpectedPass) => "XPASS",
        None => word(r.status),
    }
}

fn push_word(list: &mut Vec<String>, w: &str)
    ensures
        views(final(list)@) == views(old(list)@).push(w@),
{
    let ghost was = views(list@);
    list.push(owned(w));
    assert(views(list@) =~= was.push(w@));
}

fn collect_cases(agg: &Aggregate) -> (r: Vec<String>)
    ensures
        views(r@) == all_cases(agg@),
{
    let ghost a = agg@;
    let mut set: Table<()> = Table::new();
    let n = agg.results.len();
    let mut i: usize = 0;
    while i < n
        invariant
            i <= n,
            n == a.results.len(),
            a == agg@,
            set@ == cases_among(a.results, i as int),
        decreases n - i,
    {
        let table = agg.results.value_at(i);
        let m = table.len();
        let ghost start = set@;
        let mut k: usize = 0;
        while k < m
            invariant
                k <= m,
                m == table@.len(),
                set@ == with_cases(start, table@, k as int),
            decreases m - k,
        {
            set.insert(owned(table.key_at(k)), ());
            k += 1;
        }
        i += 1;
    }
    set.to_keys()
}

fn collect_groups(cases: &[String]) -> (r: Vec<String>)
    ensures
        views(r@) == all_groups(views(cases@)),
{
    let ghost cs = views(cases@);
    let mut set: Table<()> = Table::new();
    let mut i: usize = 0;
    while i < cases.len()
        invariant
            i <= cases@.len(),
            cs == views(cases@),
            set@ == groups_among(cs, i as int),
        decreases cases.len() - i,
    {
        assert(cs[i as int] == cases@[i as int]@);
        set.insert(top_group(cases[i].as_str()), ());
        i += 1;
    }
    set.to_keys()
}

fn members_of(cases: &[String], group: &str) -> (r: Vec<String>)
    ensures
        views(r@) == members(views(cases@), group@, cases@.len() as int),
{
    let ghost cs = views(cases@);
    let mut r: Vec<String> = Vec::new();
    let mut i: usize = 0;
    assert(views(r@) =~= members(cs, group@, 0));
    while i < cases.len()
        invariant
            i <= cases@.len(),
            cs == views(cases@),
            views(r@) == members(cs, group@, i as int),
        decreases cases.len() - i,
    {
        assert(cs[i as int] == cases@[i as int]@);
        if same(top_group(cases[i].as_str()).as_str(), group) {
            push_word(&mut r, cases[i].as_str());
        }
        i += 1;
    }
    r
}

fn words_of(agg: &Aggregate, target: &str, cases: &[String]) -> (r: Vec<String>)
    ensures
        views(r@) == group_words(agg@, target@, views(cases@)),
{
    let ghost a = agg@;
    let ghost cs = views(cases@);
    let mut r: Vec<String> = Vec::new();
    let mut i: usize = 0;
    assert(views(r@) =~= member_words(a, target@, cs, 0));
    while i < cases.len()
        invariant
            i <= cases@.len(),
            a == agg@,
            cs == views(cases@),
            views(r@) == member_words(a, target@, cs, i as int),
        decreases cases.len() - i,
    {
        assert(cs[i as int] == cases@[i as int]@);
        let found = match agg.results.get(target) {
            Some(table) => table.get(cases[i].as_str()),
            None => None,
        };
        match found {
            Some(result) => push_word(&mut r, cell_word_of(agg, target, result)),
            None => {},
        }
        i += 1;
    }
    r
}

fn uniform(words: &[String]) -> (r: bool)
    ensures
        r == is_uniform(views(words@)),
{
    let ghost ws = views(words@);
    if words.len() == 0 {
        return false;
    }
    let mut i: usize = 0;
    while i < words.len()
        invariant
            i <= words@.len(),
            words@.len() > 0,
            ws == views(words@),
            forall|k: int| 0 <= k < i ==> #[trigger] ws[k] == ws[0],
        decreases words.len() - i,
    {
        assert(ws[i as int] == words@[i as int]@ && ws[0] == words@[0]@);
        if !same(words[i].as_str(), words[0].as_str()) {
            return false;
        }
        i += 1;
    }
    true
}

fn cell_of(words: &[String]) -> (r: String)
    ensures
        r@ == cell_text(views(words@)),
{
    assert(views(words@).len() == words@.len());
    if uniform(words) {
        assert(views(words@)[0] == words@[0]@);
        words[0].clone()
    } else if words.len() == 0 {
        owned("—")
    } else {
        tally_of(words)
    }
}

fn push_row(md: &mut String, agg: &Aggregate, group: &str, cases: &[String])
    ensures
        final(md)@ == old(md)@ + row_text(agg@, group@, views(cases@)),
{
    let ghost a = agg@;
    let ghost cs = views(cases@);
    let mut cells = String::new();
    let mut all = true;
    let mut i: usize = 0;
    assert(cells@ =~= row_cells(a, cs, 0));
    while i < agg.targets.len()
        invariant
            i <= agg.targets@.len(),
            a == agg@,
            cs == views(cases@),
            cells@ == row_cells(a, cs, i as int),
            all == forall|k: int|
                0 <= k < i ==> is_uniform(group_words(a, #[trigger] a.targets[k], cs)),
        decreases agg.targets.len() - i,
    {
        assert(a.targets[i as int] == agg.targets@[i as int]@);
        let words = words_of(agg, agg.targets[i].as_str(), cases);
        if !uniform(&words) {
            all = false;
        }
        cells.append(" ");
        cells.append(cell_of(&words).as_str());
        cells.append(" |");
        i += 1;
    }
    let ghost start = md@;
    md.append("| ");
    if all && cases.len() == 1 {
        assert(cs[0] == cases@[0]@);
        md.append(cases[0].as_str());
    } else {
        md.append(group);
        md.append(" (");
        md.append(decimal_text(cases.len() as u128).as_str());
        md.append(" cases)");
    }
    md.append(" |");
    md.append(cells.as_str());
    md.append("\n");
    assert(cs.len() == cases@.len());
    assert(md@ =~= start + row_text(a, group@, cs));
}

fn push_list(md: &mut String, title: &str, items: &[String])
    ensures
        final(md)@ == old(md)@ + list_section(title@, views(items@)),
{
    let ghost vs = views(items@);
    let ghost start = md@;
    assert(vs.len() == items@.len());
    if items.len() == 0 {
        assert(md@ =~= start + list_section(title@, vs));
        return;
    }
    md.append(title);
    let mut i: usize = 0;
    assert(md@ =~= start + (title@ + bullets(vs, 0)));
    while i < items.len()
        invariant
            i <= items@.len(),
            vs == views(items@),
            md@ == start + (title@ + bullets(vs, i as int)),
        decreases items.len() - i,
    {
        assert(vs[i as int] == items@[i as int]@);
        md.append("- ");
        md.append(items[i].as_str());
        md.append("\n");
        assert(md@ =~= start + (title@ + bullets(vs, i + 1)));
        i += 1;
    }
    md.append("\n");
    assert(md@ =~= start + list_section(title@, vs));
}

fn render_head(agg: &Aggregate) -> (md: String)
    ensures
        md@ == matrix_head(agg@),
{
    let ghost a = agg@;
    let mut md = owned("# Test matrix\n\n");
    push_list(&mut md, "## Validation errors\n\n", &agg.errors);
    push_list(&mut md, "## Warnings\n\n", &agg.warnings);
    md.append("| Case |");
    let ghost start = md@;
    let mut i: usize = 0;
    assert(md@ =~= start + column_titles(a.targets, 0));
    while i < agg.targets.len()
        invariant
            i <= agg.targets@.len(),
            a == agg@,
            md@ == start + column_titles(a.targets, i as int),
        decreases agg.targets.len() - i,
    {
        assert(a.targets[i as int] == agg.targets@[i as int]@);
        md.append(" ");
        md.append(agg.targets[i].as_str());
        md.append(" |");
        assert(md@ =~= start + column_titles(a.targets, i + 1));
        i += 1;
    }
    md.append("\n| --- |");
    let ghost rule = md@;
    let mut k: usize = 0;
    assert(md@ =~= rule + column_rules(0));
    while k < agg.targets.len()
        invariant
            k <= agg.targets@.len(),
            md@ == rule + column_rules(k as int),
        decreases agg.targets.len() - k,
    {
        md.append(" --- |");
        assert(md@ =~= rule + column_rules(k + 1));
        k += 1;
    }
    md.append("\n");
    assert(a.targets.len() == agg.targets@.len());
    md
}

fn push_rows(md: &mut String, agg: &Aggregate)
    ensures
        final(md)@ == old(md)@ + matrix_rows(agg@),
{
    let ghost a = agg@;
    let ghost start = md@;
    let cases = collect_cases(agg);
    let groups = collect_groups(&cases);
    let ghost cs = views(cases@);
    let ghost gs = views(groups@);
    let mut i: usize = 0;
    assert(md@ =~= start + rows_text(a, gs, cs, 0));
    while i < groups.len()
        invariant
            i <= groups@.len(),
            a == agg@,
            cs == views(cases@),
            gs == views(groups@),
            md@ == start + rows_text(a, gs, cs, i as int),
        decreases groups.len() - i,
    {
        assert(gs[i as int] == groups@[i as int]@);
        let group = groups[i].as_str();
        let ghost was = md@;
        push_row(md, agg, group, &members_of(&cases, group));
        assert(cs.len() == cases@.len());
        assert(md@ =~= start + rows_text(a, gs, cs, i + 1));
        i += 1;
    }
    md.append("\n");
    assert(gs.len() == groups@.len());
    assert(md@ =~= start + matrix_rows(a));
}

fn push_failure(md: &mut String, target: &str, r: &CaseResult)
    ensures
        final(md)@ == old(md)@ + failure_entry(target@, r@),
{
    let ghost start = md@;
    let ghost rv = r@;
    let mut entry = owned("- `");
    entry.append(target);
    entry.append("` `");
    entry.append(r.case.as_str());
    entry.append("` ");
    entry.append(word(r.status));
    entry.append(": ");
    match &r.detail {
        Some(d) => entry.append(d.as_str()),
        None => entry.append("(no detail)"),
    }
    entry.append("\n");
    let ghost head = entry@;
    let mut i: usize = 0;
    assert(entry@ =~= head + diagnostics_text(rv.diagnostics, 0));
    while i < r.diagnostics.len()
        invariant
            i <= r.diagnostics@.len(),
            rv == r@,
            entry@ == head + diagnostics_text(rv.diagnostics, i as int),
        decreases r.diagnostics.len() - i,
    {
        assert(rv.diagnostics[i as int] == r.diagnostics@[i as int]@);
        entry.append("  - diag: ");
        entry.append(r.diagnostics[i].as_str());
        entry.append("\n");
        assert(entry@ =~= head + diagnostics_text(rv.diagnostics, i + 1));
        i += 1;
    }
    if !r.diagnostics_complete {
        entry.append("  - (diagnostics truncated)\n");
    }
    assert(rv.diagnostics.len() == r.diagnostics@.len());
    md.append(entry.as_str());
}

fn collect_failures(agg: &Aggregate) -> (r: String)
    ensures
        r@ == failures_text(agg@, agg@.targets.len() as int),
{
    let ghost a = agg@;
    let mut r = String::new();
    let mut i: usize = 0;
    assert(r@ =~= failures_text(a, 0));
    while i < agg.targets.len()
        invariant
            i <= agg.targets@.len(),
            a == agg@,
            r@ == failures_text(a, i as int),
        decreases agg.targets.len() - i,
    {
        let target = agg.targets[i].as_str();
        assert(a.targets[i as int] == target@);
        match agg.results.get(target) {
            Some(table) => {
                let ghost start = r@;
                let n = table.len();
                let mut k: usize = 0;
                assert(r@ =~= start + target_failures(a, target@, table@, 0));
                while k < n
                    invariant
                        k <= n,
                        n == table@.len(),
                        a == agg@,
                        r@ == start + target_failures(a, target@, table@, k as int),
                    decreases n - k,
                {
                    let result = table.value_at(k);
                    if agg.result_failing(target, result) {
                        push_failure(&mut r, target, result);
                        assert(r@ =~= start + target_failures(a, target@, table@, k + 1));
                    }
                    k += 1;
                }
            },
            None => {},
        }
        i += 1;
    }
    assert(a.targets.len() == agg.targets@.len());
    r
}

fn collect_expected(agg: &Aggregate) -> (r: String)
    ensures
        r@ == expected_text(agg@, agg@.assessments.len() as int),
{
    let ghost a = agg@;
    let mut r = String::new();
    let n = agg.assessments.len();
    let mut i: usize = 0;
    assert(r@ =~= expected_text(a, 0));
    while i < n
        invariant
            i <= n,
            n == a.assessments.len(),
            a == agg@,
            r@ == expected_text(a, i as int),
        decreases n - i,
    {
        let target = agg.assessments.key_at(i);
        let table = agg.assessments.value_at(i);
        let m = table.len();
        let ghost start = r@;
        let mut k: usize = 0;
        assert(r@ =~= start + target_expected(target@, table@, 0));
        while k < m
            invariant
                k <= m,
                m == table@.len(),
                r@ == start + target_expected(target@, table@, k as int),
            decreases m - k,
        {
            let case = table.key_at(k);
            match table.value_at(k) {
                Assessment::ExpectedFail { reason, tracking } => {
                    let ghost was = r@;
                    r.append("- `");
                    r.append(target);
                    r.append("` `");
                    r.append(case);
                    r.append("` xfail: ");
                    r.append(reason.as_str());
                    r.append(" (");
                    r.append(tracking.as_str());
                    r.append(")\n");
                    assert(r@ =~= was + expected_entry(target@, case@, reason@, tracking@));
                    assert(r@ =~= start + target_expected(target@, table@, k + 1));
                },
                Assessment::UnexpectedPass => {},
            }
            k += 1;
        }
        i += 1;
    }
    r
}

fn push_summary(md: &mut String, agg: &Aggregate, target: &str)
    ensures
        final(md)@ == old(md)@ + summary_line(agg@, target@),
{
    let ghost a = agg@;
    let ghost start = md@;
    md.append("- `");
    md.append(target);
    match agg.results.get(target) {
        None => {
            md.append("`: no results\n");
        },
        Some(table) => {
            md.append("`: ");
            let n = table.len();
            let mut words: Vec<String> = Vec::new();
            let mut k: usize = 0;
            assert(views(words@) =~= table_words(a, target@, table@, 0));
            while k < n
                invariant
                    k <= n,
                    n == table@.len(),
                    a == agg@,
                    views(words@) == table_words(a, target@, table@, k as int),
                decreases n - k,
            {
                push_word(&mut words, cell_word_of(agg, target, table.value_at(k)));
                k += 1;
            }
            md.append(tally_of(&words).as_str());
            md.append(" (");
            md.append(decimal_text(n as u128).as_str());
            md.append(" total)\n");
        },
    }
    assert(md@ =~= start + summary_line(a, target@));
}

/// Render the cross-target matrix as markdown.
pub fn render(agg: &Aggregate) -> (md: String)
    ensures
        md@ == matrix(agg@),
{
    let ghost a = agg@;
    let mut md = render_head(agg);
    push_rows(&mut md, agg);
    let failures = collect_failures(agg);
    let ghost head = md@;
    md.append("## Failures\n\n");
    if failures.as_str().is_empty() {
        md.append("None.\n");
    } else {
        md.append(failures.as_str());
    }
    md.append("\n");
    assert(md@ =~= head + matrix_failures(a));
    let expected = collect_expected(agg);
    let ghost mid = md@;
    if !expected.as_str().is_empty() {
        md.append("## Expected failures\n\n");
        md.append(expected.as_str());
        md.append("\n");
    }
    assert(md@ =~= mid + expected_section(a));
    md.append("## Summary\n\n");
    let ghost start = md@;
    let mut i: usize = 0;
    assert(md@ =~= start + summary_text(a, 0));
    while i < agg.targets.len()
        invariant
            i <= agg.targets@.len(),
            a == agg@,
            md@ == start + summary_text(a, i as int),
        decreases agg.targets.len() - i,
    {
        assert(a.targets[i as int] == agg.targets@[i as int]@);
        push_summary(&mut md, agg, agg.targets[i].as_str());
        assert(md@ =~= start + summary_text(a, i + 1));
        i += 1;
    }
    assert(a.targets.len() == agg.targets@.len());
    md
}

// ---------------------------------------------------------------------
// Laws
// ---------------------------------------------------------------------

/// Is a result a failure to list: failed or not reached, and not assessed as
/// failing as declared?
pub open spec fn is_failure(a: AggregateView, target: Seq<char>, r: CaseView) -> bool {
    (r.status is Fail || r.status is NotReached) && match lookup(a.assessments, target) {
        Some(m) => !(lookup(m, r.case) is Some && lookup(m, r.case)->0 is ExpectedFail),
        None => true,
    }
}

/// The failures of a target, in the order of its cases.
pub open spec fn failures_of(a: AggregateView, target: Seq<char>) -> Seq<(Seq<char>, CaseView)> {
    match lookup(a.results, target) {
        Some(table) => table.filter(
            |e: (Seq<char>, CaseView)| is_failure(a, target, e.1),
        ).map_values(|e: (Seq<char>, CaseView)| (target, e.1)),
        None => Seq::empty(),
    }
}

/// The failures of all targets, in the order of the targets.
pub open spec fn all_failures(a: AggregateView) -> Seq<(Seq<char>, CaseView)> {
    a.targets.map_values(|t: Seq<char>| failures_of(a, t)).flatten_alt()
}

/// What is written of a failure: its target, its case, whether it failed or
/// was not reached, its detail, and all of its diagnostics.
pub open spec fn written_failure(target: Seq<char>, r: CaseView) -> Seq<char> {
    "- `"@ + target + "` `"@ + r.case + "` "@ + (if r.status is Fail {
        "FAIL"@
    } else {
        "NOT-REACHED"@
    }) + ": "@ + (match r.detail {
        Some(d) => d,
        None => "(no detail)"@,
    }) + "\n"@ + r.diagnostics.map_values(
        |x: Seq<char>| "  - diag: "@ + x + "\n"@,
    ).flatten_alt() + (if r.diagnostics_complete {
        Seq::empty()
    } else {
        "  - (diagnostics truncated)\n"@
    })
}

proof fn lemma_diagnostics(ds: Seq<Seq<char>>, n: int)
    requires
        0 <= n <= ds.len(),
    ensures
        diagnostics_text(ds, n) == ds.take(n).map_values(
            |x: Seq<char>| "  - diag: "@ + x + "\n"@,
        ).flatten_alt(),
    decreases n,
{
    let f = |x: Seq<char>| "  - diag: "@ + x + "\n"@;
    if n > 0 {
        lemma_diagnostics(ds, n - 1);
        assert(ds.take(n).map_values(f).drop_last() =~= ds.take(n - 1).map_values(f));
        assert(ds.take(n).map_values(f).last() == f(ds[n - 1]));
        assert(diagnostics_text(ds, n) =~= diagnostics_text(ds, n - 1) + f(ds[n - 1]));
    } else {
        assert(ds.take(0).map_values(f) =~= Seq::empty());
    }
}

proof fn lemma_written(target: Seq<char>, r: CaseView)
    requires
        r.status is Fail || r.status is NotReached,
    ensures
        failure_entry(target, r) == written_failure(target, r),
        written_failure(target, r).len() > 0,
{
    lemma_diagnostics(r.diagnostics, r.diagnostics.len() as int);
    assert(r.diagnostics.take(r.diagnostics.len() as int) =~= r.diagnostics);
    assert(failure_entry(target, r) =~= written_failure(target, r));
    reveal_strlit("- `");
    assert("- `"@.len() == 3);
}

proof fn lemma_flatten_sum<A>(a: Seq<Seq<A>>, b: Seq<Seq<A>>)
    ensures
        (a + b).flatten_alt() == a.flatten_alt() + b.flatten_alt(),
    decreases b.len(),
{
    if b.len() > 0 {
        lemma_flatten_sum(a, b.drop_last());
        assert((a + b).drop_last() =~= a + b.drop_last());
        assert((a + b).flatten_alt() =~= a.flatten_alt() + b.flatten_alt());
    } else {
        assert(a + b =~= a);
        assert(a.flatten_alt() + b.flatten_alt() =~= a.flatten_alt());
    }
}

proof fn lemma_target_failures(a: AggregateView, target: Seq<char>, table: CaseTable, n: int)
    requires
        0 <= n <= table.len(),
    ensures
        target_failures(a, target, table, n) == table.take(n).filter(
            |e: (Seq<char>, CaseView)| is_failure(a, target, e.1),
        ).map_values(|e: (Seq<char>, CaseView)| (target, e.1)).map_values(
            |x: (Seq<char>, CaseView)| written_failure(x.0, x.1),
        ).flatten_alt(),
    decreases n,
{
    reveal(Seq::filter);
    let p = |e: (Seq<char>, CaseView)| is_failure(a, target, e.1);
    let g = |e: (Seq<char>, CaseView)| (target, e.1);
    let w = |x: (Seq<char>, CaseView)| written_failure(x.0, x.1);
    let all = table.take(n).filter(p).map_values(g).map_values(w);
    if n > 0 {
        lemma_target_failures(a, target, table, n - 1);
        assert(table.take(n).drop_last() =~= table.take(n - 1));
        let init = table.take(n - 1).filter(p).map_values(g).map_values(w);
        let r = table[n - 1].1;
        assert(corpus_failing(a, target, r) == is_failure(a, target, r));
        if is_failure(a, target, r) {
            lemma_written(target, r);
            assert(all.drop_last() =~= init);
            assert(all.last() == written_failure(target, r));
        } else {
            assert(all =~= init);
        }
    } else {
        assert(all =~= Seq::empty());
    }
}

proof fn lemma_failures_text(a: AggregateView, n: int)
    requires
        0 <= n <= a.targets.len(),
    ensures
        failures_text(a, n) == a.targets.take(n).map_values(
            |t: Seq<char>| failures_of(a, t),
        ).flatten_alt().map_values(
            |x: (Seq<char>, CaseView)| written_failure(x.0, x.1),
        ).flatten_alt(),
    decreases n,
{
    let f = |t: Seq<char>| failures_of(a, t);
    let w = |x: (Seq<char>, CaseView)| written_failure(x.0, x.1);
    let lists = a.targets.take(n).map_values(f);
    if n > 0 {
        lemma_failures_text(a, n - 1);
        let before = a.targets.take(n - 1).map_values(f);
        let t = a.targets[n - 1];
        assert(lists.drop_last() =~= before);
        assert(lists.last() == failures_of(a, t));
        let mine = failures_of(a, t);
        assert(lists.flatten_alt().map_values(w) =~= before.flatten_alt().map_values(w)
            + mine.map_values(w));
        lemma_flatten_sum(before.flatten_alt().map_values(w), mine.map_values(w));
        match lookup(a.results, t) {
            Some(table) => {
                lemma_target_failures(a, t, table, table.len() as int);
                assert(table.take(table.len() as int) =~= table);
            },
            None => {
                assert(mine.map_values(w) =~= Seq::empty());
                assert(failures_text(a, n) =~= failures_text(a, n - 1) + Seq::empty());
            },
        }
    } else {
        assert(lists =~= Seq::empty());
        assert(lists.flatten_alt().map_values(w) =~= Seq::empty());
    }
}

/// The matrix lists the failures of the corpus: each that a declared target
/// has, in the order of targets and cases, and nothing else.
pub proof fn law_matrix_lists_the_failures(a: AggregateView)
    ensures
        matrix_failures(a) == "## Failures\n\n"@ + (if all_failures(a).len() == 0 {
            "None.\n"@
        } else {
            all_failures(a).map_values(
                |x: (Seq<char>, CaseView)| written_failure(x.0, x.1),
            ).flatten_alt()
        }) + "\n"@,
{
    let n = a.targets.len() as int;
    lemma_failures_text(a, n);
    assert(a.targets.take(n) =~= a.targets);
    let w = |x: (Seq<char>, CaseView)| written_failure(x.0, x.1);
    let all = all_failures(a);
    if all.len() == 0 {
        assert(all.map_values(w) =~= Seq::empty());
    } else {
        let x = all.last();
        assert(x == all[all.len() - 1]);
        lemma_failures_fail(a, n, all.len() - 1);
        lemma_written(x.0, x.1);
        assert(all.map_values(w).last() == w(x));
    }
}

proof fn lemma_failures_fail(a: AggregateView, n: int, i: int)
    requires
        0 <= n <= a.targets.len(),
        0 <= i < a.targets.take(n).map_values(
            |t: Seq<char>| failures_of(a, t),
        ).flatten_alt().len(),
    ensures
        ({
            let x = a.targets.take(n).map_values(
                |t: Seq<char>| failures_of(a, t),
            ).flatten_alt()[i];
            is_failure(a, x.0, x.1)
        }),
    decreases n,
{
    let f = |t: Seq<char>| failures_of(a, t);
    let lists = a.targets.take(n).map_values(f);
    if n > 0 {
        let before = a.targets.take(n - 1).map_values(f);
        let t = a.targets[n - 1];
        assert(lists.drop_last() =~= before);
        assert(lists.last() == failures_of(a, t));
        let k = before.flatten_alt().len();
        if i < k {
            lemma_failures_fail(a, n - 1, i);
        } else {
            let table = lookup(a.results, t)->0;
            let p = |e: (Seq<char>, CaseView)| is_failure(a, t, e.1);
            assert(failures_of(a, t).len() > 0);
            table.lemma_filter_pred(p, i - k);
        }
    } else {
        assert(lists =~= Seq::empty());
    }
}

proof fn lemma_flatten_has<A>(s: Seq<Seq<A>>, i: int)
    requires
        0 <= i < s.len(),
    ensures
        exists|before: Seq<A>, after: Seq<A>|
            s.flatten_alt() == #[trigger] (before + s[i] + after),
    decreases s.len(),
{
    if i == s.len() - 1 {
        assert(s.flatten_alt() =~= s.drop_last().flatten_alt() + s[i] + Seq::<A>::empty());
    } else {
        lemma_flatten_has(s.drop_last(), i);
        let init = s.drop_last();
        let (before, after) = choose|before: Seq<A>, after: Seq<A>|
            init.flatten_alt() == #[trigger] (before + init[i] + after);
        assert(s.flatten_alt() =~= before + s[i] + (after + s.last()));
    }
}

proof fn lemma_is_among_failures(a: AggregateView, i: int, k: int) -> (at: int)
    requires
        0 <= i < a.targets.len(),
        lookup(a.results, a.targets[i]) is Some,
        0 <= k < lookup(a.results, a.targets[i])->0.len(),
        is_failure(a, a.targets[i], lookup(a.results, a.targets[i])->0[k].1),
    ensures
        0 <= at < all_failures(a).len(),
        all_failures(a)[at] == (a.targets[i], lookup(a.results, a.targets[i])->0[k].1),
{
    let t = a.targets[i];
    let table = lookup(a.results, t)->0;
    let p = |e: (Seq<char>, CaseView)| is_failure(a, t, e.1);
    let f = |t: Seq<char>| failures_of(a, t);
    table.lemma_filter_contains(p, k);
    let kept = table.filter(p);
    let x = choose|x: int| 0 <= x < kept.len() && kept[x] == table[k];
    let lists = a.targets.map_values(f);
    assert(lists[i] == failures_of(a, t));
    lemma_flatten_has(lists, i);
    let (lb, la) = choose|lb: Seq<(Seq<char>, CaseView)>, la: Seq<(Seq<char>, CaseView)>|
        lists.flatten_alt() == #[trigger] (lb + lists[i] + la);
    let at = lb.len() + x;
    assert((lb + lists[i] + la)[at] == lists[i][x]);
    at
}

proof fn lemma_regrouped(
    h: Seq<char>,
    title: Seq<char>,
    b: Seq<char>,
    m: Seq<char>,
    e: Seq<char>,
    end: Seq<char>,
    x: Seq<char>,
    y: Seq<char>,
    z: Seq<char>,
)
    ensures
        h + (title + (b + m + e) + end) + x + y + z == (h + title + b) + m + (e + end + x + y + z),
{
    assert(h + (title + (b + m + e) + end) + x + y + z =~= (h + title + b) + m + (e + end + x + y
        + z));
}

/// Every failure of a declared target stands in the matrix.
pub proof fn law_no_failure_is_left_out(a: AggregateView, i: int, k: int)
    requires
        0 <= i < a.targets.len(),
        lookup(a.results, a.targets[i]) is Some,
        0 <= k < lookup(a.results, a.targets[i])->0.len(),
        is_failure(a, a.targets[i], lookup(a.results, a.targets[i])->0[k].1),
    ensures
        exists|before: Seq<char>, after: Seq<char>|
            matrix(a) == #[trigger] (before + written_failure(
                a.targets[i],
                lookup(a.results, a.targets[i])->0[k].1,
            ) + after),
{
    let at = lemma_is_among_failures(a, i, k);
    let w = |x: (Seq<char>, CaseView)| written_failure(x.0, x.1);
    let texts = all_failures(a).map_values(w);
    assert(texts[at] == written_failure(
        a.targets[i],
        lookup(a.results, a.targets[i])->0[k].1,
    ));
    lemma_flatten_has(texts, at);
    let (b, e) = choose|b: Seq<char>, e: Seq<char>|
        texts.flatten_alt() == #[trigger] (b + texts[at] + e);
    law_matrix_lists_the_failures(a);
    let s = summary_text(a, a.targets.len() as int);
    lemma_regrouped(
        matrix_head(a) + matrix_rows(a),
        "## Failures\n\n"@,
        b,
        texts[at],
        e,
        "\n"@,
        expected_section(a),
        "## Summary\n\n"@,
        s,
    );
}

proof fn lemma_with_cases(set: Seq<(Seq<char>, ())>, table: CaseTable, n: int)
    requires
        0 <= n <= table.len(),
        is_sorted(set),
    ensures
        is_sorted(with_cases(set, table, n)),
        forall|c: Seq<char>| #[trigger]
            lookup(with_cases(set, table, n), c) is Some <==> lookup(set, c) is Some
                || exists|k: int| 0 <= k < n && (#[trigger] table[k]).0 == c,
    decreases n,
{
    if n > 0 {
        lemma_with_cases(set, table, n - 1);
        law_put_sorted(with_cases(set, table, n - 1), table[n - 1].0, ());
        assert forall|c: Seq<char>| #[trigger]
            lookup(with_cases(set, table, n), c) is Some <==> lookup(set, c) is Some
                || exists|k: int| 0 <= k < n && (#[trigger] table[k]).0 == c by {
            law_lookup_put(with_cases(set, table, n - 1), table[n - 1].0, (), c);
        }
    }
}

proof fn lemma_cases_among(results: Seq<(Seq<char>, CaseTable)>, n: int)
    requires
        0 <= n <= results.len(),
    ensures
        is_sorted(cases_among(results, n)),
        forall|c: Seq<char>| #[trigger]
            lookup(cases_among(results, n), c) is Some <==> exists|i: int, k: int|
                0 <= i < n && 0 <= k < results[i].1.len() && (#[trigger] results[i].1[k]).0 == c,
    decreases n,
{
    if n > 0 {
        lemma_cases_among(results, n - 1);
        let table = results[n - 1].1;
        lemma_with_cases(cases_among(results, n - 1), table, table.len() as int);
        assert forall|c: Seq<char>| #[trigger]
            lookup(cases_among(results, n), c) is Some <==> exists|i: int, k: int|
                0 <= i < n && 0 <= k < results[i].1.len() && (#[trigger] results[i].1[k]).0
                    == c by {
            if exists|k: int| 0 <= k < table.len() && (#[trigger] table[k]).0 == c {
                let k = choose|k: int| 0 <= k < table.len() && (#[trigger] table[k]).0 == c;
                assert(results[n - 1].1[k].0 == c);
            }
            if exists|i: int, k: int|
                0 <= i < n && 0 <= k < results[i].1.len() && (#[trigger] results[i].1[k]).0 == c {
                let (i, k) = choose|i: int, k: int|
                    0 <= i < n && 0 <= k < results[i].1.len() && (#[trigger] results[i].1[k]).0
                        == c;
                if i == n - 1 {
                    assert(table[k].0 == c);
                } else {
                    assert(results[i].1[k].0 == c);
                }
            }
        }
    }
}

proof fn lemma_sorted_keys<T>(m: Seq<(Seq<char>, T)>)
    requires
        is_sorted(m),
    ensures
        forall|i: int, j: int|
            0 <= i < j < keys(m).len() ==> text_lt(#[trigger] keys(m)[i], #[trigger] keys(m)[j]),
{
    assert forall|i: int, j: int| 0 <= i < j < keys(m).len() implies text_lt(
        #[trigger] keys(m)[i],
        #[trigger] keys(m)[j],
    ) by {
        assert(text_lt(m[i].0, m[j].0));
    }
}

/// The rows of the matrix are about every case that some target has a result
/// for, each once and in ascending order.
pub proof fn law_every_case_has_a_row(a: AggregateView)
    ensures
        forall|c: Seq<char>| #[trigger]
            all_cases(a).contains(c) <==> exists|i: int, k: int|
                0 <= i < a.results.len() && 0 <= k < a.results[i].1.len() && (
                #[trigger] a.results[i].1[k]).0 == c,
        forall|i: int, j: int|
            0 <= i < j < all_cases(a).len() ==> text_lt(
                #[trigger] all_cases(a)[i],
                #[trigger] all_cases(a)[j],
            ),
{
    let m = cases_among(a.results, a.results.len() as int);
    lemma_cases_among(a.results, a.results.len() as int);
    lemma_sorted_keys(m);
    assert forall|c: Seq<char>| #[trigger]
        all_cases(a).contains(c) <==> exists|i: int, k: int|
            0 <= i < a.results.len() && 0 <= k < a.results[i].1.len() && (
            #[trigger] a.results[i].1[k]).0 == c by {
        lemma_keys(m, c);
    }
}

/// The group of a case is its first segment.
pub proof fn law_group_is_first_segment(case: Seq<char>)
    ensures
        !group_of(case).contains('/'),
        case == group_of(case) || hangs_from(case, group_of(case)),
{
    lemma_first_index(case, '/');
    let n = first_index(case, '/');
    let g = group_of(case);
    if g.contains('/') {
        let i = choose|i: int| 0 <= i < g.len() && g[i] == '/';
        assert(case[i] == '/');
    }
    if n == case.len() {
        assert(g =~= case);
    }
}

proof fn lemma_groups_among(cases: Seq<Seq<char>>, n: int)
    requires
        0 <= n <= cases.len(),
    ensures
        is_sorted(groups_among(cases, n)),
        forall|g: Seq<char>| #[trigger]
            lookup(groups_among(cases, n), g) is Some <==> exists|k: int|
                0 <= k < n && group_of(#[trigger] cases[k]) == g,
    decreases n,
{
    if n > 0 {
        lemma_groups_among(cases, n - 1);
        let g0 = group_of(cases[n - 1]);
        law_put_sorted(groups_among(cases, n - 1), g0, ());
        assert forall|g: Seq<char>| #[trigger]
            lookup(groups_among(cases, n), g) is Some <==> exists|k: int|
                0 <= k < n && group_of(#[trigger] cases[k]) == g by {
            law_lookup_put(groups_among(cases, n - 1), g0, (), g);
        }
    }
}

/// There is a row for the group of every case, each once and in ascending
/// order.
pub proof fn law_every_group_has_a_row(cases: Seq<Seq<char>>)
    ensures
        forall|g: Seq<char>| #[trigger]
            all_groups(cases).contains(g) <==> exists|k: int|
                0 <= k < cases.len() && group_of(#[trigger] cases[k]) == g,
        forall|i: int, j: int|
            0 <= i < j < all_groups(cases).len() ==> text_lt(
                #[trigger] all_groups(cases)[i],
                #[trigger] all_groups(cases)[j],
            ),
{
    let m = groups_among(cases, cases.len() as int);
    lemma_groups_among(cases, cases.len() as int);
    lemma_sorted_keys(m);
    assert forall|g: Seq<char>| #[trigger]
        all_groups(cases).contains(g) <==> exists|k: int|
            0 <= k < cases.len() && group_of(#[trigger] cases[k]) == g by {
        lemma_keys(m, g);
    }
}

/// The word for a result: whether it failed as declared, passed although it
/// should not have, or else its status.
pub open spec fn shown_word(a: AggregateView, target: Seq<char>, r: CaseView) -> Seq<char> {
    let found = match lookup(a.assessments, target) {
        Some(m) => lookup(m, r.case),
        None => None,
    };
    if found is Some && found->0 is ExpectedFail {
        "xfail"@
    } else if found is Some {
        "XPASS"@
    } else if r.status is Pass {
        "pass"@
    } else if r.status is Fail {
        "FAIL"@
    } else if r.status is Skipped {
        "skip"@
    } else if r.status is NotReached {
        "NOT-REACHED"@
    } else if r.status is NotApplicable {
        "N/A"@
    } else {
        "deselected"@
    }
}

/// The word for the result of a case on a target, if it has one.
pub open spec fn word_on(a: AggregateView, target: Seq<char>, case: Seq<char>) -> Option<Seq<char>> {
    match lookup(a.results, target) {
        Some(table) => match lookup(table, case) {
            Some(r) => Some(shown_word(a, target, r)),
            None => None,
        },
        None => None,
    }
}

/// What a cell says of some cases on a target: a dash where none has a result,
/// their word where they have one in common, and else how many there are of
/// each.
pub open spec fn cell(a: AggregateView, target: Seq<char>, cases: Seq<Seq<char>>) -> Seq<char> {
    let words = cases.filter_map(|c: Seq<char>| word_on(a, target, c));
    if words.len() == 0 {
        "—"@
    } else if forall|i: int| 0 <= i < words.len() ==> #[trigger] words[i] == words[0] {
        words[0]
    } else {
        tally_text(words)
    }
}

/// The row of a group.
pub open spec fn written_row(a: AggregateView, group: Seq<char>, cases: Seq<Seq<char>>) -> Seq<char> {
    "| "@ + (if cases.len() == 1 && is_uniform_row(a, cases) {
        cases[0]
    } else {
        group + " ("@ + decimal(cases.len()) + " cases)"@
    }) + " |"@ + a.targets.map_values(
        |t: Seq<char>| " "@ + cell(a, t, cases) + " |"@,
    ).flatten_alt() + "\n"@
}

proof fn lemma_member_words(a: AggregateView, target: Seq<char>, cases: Seq<Seq<char>>, n: int)
    requires
        0 <= n <= cases.len(),
    ensures
        member_words(a, target, cases, n) == cases.take(n).filter_map(
            |c: Seq<char>| word_on(a, target, c),
        ),
    decreases n,
{
    let f = |c: Seq<char>| word_on(a, target, c);
    if n > 0 {
        lemma_member_words(a, target, cases, n - 1);
        cases.lemma_filter_map_take_succ(f, n - 1);
        match result_of(a, target, cases[n - 1]) {
            Some(r) => {
                assert(cell_word(a, target, r) == shown_word(a, target, r));
            },
            None => {},
        }
        assert(member_words(a, target, cases, n) =~= cases.take(n).filter_map(f));
    } else {
        assert(cases.take(0) =~= Seq::empty());
    }
}

proof fn lemma_cell(a: AggregateView, target: Seq<char>, cases: Seq<Seq<char>>)
    ensures
        cell_text(group_words(a, target, cases)) == cell(a, target, cases),
{
    lemma_member_words(a, target, cases, cases.len() as int);
    assert(cases.take(cases.len() as int) =~= cases);
}

proof fn lemma_row_cells(a: AggregateView, cases: Seq<Seq<char>>, n: int)
    requires
        0 <= n <= a.targets.len(),
    ensures
        row_cells(a, cases, n) == a.targets.take(n).map_values(
            |t: Seq<char>| " "@ + cell(a, t, cases) + " |"@,
        ).flatten_alt(),
    decreases n,
{
    let f = |t: Seq<char>| " "@ + cell(a, t, cases) + " |"@;
    if n > 0 {
        lemma_row_cells(a, cases, n - 1);
        lemma_cell(a, a.targets[n - 1], cases);
        assert(a.targets.take(n).map_values(f).drop_last() =~= a.targets.take(n - 1).map_values(f));
        assert(a.targets.take(n).map_values(f).last() == f(a.targets[n - 1]));
        assert(row_cells(a, cases, n) =~= row_cells(a, cases, n - 1) + f(a.targets[n - 1]));
    } else {
        assert(a.targets.take(0).map_values(f) =~= Seq::empty());
    }
}

proof fn lemma_members(cases: Seq<Seq<char>>, group: Seq<char>, n: int)
    requires
        0 <= n <= cases.len(),
    ensures
        members(cases, group, n) == cases.take(n).filter(|c: Seq<char>| group_of(c) == group),
    decreases n,
{
    reveal(Seq::filter);
    if n > 0 {
        lemma_members(cases, group, n - 1);
        assert(cases.take(n).drop_last() =~= cases.take(n - 1));
    }
}

proof fn lemma_rows_text(
    a: AggregateView,
    groups: Seq<Seq<char>>,
    cases: Seq<Seq<char>>,
    n: int,
)
    requires
        0 <= n <= groups.len(),
    ensures
        rows_text(a, groups, cases, n) == groups.take(n).map_values(
            |g: Seq<char>| written_row(a, g, cases.filter(|c: Seq<char>| group_of(c) == g)),
        ).flatten_alt(),
    decreases n,
{
    let f = |g: Seq<char>| written_row(a, g, cases.filter(|c: Seq<char>| group_of(c) == g));
    if n > 0 {
        lemma_rows_text(a, groups, cases, n - 1);
        let g = groups[n - 1];
        lemma_members(cases, g, cases.len() as int);
        assert(cases.take(cases.len() as int) =~= cases);
        let ms = members(cases, g, cases.len() as int);
        lemma_row_cells(a, ms, a.targets.len() as int);
        assert(a.targets.take(a.targets.len() as int) =~= a.targets);
        assert(row_text(a, g, ms) =~= written_row(a, g, ms));
        assert(groups.take(n).map_values(f).drop_last() =~= groups.take(n - 1).map_values(f));
        assert(groups.take(n).map_values(f).last() == f(g));
    } else {
        assert(groups.take(0).map_values(f) =~= Seq::empty());
    }
}

/// The rows of the matrix: one for each group, with a cell for each target
/// about the cases of the group that have a result there.
pub proof fn law_matrix_rows(a: AggregateView)
    ensures
        matrix_rows(a) == all_groups(all_cases(a)).map_values(
            |g: Seq<char>|
                written_row(a, g, all_cases(a).filter(|c: Seq<char>| group_of(c) == g)),
        ).flatten_alt() + "\n"@,
        forall|cases: Seq<Seq<char>>| #[trigger]
            is_uniform_row(a, cases) <==> forall|t: int|
                0 <= t < a.targets.len() ==> {
                    let words = cases.filter_map(
                        |c: Seq<char>| word_on(a, #[trigger] a.targets[t], c),
                    );
                    words.len() > 0 && forall|i: int|
                        0 <= i < words.len() ==> #[trigger] words[i] == words[0]
                },
{
    let cases = all_cases(a);
    let groups = all_groups(cases);
    lemma_rows_text(a, groups, cases, groups.len() as int);
    assert(groups.take(groups.len() as int) =~= groups);
    assert forall|cases: Seq<Seq<char>>| #[trigger]
        is_uniform_row(a, cases) <==> forall|t: int|
            0 <= t < a.targets.len() ==> {
                let words = cases.filter_map(
                    |c: Seq<char>| word_on(a, #[trigger] a.targets[t], c),
                );
                words.len() > 0 && forall|i: int|
                    0 <= i < words.len() ==> #[trigger] words[i] == words[0]
            } by {
        assert forall|t: int| 0 <= t < a.targets.len() implies group_words(
            a,
            #[trigger] a.targets[t],
            cases,
        ) == cases.filter_map(|c: Seq<char>| word_on(a, a.targets[t], c)) by {
            lemma_member_words(a, a.targets[t], cases, cases.len() as int);
            assert(cases.take(cases.len() as int) =~= cases);
        }
    }
}

proof fn lemma_bullets(items: Seq<Seq<char>>, n: int)
    requires
        0 <= n <= items.len(),
    ensures
        bullets(items, n) == items.take(n).map_values(
            |x: Seq<char>| "- "@ + x + "\n"@,
        ).flatten_alt(),
    decreases n,
{
    let f = |x: Seq<char>| "- "@ + x + "\n"@;
    if n > 0 {
        lemma_bullets(items, n - 1);
        assert(items.take(n).map_values(f).drop_last() =~= items.take(n - 1).map_values(f));
        assert(items.take(n).map_values(f).last() == f(items[n - 1]));
        assert(bullets(items, n) =~= bullets(items, n - 1) + f(items[n - 1]));
    } else {
        assert(items.take(0).map_values(f) =~= Seq::empty());
    }
}

proof fn lemma_titles(targets: Seq<Seq<char>>, n: int)
    requires
        0 <= n <= targets.len(),
    ensures
        column_titles(targets, n) == targets.take(n).map_values(
            |x: Seq<char>| " "@ + x + " |"@,
        ).flatten_alt(),
        column_rules(n) == targets.take(n).map_values(|x: Seq<char>| " --- |"@).flatten_alt(),
    decreases n,
{
    let f = |x: Seq<char>| " "@ + x + " |"@;
    let g = |x: Seq<char>| " --- |"@;
    if n > 0 {
        lemma_titles(targets, n - 1);
        assert(targets.take(n).map_values(f).drop_last() =~= targets.take(n - 1).map_values(f));
        assert(targets.take(n).map_values(f).last() == f(targets[n - 1]));
        assert(column_titles(targets, n) =~= column_titles(targets, n - 1) + f(targets[n - 1]));
        assert(targets.take(n).map_values(g).drop_last() =~= targets.take(n - 1).map_values(g));
        assert(targets.take(n).map_values(g).last() == " --- |"@);
    } else {
        assert(targets.take(0).map_values(f) =~= Seq::empty());
        assert(targets.take(0).map_values(g) =~= Seq::empty());
    }
}

/// Above the rows stand every validation error and every warning, and a column
/// for every target.
pub proof fn law_matrix_head(a: AggregateView)
    ensures
        matrix_head(a) == "# Test matrix\n\n"@ + (if a.errors.len() == 0 {
            Seq::empty()
        } else {
            "## Validation errors\n\n"@ + a.errors.map_values(
                |x: Seq<char>| "- "@ + x + "\n"@,
            ).flatten_alt() + "\n"@
        }) + (if a.warnings.len() == 0 {
            Seq::empty()
        } else {
            "## Warnings\n\n"@ + a.warnings.map_values(
                |x: Seq<char>| "- "@ + x + "\n"@,
            ).flatten_alt() + "\n"@
        }) + "| Case |"@ + a.targets.map_values(
            |x: Seq<char>| " "@ + x + " |"@,
        ).flatten_alt() + "\n| --- |"@ + a.targets.map_values(
            |x: Seq<char>| " --- |"@,
        ).flatten_alt() + "\n"@,
{
    lemma_bullets(a.errors, a.errors.len() as int);
    lemma_bullets(a.warnings, a.warnings.len() as int);
    lemma_titles(a.targets, a.targets.len() as int);
    assert(a.errors.take(a.errors.len() as int) =~= a.errors);
    assert(a.warnings.take(a.warnings.len() as int) =~= a.warnings);
    assert(a.targets.take(a.targets.len() as int) =~= a.targets);
}

/// What is written of an assessment: of a failure as declared, its case, the
/// reason and where it is tracked; of a pass nothing.
pub open spec fn written_assessment(
    target: Seq<char>,
    x: (Seq<char>, AssessmentView),
) -> Seq<char> {
    match x.1 {
        AssessmentView::ExpectedFail(reason, tracking) => "- `"@ + target + "` `"@ + x.0
            + "` xfail: "@ + reason + " ("@ + tracking + ")\n"@,
        AssessmentView::UnexpectedPass => Seq::empty(),
    }
}

proof fn lemma_target_expected(target: Seq<char>, table: AssessmentTable, n: int)
    requires
        0 <= n <= table.len(),
    ensures
        target_expected(target, table, n) == table.take(n).map_values(
            |x: (Seq<char>, AssessmentView)| written_assessment(target, x),
        ).flatten_alt(),
    decreases n,
{
    let f = |x: (Seq<char>, AssessmentView)| written_assessment(target, x);
    if n > 0 {
        lemma_target_expected(target, table, n - 1);
        assert(table.take(n).map_values(f).drop_last() =~= table.take(n - 1).map_values(f));
        assert(table.take(n).map_values(f).last() == f(table[n - 1]));
        assert(target_expected(target, table, n) =~= target_expected(target, table, n - 1) + f(
            table[n - 1],
        ));
    } else {
        assert(table.take(0).map_values(f) =~= Seq::empty());
    }
}

proof fn lemma_expected_text(a: AggregateView, n: int)
    requires
        0 <= n <= a.assessments.len(),
    ensures
        expected_text(a, n) == a.assessments.take(n).map_values(
            |e: (Seq<char>, AssessmentTable)|
                e.1.map_values(
                    |x: (Seq<char>, AssessmentView)| written_assessment(e.0, x),
                ).flatten_alt(),
        ).flatten_alt(),
    decreases n,
{
    let f = |e: (Seq<char>, AssessmentTable)|
        e.1.map_values(
            |x: (Seq<char>, AssessmentView)| written_assessment(e.0, x),
        ).flatten_alt();
    if n > 0 {
        lemma_expected_text(a, n - 1);
        let e = a.assessments[n - 1];
        lemma_target_expected(e.0, e.1, e.1.len() as int);
        assert(e.1.take(e.1.len() as int) =~= e.1);
        assert(a.assessments.take(n).map_values(f).drop_last() =~= a.assessments.take(
            n - 1,
        ).map_values(f));
        assert(a.assessments.take(n).map_values(f).last() == f(e));
    } else {
        assert(a.assessments.take(0).map_values(f) =~= Seq::empty());
    }
}

proof fn lemma_table_words(a: AggregateView, target: Seq<char>, table: CaseTable, n: int)
    requires
        0 <= n <= table.len(),
    ensures
        table_words(a, target, table, n) == table.take(n).map_values(
            |x: (Seq<char>, CaseView)| shown_word(a, target, x.1),
        ),
    decreases n,
{
    if n > 0 {
        lemma_table_words(a, target, table, n - 1);
        assert(cell_word(a, target, table[n - 1].1) == shown_word(a, target, table[n - 1].1));
    }
    assert(table_words(a, target, table, n) =~= table.take(n).map_values(
        |x: (Seq<char>, CaseView)| shown_word(a, target, x.1),
    ));
}

/// The summary of a target: how many results it has of each word, and in all.
pub open spec fn written_summary(a: AggregateView, target: Seq<char>) -> Seq<char> {
    match lookup(a.results, target) {
        Some(table) => "- `"@ + target + "`: "@ + tally_text(
            table.map_values(|x: (Seq<char>, CaseView)| shown_word(a, target, x.1)),
        ) + " ("@ + decimal(table.len()) + " total)\n"@,
        None => "- `"@ + target + "`: no results\n"@,
    }
}

proof fn lemma_summary_text(a: AggregateView, n: int)
    requires
        0 <= n <= a.targets.len(),
    ensures
        summary_text(a, n) == a.targets.take(n).map_values(
            |t: Seq<char>| written_summary(a, t),
        ).flatten_alt(),
    decreases n,
{
    let f = |t: Seq<char>| written_summary(a, t);
    if n > 0 {
        lemma_summary_text(a, n - 1);
        let t = a.targets[n - 1];
        match lookup(a.results, t) {
            Some(table) => {
                lemma_table_words(a, t, table, table.len() as int);
                assert(table.take(table.len() as int) =~= table);
            },
            None => {},
        }
        assert(summary_line(a, t) =~= written_summary(a, t));
        assert(a.targets.take(n).map_values(f).drop_last() =~= a.targets.take(n - 1).map_values(f));
        assert(a.targets.take(n).map_values(f).last() == f(t));
    } else {
        assert(a.targets.take(0).map_values(f) =~= Seq::empty());
    }
}

/// Below the failures stand the failures as declared, where there are any, and
/// a summary for every target.
pub proof fn law_matrix_tail(a: AggregateView)
    ensures
        ({
            let list = a.assessments.map_values(
                |e: (Seq<char>, AssessmentTable)|
                    e.1.map_values(
                        |x: (Seq<char>, AssessmentView)| written_assessment(e.0, x),
                    ).flatten_alt(),
            ).flatten_alt();
            matrix(a) == matrix_head(a) + matrix_rows(a) + matrix_failures(a) + (if list.len()
                == 0 {
                Seq::empty()
            } else {
                "## Expected failures\n\n"@ + list + "\n"@
            }) + "## Summary\n\n"@ + a.targets.map_values(
                |t: Seq<char>| written_summary(a, t),
            ).flatten_alt()
        }),
{
    lemma_expected_text(a, a.assessments.len() as int);
    lemma_summary_text(a, a.targets.len() as int);
    assert(a.assessments.take(a.assessments.len() as int) =~= a.assessments);
    assert(a.targets.take(a.targets.len() as int) =~= a.targets);
}

} // verus!
