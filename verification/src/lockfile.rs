//! The inventory lockfile: which cases a suite has, and the marks on them.

use vstd::prelude::*;

use crate::debug::{debug_texts, debug_texts_text};
use crate::feature::{is_mark_set, law_mark_set_fault, mark_set_fault, MarkView};
use crate::name::{
    fault_text, is_case_name, is_label, is_under, is_wit_label, label_fault, law_label_fault,
    law_name_fault, name_fault, under, CaseName, NameParts,
};
use crate::table::Table;
use crate::tags::{
    clone_tags, features_named, law_unpaired, named_features, tag_views, tags_fault_text, unpaired,
    unpaired_positive_features, Tag, Tags,
};
use crate::text::{
    among, byte_len, bytes_in, chars_of, clone_opt, clone_texts, join, join_texts, listed, opt_text,
    owned, same, split, split_text, text_of, texts, views, Text,
};

verus! {

/// The version of the lockfile format.
pub const LOCKFILE_VERSION: &'static str = "0.1";

/// The suite that a lockfile is about.
#[derive(Debug, PartialEq, Eq, Default)]
pub struct SuiteRef {
    pub name: String,
    /// sha256 of the artifact that the inventory was read from, in hex.
    pub artifact_sha256: Option<String>,
}

/// A case that the suite registers by name.
#[derive(Debug, PartialEq, Eq)]
pub struct CaseEntry {
    pub name: CaseName,
    pub tags: Vec<Tag>,
}

/// A row of cases that the suite enumerates at run time.
#[derive(Debug, PartialEq, Eq)]
pub struct GeneratedEntry {
    pub prefix: String,
    pub tags: Vec<Tag>,
    /// The leaves below the prefix, where they are pinned.
    pub cases: Vec<String>,
}

/// The inventory of a suite.
#[derive(Debug, PartialEq, Eq)]
pub struct Lockfile {
    pub version: String,
    pub suite: SuiteRef,
    pub case: Vec<CaseEntry>,
    pub generated: Vec<GeneratedEntry>,
}

/// A [`CaseEntry`] over texts.
#[verifier::ext_equal]
pub struct EntryView {
    pub name: NameParts,
    pub tags: Seq<MarkView>,
}

/// A [`GeneratedEntry`] over texts.
#[verifier::ext_equal]
pub struct RowView {
    pub prefix: Seq<char>,
    pub tags: Seq<MarkView>,
    pub cases: Seq<Seq<char>>,
}

/// A [`Lockfile`] over texts.
#[verifier::ext_equal]
pub struct LockView {
    pub version: Seq<char>,
    pub suite_name: Seq<char>,
    pub artifact_sha256: Option<Seq<char>>,
    pub case: Seq<EntryView>,
    pub generated: Seq<RowView>,
}

impl View for CaseEntry {
    type V = EntryView;

    open spec fn view(&self) -> EntryView {
        EntryView { name: self.name@, tags: tag_views(self.tags@) }
    }
}

impl View for GeneratedEntry {
    type V = RowView;

    open spec fn view(&self) -> RowView {
        RowView {
            prefix: self.prefix@,
            tags: tag_views(self.tags@),
            cases: views(self.cases@),
        }
    }
}

/// The views of a list of cases.
pub open spec fn entry_views(v: Seq<CaseEntry>) -> Seq<EntryView> {
    Seq::new(v.len(), |i: int| v[i]@)
}

/// The views of a list of rows.
pub open spec fn row_views(v: Seq<GeneratedEntry>) -> Seq<RowView> {
    Seq::new(v.len(), |i: int| v[i]@)
}

impl View for Lockfile {
    type V = LockView;

    open spec fn view(&self) -> LockView {
        LockView {
            version: self.version@,
            suite_name: self.suite.name@,
            artifact_sha256: opt_text(self.suite.artifact_sha256),
            case: entry_views(self.case@),
            generated: row_views(self.generated@),
        }
    }
}

impl Clone for CaseEntry {
    fn clone(&self) -> (r: Self)
        ensures
            r@ == self@,
    {
        CaseEntry { name: self.name.clone(), tags: clone_tags(&self.tags) }
    }
}

impl Clone for GeneratedEntry {
    fn clone(&self) -> (r: Self)
        ensures
            r@ == self@,
    {
        GeneratedEntry {
            prefix: self.prefix.clone(),
            tags: clone_tags(&self.tags),
            cases: clone_texts(&self.cases),
        }
    }
}

impl Clone for Lockfile {
    fn clone(&self) -> (r: Self)
        ensures
            r@ == self@,
    {
        let mut case: Vec<CaseEntry> = Vec::new();
        for i in 0..self.case.len()
            invariant
                case@.len() == i,
                forall|k: int| 0 <= k < i ==> (#[trigger] case@[k])@ == self.case@[k]@,
        {
            case.push(self.case[i].clone());
        }
        let mut generated: Vec<GeneratedEntry> = Vec::new();
        for i in 0..self.generated.len()
            invariant
                generated@.len() == i,
                forall|k: int| 0 <= k < i ==> (#[trigger] generated@[k])@ == self.generated@[k]@,
        {
            generated.push(self.generated[i].clone());
        }
        assert(entry_views(case@) =~= entry_views(self.case@));
        assert(row_views(generated@) =~= row_views(self.generated@));
        Lockfile {
            version: self.version.clone(),
            suite: SuiteRef {
                name: self.suite.name.clone(),
                artifact_sha256: clone_opt(&self.suite.artifact_sha256),
            },
            case,
            generated,
        }
    }
}

// ---------------------------------------------------------------------
// Validity
// ---------------------------------------------------------------------

/// The names of the cases, as texts.
pub open spec fn entry_names(cases: Seq<EntryView>) -> Seq<Seq<char>> {
    Seq::new(cases.len(), |i: int| cases[i].name.text())
}

/// The prefixes of the rows.
pub open spec fn row_prefixes(rows: Seq<RowView>) -> Seq<Seq<char>> {
    Seq::new(rows.len(), |i: int| rows[i].prefix)
}

/// What is wrong with the case at position `i`.
pub open spec fn case_fault(cases: Seq<EntryView>, i: int) -> Option<Seq<char>> {
    let name = cases[i].name.text();
    if entry_names(cases).take(i).contains(name) {
        Some("duplicate case `"@ + name + "`"@)
    } else {
        match mark_set_fault(cases[i].tags) {
            Some(f) => Some("case `"@ + name + "`: "@ + tags_fault_text(f)),
            None => None,
        }
    }
}

/// What is wrong with a case from the `i`-th on.
pub open spec fn cases_fault(cases: Seq<EntryView>, i: int) -> Option<Seq<char>>
    decreases cases.len() - i,
{
    if i < 0 || i >= cases.len() {
        None
    } else {
        match case_fault(cases, i) {
            Some(f) => Some(f),
            None => cases_fault(cases, i + 1),
        }
    }
}

/// What is wrong with a segment of a row's prefix from the `i`-th on.
pub open spec fn prefix_fault(prefix: Seq<char>, i: int) -> Option<Seq<char>>
    decreases split(prefix, '/').len() - i,
{
    let segments = split(prefix, '/');
    if i < 0 || i >= segments.len() {
        None
    } else {
        match label_fault(segments[i]) {
            Some(reason) => Some(
                "generated-row prefix `"@ + prefix + "`: segment `"@ + segments[i]
                    + "` is not a WIT label ("@ + reason + ")"@,
            ),
            None => prefix_fault(prefix, i + 1),
        }
    }
}

/// What is wrong with a pinned leaf from the `i`-th on.
pub open spec fn leaves_fault(row: RowView, i: int) -> Option<Seq<char>>
    decreases row.cases.len() - i,
{
    if i < 0 || i >= row.cases.len() {
        None
    } else {
        let leaf = row.cases[i];
        match name_fault(row.prefix.push('/') + leaf) {
            Some(f) => Some(
                "generated `"@ + row.prefix + "`: leaf `"@ + leaf
                    + "` is not a valid case name: "@ + fault_text(f),
            ),
            None => if row.cases.take(i).contains(leaf) {
                Some("generated `"@ + row.prefix + "`: duplicate leaf `"@ + leaf + "`"@)
            } else {
                leaves_fault(row, i + 1)
            },
        }
    }
}

/// What is wrong with the row at position `i`.
pub open spec fn row_fault(rows: Seq<RowView>, i: int) -> Option<Seq<char>> {
    let row = rows[i];
    match prefix_fault(row.prefix, 0) {
        Some(f) => Some(f),
        None => if row_prefixes(rows).take(i).contains(row.prefix) {
            Some("duplicate generated prefix `"@ + row.prefix + "`"@)
        } else {
            match mark_set_fault(row.tags) {
                Some(f) => Some("generated `"@ + row.prefix + "`: "@ + tags_fault_text(f)),
                None => leaves_fault(row, 0),
            }
        },
    }
}

/// What is wrong with a row from the `i`-th on.
pub open spec fn rows_fault(rows: Seq<RowView>, i: int) -> Option<Seq<char>>
    decreases rows.len() - i,
{
    if i < 0 || i >= rows.len() {
        None
    } else {
        match row_fault(rows, i) {
            Some(f) => Some(f),
            None => rows_fault(rows, i + 1),
        }
    }
}

/// The marks of the first `n` cases.
pub open spec fn case_marks(cases: Seq<EntryView>, n: int) -> Seq<MarkView>
    decreases n,
{
    if n <= 0 { Seq::<MarkView>::empty() } else { case_marks(cases, n - 1) + cases[n - 1].tags }
}

/// The marks of the first `n` rows.
pub open spec fn row_marks(rows: Seq<RowView>, n: int) -> Seq<MarkView>
    decreases n,
{
    if n <= 0 { Seq::<MarkView>::empty() } else { row_marks(rows, n - 1) + rows[n - 1].tags }
}

/// Every mark of the inventory.
pub open spec fn all_marks(cases: Seq<EntryView>, rows: Seq<RowView>) -> Seq<MarkView> {
    case_marks(cases, cases.len() as int) + row_marks(rows, rows.len() as int)
}

/// The message about features that no case declines.
pub open spec fn unpaired_text(features: Seq<Seq<char>>) -> Seq<char> {
    "feature(s) "@ + debug_texts(features) + " have positive tags but no declining case"@
}

/// What is wrong with a lockfile, if anything.
pub open spec fn lock_fault(l: LockView) -> Option<Seq<char>> {
    if l.version != LOCKFILE_VERSION@ {
        Some("unsupported lockfile version "@ + l.version)
    } else {
        match cases_fault(l.case, 0) {
            Some(f) => Some(f),
            None => match rows_fault(l.generated, 0) {
                Some(f) => Some(f),
                None => {
                    let lone = unpaired(all_marks(l.case, l.generated));
                    if lone.len() > 0 { Some(unpaired_text(lone)) } else { None }
                },
            },
        }
    }
}

/// Every tag of the inventory.
pub(crate) fn collect_tags(cases: &[CaseEntry], rows: &[GeneratedEntry]) -> (r: Vec<Tag>)
    ensures
        tag_views(r@) == all_marks(entry_views(cases@), row_views(rows@)),
{
    let ghost cs = entry_views(cases@);
    let ghost rs = row_views(rows@);
    let mut r: Vec<Tag> = Vec::new();
    let mut i: usize = 0;
    assert(tag_views(r@) =~= case_marks(cs, 0));
    while i < cases.len()
        invariant
            i <= cases@.len(),
            cs == entry_views(cases@),
            tag_views(r@) == case_marks(cs, i as int),
        decreases cases.len() - i,
    {
        let mut more = clone_tags(&cases[i].tags);
        let ghost was = tag_views(r@);
        let ghost m = tag_views(more@);
        assert(m == cs[i as int].tags);
        r.append(&mut more);
        assert(tag_views(r@) =~= was + m);
        i += 1;
    }
    let ghost base = tag_views(r@);
    let mut k: usize = 0;
    assert(tag_views(r@) =~= base + row_marks(rs, 0));
    while k < rows.len()
        invariant
            k <= rows@.len(),
            rs == row_views(rows@),
            tag_views(r@) == base + row_marks(rs, k as int),
        decreases rows.len() - k,
    {
        let mut more = clone_tags(&rows[k].tags);
        let ghost was = tag_views(r@);
        let ghost m = tag_views(more@);
        assert(m == rs[k as int].tags);
        r.append(&mut more);
        assert(tag_views(r@) =~= was + m);
        assert(was + m =~= base + row_marks(rs, k + 1));
        k += 1;
    }
    r
}

/// The message about features that no case declines.
pub(crate) fn unpaired_message(features: &[String]) -> (r: String)
    ensures
        r@ == unpaired_text(views(features@)),
{
    let mut r = owned("feature(s) ");
    r.append(debug_texts_text(features).as_str());
    r.append(" have positive tags but no declining case");
    r
}

fn check_case(cases: &[CaseEntry], names: &[String], i: usize) -> (r: Option<String>)
    requires
        i < cases@.len(),
        views(names@) == entry_names(entry_views(cases@)).take(i as int),
    ensures
        opt_text(r) == case_fault(entry_views(cases@), i as int),
{
    let ghost cs = entry_views(cases@);
    assert(cs[i as int] == cases@[i as int]@);
    let name = cases[i].name.as_str();
    if among(names, name.as_str()) {
        let mut m = owned("duplicate case `");
        m.append(name.as_str());
        m.append("`");
        return Some(m);
    }
    match Tags::new(clone_tags(&cases[i].tags)) {
        Ok(_) => None,
        Err(e) => {
            let mut m = owned("case `");
            m.append(name.as_str());
            m.append("`: ");
            m.append(e.to_string().as_str());
            Some(m)
        },
    }
}

fn check_cases(cases: &[CaseEntry]) -> (r: Option<String>)
    ensures
        opt_text(r) == cases_fault(entry_views(cases@), 0),
{
    let ghost cs = entry_views(cases@);
    let mut names: Vec<String> = Vec::new();
    let mut i: usize = 0;
    assert(views(names@) =~= entry_names(cs).take(0));
    while i < cases.len()
        invariant
            i <= cases@.len(),
            cs == entry_views(cases@),
            views(names@) == entry_names(cs).take(i as int),
            cases_fault(cs, 0) == cases_fault(cs, i as int),
        decreases cases.len() - i,
    {
        let f = check_case(cases, &names, i);
        if f.is_some() {
            return f;
        }
        let ghost was = views(names@);
        assert(cs[i as int] == cases@[i as int]@);
        names.push(cases[i].name.as_str());
        assert(views(names@) =~= was.push(cs[i as int].name.text()));
        assert(entry_names(cs).take(i + 1) =~= entry_names(cs).take(i as int).push(
            entry_names(cs)[i as int],
        ));
        i += 1;
    }
    None
}

/// Check that every segment of a row's prefix is a label.
pub(crate) fn check_prefix(prefix: &str) -> (r: Option<String>)
    ensures
        opt_text(r) == prefix_fault(prefix@, 0),
{
    let segments = split_text(prefix, '/');
    let mut i: usize = 0;
    while i < segments.len()
        invariant
            i <= segments@.len(),
            views(segments@) == split(prefix@, '/'),
            prefix_fault(prefix@, 0) == prefix_fault(prefix@, i as int),
        decreases segments.len() - i,
    {
        assert(views(segments@)[i as int] == segments@[i as int]@);
        match is_wit_label(segments[i].as_str()) {
            Some(reason) => {
                let mut m = owned("generated-row prefix `");
                m.append(prefix);
                m.append("`: segment `");
                m.append(segments[i].as_str());
                m.append("` is not a WIT label (");
                m.append(reason);
                m.append(")");
                return Some(m);
            },
            None => {},
        }
        i += 1;
    }
    None
}

/// `prefix`, a slash and `leaf`.
pub(crate) fn under_prefix(prefix: &str, leaf: &str) -> (r: String)
    ensures
        r@ == prefix@.push('/') + leaf@,
{
    let mut r = owned(prefix);
    r.push('/');
    r.append(leaf);
    r
}

fn check_leaves(row: &GeneratedEntry) -> (r: Option<String>)
    ensures
        opt_text(r) == leaves_fault(row@, 0),
{
    let ghost rv = row@;
    let mut known: Vec<String> = Vec::new();
    let mut i: usize = 0;
    assert(views(known@) =~= rv.cases.take(0));
    while i < row.cases.len()
        invariant
            i <= row.cases@.len(),
            rv == row@,
            views(known@) == rv.cases.take(i as int),
            leaves_fault(rv, 0) == leaves_fault(rv, i as int),
        decreases row.cases.len() - i,
    {
        let leaf = row.cases[i].as_str();
        assert(rv.cases[i as int] == leaf@);
        let name = under_prefix(row.prefix.as_str(), leaf);
        match CaseName::parse(name.as_str()) {
            Err(e) => {
                let mut m = owned("generated `");
                m.append(row.prefix.as_str());
                m.append("`: leaf `");
                m.append(leaf);
                m.append("` is not a valid case name: ");
                m.append(e.to_string().as_str());
                return Some(m);
            },
            Ok(_) => {},
        }
        if among(&known, leaf) {
            let mut m = owned("generated `");
            m.append(row.prefix.as_str());
            m.append("`: duplicate leaf `");
            m.append(leaf);
            m.append("`");
            return Some(m);
        }
        let ghost was = views(known@);
        known.push(owned(leaf));
        assert(views(known@) =~= was.push(leaf@));
        assert(rv.cases.take(i + 1) =~= rv.cases.take(i as int).push(rv.cases[i as int]));
        i += 1;
    }
    None
}

fn check_row(rows: &[GeneratedEntry], prefixes: &[String], i: usize) -> (r: Option<String>)
    requires
        i < rows@.len(),
        views(prefixes@) == row_prefixes(row_views(rows@)).take(i as int),
    ensures
        opt_text(r) == row_fault(row_views(rows@), i as int),
{
    let ghost rs = row_views(rows@);
    let row = &rows[i];
    assert(rs[i as int] == row@);
    let f = check_prefix(row.prefix.as_str());
    if f.is_some() {
        return f;
    }
    if among(prefixes, row.prefix.as_str()) {
        let mut m = owned("duplicate generated prefix `");
        m.append(row.prefix.as_str());
        m.append("`");
        return Some(m);
    }
    match Tags::new(clone_tags(&row.tags)) {
        Ok(_) => check_leaves(row),
        Err(e) => {
            let mut m = owned("generated `");
            m.append(row.prefix.as_str());
            m.append("`: ");
            m.append(e.to_string().as_str());
            Some(m)
        },
    }
}

fn check_rows(rows: &[GeneratedEntry]) -> (r: Option<String>)
    ensures
        opt_text(r) == rows_fault(row_views(rows@), 0),
{
    let ghost rs = row_views(rows@);
    let mut prefixes: Vec<String> = Vec::new();
    let mut i: usize = 0;
    assert(views(prefixes@) =~= row_prefixes(rs).take(0));
    while i < rows.len()
        invariant
            i <= rows@.len(),
            rs == row_views(rows@),
            views(prefixes@) == row_prefixes(rs).take(i as int),
            rows_fault(rs, 0) == rows_fault(rs, i as int),
        decreases rows.len() - i,
    {
        let f = check_row(rows, &prefixes, i);
        if f.is_some() {
            return f;
        }
        let ghost was = views(prefixes@);
        assert(rs[i as int] == rows@[i as int]@);
        prefixes.push(rows[i].prefix.clone());
        assert(views(prefixes@) =~= was.push(rs[i as int].prefix));
        assert(row_prefixes(rs).take(i + 1) =~= row_prefixes(rs).take(i as int).push(
            row_prefixes(rs)[i as int],
        ));
        i += 1;
    }
    None
}

// ---------------------------------------------------------------------
// Rows and coverage
// ---------------------------------------------------------------------

/// Among the first `n` rows, the position of the one with the longest prefix
/// that `name` stands under (the last of equals), or -1.
pub open spec fn row_at(rows: Seq<RowView>, name: Seq<char>, n: int) -> int
    decreases n,
{
    if n <= 0 {
        -1
    } else {
        let best = row_at(rows, name, n - 1);
        if under(name, rows[n - 1].prefix) && (best < 0 || byte_len(rows[best].prefix) <= byte_len(
            rows[n - 1].prefix,
        )) {
            n - 1
        } else {
            best
        }
    }
}

/// The position of the row that `name` belongs to, or -1.
pub open spec fn row_of(rows: Seq<RowView>, name: Seq<char>) -> int {
    row_at(rows, name, rows.len() as int)
}

/// The row that a name belongs to has a prefix that the name stands under,
/// and no row with a longer such prefix exists.
pub proof fn law_longest_prefix(rows: Seq<RowView>, name: Seq<char>, n: int)
    requires
        0 <= n <= rows.len(),
    ensures
        -1 <= row_at(rows, name, n) < n,
        row_at(rows, name, n) >= 0 ==> under(name, rows[row_at(rows, name, n)].prefix),
        forall|i: int|
            0 <= i < n && under(name, (#[trigger] rows[i]).prefix) ==> row_at(rows, name, n) >= 0
                && byte_len(rows[i].prefix) <= byte_len(rows[row_at(rows, name, n)].prefix),
    decreases n,
{
    if n > 0 {
        law_longest_prefix(rows, name, n - 1);
    }
}

/// The position of the row that `name` belongs to.
pub(crate) fn find_row(rows: &[GeneratedEntry], name: &str) -> (r: Option<usize>)
    ensures
        match r {
            Some(i) => i < rows@.len() && i == row_of(row_views(rows@), name@),
            None => row_of(row_views(rows@), name@) < 0,
        },
{
    let ghost rs = row_views(rows@);
    let mut best: Option<usize> = None;
    let mut i: usize = 0;
    while i < rows.len()
        invariant
            i <= rows@.len(),
            rs == row_views(rows@),
            match best {
                Some(b) => b < i && b == row_at(rs, name@, i as int),
                None => row_at(rs, name@, i as int) < 0,
            },
        decreases rows.len() - i,
    {
        assert(rs[i as int] == rows@[i as int]@);
        if is_under(name, rows[i].prefix.as_str()) {
            match best {
                Some(b) => {
                    assert(rs[b as int] == rows@[b as int]@);
                    if bytes_in(rows[b].prefix.as_str()) <= bytes_in(rows[i].prefix.as_str()) {
                        best = Some(i);
                    }
                },
                None => {
                    best = Some(i);
                },
            }
        }
        i += 1;
    }
    best
}

/// The part of `name` below `prefix` and its slash.
pub open spec fn below(name: Seq<char>, prefix: Seq<char>) -> Seq<char> {
    name.skip(prefix.len() as int + 1)
}

/// The part of `name` below `prefix` and its slash.
pub(crate) fn leaf_below(name: &str, prefix: &str) -> (r: String)
    requires
        under(name@, prefix@),
    ensures
        r@ == below(name@, prefix@),
{
    let chars = chars_of(name);
    let len = chars.len();
    let head = chars_of(prefix).len();
    assert(prefix@.push('/').len() <= name@.len());
    let r = text_of(&chars, head + 1, len);
    assert(r@ =~= below(name@, prefix@));
    r
}

/// What is wrong with the report of the `i`-th name.
pub open spec fn report_fault(l: LockView, names: Seq<Seq<char>>, i: int) -> Option<Seq<char>> {
    let name = names[i];
    let row = row_of(l.generated, name);
    if names.take(i).contains(name) {
        Some("case `"@ + name + "` reported more than once"@)
    } else if entry_names(l.case).contains(name) {
        None
    } else if row < 0 {
        Some("case `"@ + name + "` is not in the lockfile"@)
    } else {
        match name_fault(name) {
            Some(f) => Some("`"@ + name + "` is not a valid case name: "@ + fault_text(f)),
            None => {
                let g = l.generated[row];
                if g.cases.len() > 0 && !g.cases.contains(below(name, g.prefix)) {
                    Some(
                        "case `"@ + name + "` is no pinned leaf of generated `"@ + g.prefix + "`"@,
                    )
                } else {
                    None
                }
            },
        }
    }
}

/// What is wrong with a report from the `i`-th on.
pub open spec fn reports_fault(l: LockView, names: Seq<Seq<char>>, i: int) -> Option<Seq<char>>
    decreases names.len() - i,
{
    if i < 0 || i >= names.len() {
        None
    } else {
        match report_fault(l, names, i) {
            Some(f) => Some(f),
            None => reports_fault(l, names, i + 1),
        }
    }
}

/// Among `wanted`, the names that were not reported.
pub open spec fn absent(wanted: Seq<Seq<char>>, names: Seq<Seq<char>>) -> Seq<Seq<char>>
    decreases wanted.len(),
{
    if wanted.len() == 0 {
        Seq::<Seq<char>>::empty()
    } else {
        let init = absent(wanted.drop_last(), names);
        if names.contains(wanted.last()) { init } else { init.push(wanted.last()) }
    }
}

/// The full names of a row's pinned leaves.
pub open spec fn pinned(row: RowView) -> Seq<Seq<char>> {
    Seq::new(row.cases.len(), |i: int| row.prefix.push('/') + row.cases[i])
}

/// The full names of the pinned leaves of the first `n` rows.
pub open spec fn all_pinned(rows: Seq<RowView>, n: int) -> Seq<Seq<char>>
    decreases n,
{
    if n <= 0 { Seq::<Seq<char>>::empty() } else { all_pinned(rows, n - 1) + pinned(rows[n - 1]) }
}

/// The names that a run has to report: every case, and every pinned leaf.
pub open spec fn wanted_names(l: LockView) -> Seq<Seq<char>> {
    entry_names(l.case) + all_pinned(l.generated, l.generated.len() as int)
}

/// What is wrong with the set of names that a run reported: a name twice, a
/// name that the lockfile does not know, or a name that is missing.
pub open spec fn coverage_fault(l: LockView, names: Seq<Seq<char>>) -> Option<Seq<char>> {
    match reports_fault(l, names, 0) {
        Some(f) => Some(f),
        None => {
            let missing = absent(wanted_names(l), names);
            if missing.len() > 0 {
                Some("no result for case(s): "@ + join(missing, ", "@))
            } else {
                None
            }
        },
    }
}

impl Lockfile {
    /// The lockfile of a suite without generated rows.
    pub fn new(suite: SuiteRef, case: Vec<CaseEntry>) -> (r: Self)
        ensures
            r@ == (LockView {
                version: LOCKFILE_VERSION@,
                suite_name: suite.name@,
                artifact_sha256: opt_text(suite.artifact_sha256),
                case: entry_views(case@),
                generated: Seq::empty(),
            }),
    {
        let r = Self::with_generated(suite, case, Vec::new());
        assert(r@.generated =~= Seq::<RowView>::empty());
        r
    }

    /// The lockfile of a suite.
    pub fn with_generated(
        suite: SuiteRef,
        case: Vec<CaseEntry>,
        generated: Vec<GeneratedEntry>,
    ) -> (r: Self)
        ensures
            r@ == (LockView {
                version: LOCKFILE_VERSION@,
                suite_name: suite.name@,
                artifact_sha256: opt_text(suite.artifact_sha256),
                case: entry_views(case@),
                generated: row_views(generated@),
            }),
    {
        Lockfile { version: owned(LOCKFILE_VERSION), suite, case, generated }
    }

    /// Check the inventory against itself: version, names, prefixes, tag
    /// sets, pinned leaves and decline pairs. Gives the features that the
    /// tags name.
    pub fn validate(&self) -> (r: Result<Table<()>, String>)
        ensures
            match r {
                Ok(features) => lock_fault(self@) is None && features@ == features_named(
                    all_marks(self@.case, self@.generated),
                ),
                Err(e) => lock_fault(self@) == Some(e@),
            },
    {
        if !same(self.version.as_str(), LOCKFILE_VERSION) {
            let mut m = owned("unsupported lockfile version ");
            m.append(self.version.as_str());
            return Err(m);
        }
        match check_cases(&self.case) {
            Some(m) => {
                return Err(m);
            },
            None => {},
        }
        match check_rows(&self.generated) {
            Some(m) => {
                return Err(m);
            },
            None => {},
        }
        let tags = collect_tags(&self.case, &self.generated);
        let lone = unpaired_positive_features(&tags);
        assert(views(lone@).len() == lone@.len());
        if lone.len() > 0 {
            return Err(unpaired_message(&lone));
        }
        Ok(named_features(&tags))
    }

    /// The generated row that a case belongs to: the one with the longest
    /// prefix that the name stands under.
    pub fn prefix_of(&self, case: &str) -> (r: Option<&GeneratedEntry>)
        ensures
            match r {
                Some(g) => row_of(self@.generated, case@) >= 0 && g@
                    == self@.generated[row_of(self@.generated, case@)],
                None => row_of(self@.generated, case@) < 0,
            },
    {
        match find_row(&self.generated, case) {
            Some(i) => {
                assert(self@.generated[i as int] == self.generated@[i as int]@);
                Some(&self.generated[i])
            },
            None => None,
        }
    }

    /// The names of the cases.
    pub(crate) fn case_names(&self) -> (r: Vec<String>)
        ensures
            views(r@) == entry_names(self@.case),
    {
        let mut r: Vec<String> = Vec::new();
        for i in 0..self.case.len()
            invariant
                r@.len() == i,
                forall|k: int| 0 <= k < i ==> (#[trigger] r@[k])@ == self.case@[k]@.name.text(),
        {
            r.push(self.case[i].name.as_str());
        }
        assert(views(r@) =~= entry_names(self@.case));
        r
    }

    fn check_report<S: Text>(
        &self,
        cases: &[String],
        reported: &[S],
        known: &[String],
        i: usize,
    ) -> (r: Option<String>)
        requires
            i < reported@.len(),
            views(cases@) == entry_names(self@.case),
            views(known@) == texts(reported@).take(i as int),
        ensures
            opt_text(r) == report_fault(self@, texts(reported@), i as int),
    {
        let name = reported[i].as_text();
        assert(texts(reported@)[i as int] == name@);
        if among(known, name) {
            let mut m = owned("case `");
            m.append(name);
            m.append("` reported more than once");
            return Some(m);
        }
        if among(cases, name) {
            return None;
        }
        match find_row(&self.generated, name) {
            None => {
                let mut m = owned("case `");
                m.append(name);
                m.append("` is not in the lockfile");
                Some(m)
            },
            Some(k) => {
                proof {
                    law_longest_prefix(self@.generated, name@, self@.generated.len() as int);
                }
                match CaseName::parse(name) {
                    Err(e) => {
                        let mut m = owned("`");
                        m.append(name);
                        m.append("` is not a valid case name: ");
                        m.append(e.to_string().as_str());
                        Some(m)
                    },
                    Ok(_) => {
                        let row = &self.generated[k];
                        assert(self@.generated[k as int] == row@);
                        if row.cases.len() > 0 && !among(
                            &row.cases,
                            leaf_below(name, row.prefix.as_str()).as_str(),
                        ) {
                            assert(row@.cases.len() > 0);
                            let mut m = owned("case `");
                            m.append(name);
                            m.append("` is no pinned leaf of generated `");
                            m.append(row.prefix.as_str());
                            m.append("`");
                            Some(m)
                        } else {
                            assert(row@.cases.len() == row.cases@.len());
                            None
                        }
                    },
                }
            },
        }
    }

    fn wanted(&self) -> (r: Vec<String>)
        ensures
            views(r@) == wanted_names(self@),
    {
        let mut r = self.case_names();
        let ghost base = views(r@);
        let ghost rs = self@.generated;
        let mut i: usize = 0;
        assert(views(r@) =~= base + all_pinned(rs, 0));
        while i < self.generated.len()
            invariant
                i <= self.generated@.len(),
                rs == self@.generated,
                views(r@) == base + all_pinned(rs, i as int),
            decreases self.generated.len() - i,
        {
            let row = &self.generated[i];
            assert(rs[i as int] == row@);
            let ghost done = all_pinned(rs, i as int);
            let ghost mine = pinned(row@);
            let mut k: usize = 0;
            assert(views(r@) =~= base + (done + mine.take(0)));
            while k < row.cases.len()
                invariant
                    k <= row.cases@.len(),
                    mine == pinned(row@),
                    views(r@) == base + (done + mine.take(k as int)),
                decreases row.cases.len() - k,
            {
                let name = under_prefix(row.prefix.as_str(), row.cases[k].as_str());
                assert(name@ == mine[k as int]);
                let ghost was = views(r@);
                r.push(name);
                assert(views(r@) =~= was.push(mine[k as int]));
                assert(was.push(mine[k as int]) =~= base + (done + mine.take(k + 1)));
                k += 1;
            }
            assert(mine.take(k as int) =~= mine);
            i += 1;
        }
        r
    }

    /// Check the names that a run reported: every case exactly once, and of
    /// a generated row names under its prefix (all of them where they are
    /// pinned).
    pub fn check_coverage<S: Text>(&self, reported: &[S]) -> (r: Result<(), String>)
        ensures
            match r {
                Ok(_) => coverage_fault(self@, texts(reported@)) is None,
                Err(e) => coverage_fault(self@, texts(reported@)) == Some(e@),
            },
    {
        let ghost names = texts(reported@);
        let cases = self.case_names();
        let mut known: Vec<String> = Vec::new();
        let mut i: usize = 0;
        assert(views(known@) =~= names.take(0));
        while i < reported.len()
            invariant
                i <= reported@.len(),
                names == texts(reported@),
                views(cases@) == entry_names(self@.case),
                views(known@) == names.take(i as int),
                reports_fault(self@, names, 0) == reports_fault(self@, names, i as int),
            decreases reported.len() - i,
        {
            match self.check_report(&cases, reported, &known, i) {
                Some(m) => {
                    return Err(m);
                },
                None => {},
            }
            let ghost was = views(known@);
            let name = reported[i].as_text();
            assert(names[i as int] == name@);
            known.push(owned(name));
            assert(views(known@) =~= was.push(name@));
            assert(names.take(i + 1) =~= names.take(i as int).push(names[i as int]));
            i += 1;
        }
        let wanted = self.wanted();
        let ghost ws = views(wanted@);
        let mut missing: Vec<String> = Vec::new();
        let mut k: usize = 0;
        assert(views(missing@) =~= absent(ws.take(0), names));
        while k < wanted.len()
            invariant
                k <= wanted@.len(),
                ws == views(wanted@),
                names == texts(reported@),
                views(missing@) == absent(ws.take(k as int), names),
            decreases wanted.len() - k,
        {
            assert(ws.take(k + 1).drop_last() =~= ws.take(k as int));
            assert(ws.take(k + 1).last() == wanted@[k as int]@);
            if !listed(reported, wanted[k].as_str()) {
                let ghost was = views(missing@);
                missing.push(wanted[k].clone());
                assert(views(missing@) =~= was.push(wanted@[k as int]@));
            }
            k += 1;
        }
        assert(ws.take(k as int) =~= ws);
        assert(views(missing@).len() == missing@.len());
        if missing.len() > 0 {
            let mut m = owned("no result for case(s): ");
            m.append(join_texts(&missing, ", ").as_str());
            return Err(m);
        }
        Ok(())
    }
}

// ---------------------------------------------------------------------
// Laws
// ---------------------------------------------------------------------

/// Is a name a prefix, a slash, and something below them?
pub open spec fn hangs_from(name: Seq<char>, prefix: Seq<char>) -> bool {
    prefix.len() < name.len() && name.take(prefix.len() as int) == prefix && name[prefix.len() as int]
        == '/'
}

/// Is the `r`-th row the closest one that a name hangs from?
pub open spec fn closest_row(rows: Seq<RowView>, name: Seq<char>, r: int) -> bool {
    &&& 0 <= r < rows.len()
    &&& hangs_from(name, rows[r].prefix)
    &&& forall|i: int|
        0 <= i < rows.len() && i != r && hangs_from(name, (#[trigger] rows[i]).prefix)
            ==> rows[i].prefix.len() < rows[r].prefix.len()
}

/// Does no row have a prefix that another has?
pub open spec fn rows_apart(rows: Seq<RowView>) -> bool {
    forall|i: int, j: int|
        0 <= i < j < rows.len() ==> (#[trigger] rows[i]).prefix != (#[trigger] rows[j]).prefix
}

/// Does no case have a name that another has?
pub open spec fn cases_apart(cases: Seq<EntryView>) -> bool {
    forall|i: int, j: int|
        0 <= i < j < cases.len() ==> (#[trigger] cases[i]).name.text() != (
        #[trigger] cases[j]).name.text()
}

/// Does a case of the list have that name?
pub open spec fn names_case(cases: Seq<EntryView>, name: Seq<char>) -> bool {
    exists|i: int| 0 <= i < cases.len() && (#[trigger] cases[i]).name.text() == name
}

/// Are these the marks recorded for a name: those of the case that has it, or
/// else those of the closest row that it hangs from?
pub open spec fn records(
    cases: Seq<EntryView>,
    rows: Seq<RowView>,
    name: Seq<char>,
    ms: Seq<MarkView>,
) -> bool {
    ||| exists|i: int|
        0 <= i < cases.len() && (#[trigger] cases[i]).name.text() == name && cases[i].tags == ms
    ||| !names_case(cases, name) && exists|r: int| #[trigger]
        closest_row(rows, name, r) && rows[r].tags == ms
}

proof fn lemma_under(name: Seq<char>, prefix: Seq<char>)
    ensures
        under(name, prefix) <==> hangs_from(name, prefix),
{
    let n = prefix.len() as int;
    if hangs_from(name, prefix) {
        assert(name.subrange(0, n + 1) =~= prefix.push('/')) by {
            assert(name.take(n)[n - 1] == name[n - 1] || n == 0);
            assert forall|k: int| 0 <= k < n implies name[k] == prefix[k] by {
                assert(name.take(n)[k] == prefix[k]);
            }
        }
    }
    if under(name, prefix) {
        let s = name.subrange(0, prefix.push('/').len() as int);
        assert(s == prefix.push('/'));
        assert forall|k: int| 0 <= k < n implies name.take(n)[k] == prefix[k] by {
            assert(s[k] == prefix.push('/')[k]);
        }
        assert(name.take(n) =~= prefix);
        assert(s[n] == '/');
    }
}

proof fn lemma_longer(name: Seq<char>, a: Seq<char>, b: Seq<char>)
    requires
        hangs_from(name, a),
        hangs_from(name, b),
    ensures
        byte_len(a) <= byte_len(b) <==> a.len() <= b.len(),
        a.len() == b.len() ==> a == b,
{
    if a.len() <= b.len() {
        let rest = b.skip(a.len() as int);
        assert(b =~= a + rest) by {
            assert forall|k: int| 0 <= k < a.len() implies a[k] == b[k] by {
                assert(name.take(a.len() as int)[k] == name.take(b.len() as int)[k]);
            }
        }
        crate::name::lemma_encode_concat(a, rest);
    } else {
        let rest = a.skip(b.len() as int);
        assert(a =~= b + rest) by {
            assert forall|k: int| 0 <= k < b.len() implies a[k] == b[k] by {
                assert(name.take(a.len() as int)[k] == name.take(b.len() as int)[k]);
            }
        }
        crate::name::lemma_encode_concat(b, rest);
        assert(rest.len() > 0);
        assert(byte_len(rest) > 0);
    }
}

/// A name belongs to the closest row that it hangs from, and to none where it
/// hangs from none.
pub proof fn law_name_belongs_to_closest_row(rows: Seq<RowView>, name: Seq<char>)
    requires
        rows_apart(rows),
    ensures
        row_of(rows, name) >= 0 ==> closest_row(rows, name, row_of(rows, name)),
        forall|r: int| #[trigger] closest_row(rows, name, r) ==> row_of(rows, name) == r,
        row_of(rows, name) < 0 <==> forall|i: int|
            0 <= i < rows.len() ==> !hangs_from(name, (#[trigger] rows[i]).prefix),
{
    let n = rows.len() as int;
    let b = row_of(rows, name);
    law_longest_prefix(rows, name, n);
    assert forall|i: int| 0 <= i < n implies under(name, (#[trigger] rows[i]).prefix)
        == hangs_from(name, rows[i].prefix) by {
        lemma_under(name, rows[i].prefix);
    }
    if b >= 0 {
        assert forall|i: int|
            0 <= i < n && i != b && hangs_from(name, (#[trigger] rows[i]).prefix) implies
            rows[i].prefix.len() < rows[b].prefix.len() by {
            lemma_longer(name, rows[i].prefix, rows[b].prefix);
            if i < b {
                assert(rows[i].prefix != rows[b].prefix);
            } else {
                assert(rows[b].prefix != rows[i].prefix);
            }
        }
    }
    assert forall|r: int| #[trigger] closest_row(rows, name, r) implies b == r by {
        assert(under(name, rows[r].prefix));
        if b != r {
            assert(hangs_from(name, rows[b].prefix));
        }
    }
}

proof fn lemma_cases_sound(cases: Seq<EntryView>, i: int)
    requires
        0 <= i <= cases.len(),
    ensures
        cases_fault(cases, i) is None <==> forall|k: int|
            i <= k < cases.len() ==> #[trigger] case_fault(cases, k) is None,
    decreases cases.len() - i,
{
    if i < cases.len() {
        lemma_cases_sound(cases, i + 1);
        if cases_fault(cases, i + 1) is None && case_fault(cases, i) is None {
            assert(forall|k: int| i + 1 <= k < cases.len() ==> #[trigger] case_fault(cases, k) is None);
        }
    }
}

proof fn lemma_rows_sound(rows: Seq<RowView>, i: int)
    requires
        0 <= i <= rows.len(),
    ensures
        rows_fault(rows, i) is None <==> forall|k: int|
            i <= k < rows.len() ==> #[trigger] row_fault(rows, k) is None,
    decreases rows.len() - i,
{
    if i < rows.len() {
        lemma_rows_sound(rows, i + 1);
        if rows_fault(rows, i + 1) is None && row_fault(rows, i) is None {
            assert(forall|k: int| i + 1 <= k < rows.len() ==> #[trigger] row_fault(rows, k) is None);
        }
    }
}

pub(crate) proof fn lemma_prefix_sound(prefix: Seq<char>, i: int)
    requires
        0 <= i <= split(prefix, '/').len(),
    ensures
        prefix_fault(prefix, i) is None <==> forall|k: int|
            i <= k < split(prefix, '/').len() ==> is_label(#[trigger] split(prefix, '/')[k]),
    decreases split(prefix, '/').len() - i,
{
    let ss = split(prefix, '/');
    if i < ss.len() {
        lemma_prefix_sound(prefix, i + 1);
        law_label_fault(ss[i]);
    }
}

proof fn lemma_leaves_sound(row: RowView, i: int)
    requires
        0 <= i <= row.cases.len(),
    ensures
        leaves_fault(row, i) is None <==> forall|k: int|
            i <= k < row.cases.len() ==> is_case_name(row.prefix.push('/') + #[trigger] row.cases[k])
                && !row.cases.take(k).contains(row.cases[k]),
    decreases row.cases.len() - i,
{
    if i < row.cases.len() {
        lemma_leaves_sound(row, i + 1);
        law_name_fault(row.prefix.push('/') + row.cases[i]);
    }
}

/// Is a row sound by itself: its prefix is made of labels, no feature is
/// marked twice, and its leaves are case names below the prefix, each once?
pub open spec fn row_is_sound(row: RowView) -> bool {
    &&& forall|k: int|
        0 <= k < split(row.prefix, '/').len() ==> is_label(#[trigger] split(row.prefix, '/')[k])
    &&& is_mark_set(row.tags)
    &&& row.cases.no_duplicates()
    &&& forall|k: int|
        0 <= k < row.cases.len() ==> is_case_name(
            row.prefix.push('/') + #[trigger] row.cases[k],
        )
}

/// Is a mark among those of a case or a row?
pub open spec fn marks_somewhere(l: LockView, m: MarkView) -> bool {
    ||| exists|i: int| 0 <= i < l.case.len() && (#[trigger] l.case[i]).tags.contains(m)
    ||| exists|i: int| 0 <= i < l.generated.len() && (#[trigger] l.generated[i]).tags.contains(m)
}

/// Is a lockfile sound: of the known version, no case and no row twice, every
/// mark set and every row sound, and every feature that something requires
/// declined by something?
pub open spec fn lock_is_sound(l: LockView) -> bool {
    &&& l.version == "0.1"@
    &&& cases_apart(l.case)
    &&& forall|i: int| 0 <= i < l.case.len() ==> is_mark_set((#[trigger] l.case[i]).tags)
    &&& rows_apart(l.generated)
    &&& forall|i: int| 0 <= i < l.generated.len() ==> row_is_sound(#[trigger] l.generated[i])
    &&& forall|f: Seq<char>| #[trigger]
        marks_somewhere(l, MarkView { feature: f, negative: false }) ==> marks_somewhere(
            l,
            MarkView { feature: f, negative: true },
        )
}

proof fn lemma_case_marks_in(cases: Seq<EntryView>, n: int, m: MarkView)
    requires
        0 <= n <= cases.len(),
    ensures
        case_marks(cases, n).contains(m) <==> exists|i: int|
            0 <= i < n && (#[trigger] cases[i]).tags.contains(m),
    decreases n,
{
    if n > 0 {
        lemma_case_marks_in(cases, n - 1, m);
        lemma_contains_sum(case_marks(cases, n - 1), cases[n - 1].tags, m);
    }
}

proof fn lemma_row_marks_in(rows: Seq<RowView>, n: int, m: MarkView)
    requires
        0 <= n <= rows.len(),
    ensures
        row_marks(rows, n).contains(m) <==> exists|i: int|
            0 <= i < n && (#[trigger] rows[i]).tags.contains(m),
    decreases n,
{
    if n > 0 {
        lemma_row_marks_in(rows, n - 1, m);
        lemma_contains_sum(row_marks(rows, n - 1), rows[n - 1].tags, m);
    }
}

pub(crate) proof fn lemma_contains_sum<A>(a: Seq<A>, b: Seq<A>, x: A)
    ensures
        (a + b).contains(x) <==> a.contains(x) || b.contains(x),
{
    let s = a + b;
    if a.contains(x) {
        let i = choose|i: int| 0 <= i < a.len() && a[i] == x;
        assert(s[i] == x);
    }
    if b.contains(x) {
        let i = choose|i: int| 0 <= i < b.len() && b[i] == x;
        assert(s[a.len() + i] == x);
    }
    if s.contains(x) {
        let i = choose|i: int| 0 <= i < s.len() && s[i] == x;
        if i < a.len() {
            assert(a[i] == x);
        } else {
            assert(b[i - a.len()] == x);
        }
    }
}

/// A mark is among those of the inventory exactly where a case or a row has
/// it.
pub proof fn law_all_marks(l: LockView, m: MarkView)
    ensures
        all_marks(l.case, l.generated).contains(m) <==> marks_somewhere(l, m),
{
    lemma_case_marks_in(l.case, l.case.len() as int, m);
    lemma_row_marks_in(l.generated, l.generated.len() as int, m);
    lemma_contains_sum(
        case_marks(l.case, l.case.len() as int),
        row_marks(l.generated, l.generated.len() as int),
        m,
    );
}

/// A lockfile without a fault is a sound one, and the other way round.
pub proof fn law_lock_fault(l: LockView)
    ensures
        lock_fault(l) is None <==> lock_is_sound(l),
{
    let names = entry_names(l.case);
    let prefixes = row_prefixes(l.generated);
    lemma_cases_sound(l.case, 0);
    lemma_rows_sound(l.generated, 0);
    assert forall|k: int| 0 <= k < l.case.len() implies (#[trigger] case_fault(l.case, k) is None
        <==> !names.take(k).contains(names[k]) && is_mark_set(l.case[k].tags)) by {
        law_mark_set_fault(l.case[k].tags);
    }
    assert forall|k: int| 0 <= k < l.generated.len() implies (#[trigger] row_fault(
        l.generated,
        k,
    ) is None <==> !prefixes.take(k).contains(prefixes[k]) && row_is_sound(l.generated[k])) by {
        let row = l.generated[k];
        law_mark_set_fault(row.tags);
        lemma_prefix_sound(row.prefix, 0);
        lemma_leaves_sound(row, 0);
        lemma_once(row.cases);
    }
    lemma_once(names);
    lemma_once(prefixes);
    assert(cases_apart(l.case) <==> names.no_duplicates()) by {
        if cases_apart(l.case) {
            assert forall|i: int, j: int|
                0 <= i < names.len() && 0 <= j < names.len() && i != j implies names[i]
                != names[j] by {
                if i < j {
                    assert(l.case[i].name.text() != l.case[j].name.text());
                } else {
                    assert(l.case[j].name.text() != l.case[i].name.text());
                }
            }
        }
        if names.no_duplicates() {
            assert forall|i: int, j: int| 0 <= i < j < l.case.len() implies (
            #[trigger] l.case[i]).name.text() != (#[trigger] l.case[j]).name.text() by {
                assert(names[i] != names[j]);
            }
        }
    }
    assert(rows_apart(l.generated) <==> prefixes.no_duplicates()) by {
        if rows_apart(l.generated) {
            assert forall|i: int, j: int|
                0 <= i < prefixes.len() && 0 <= j < prefixes.len() && i != j implies prefixes[i]
                != prefixes[j] by {
                if i < j {
                    assert(l.generated[i].prefix != l.generated[j].prefix);
                } else {
                    assert(l.generated[j].prefix != l.generated[i].prefix);
                }
            }
        }
        if prefixes.no_duplicates() {
            assert forall|i: int, j: int| 0 <= i < j < l.generated.len() implies (
            #[trigger] l.generated[i]).prefix != (#[trigger] l.generated[j]).prefix by {
                assert(prefixes[i] != prefixes[j]);
            }
        }
    }
    let cases_fine = forall|k: int|
        0 <= k < l.case.len() ==> #[trigger] case_fault(l.case, k) is None;
    assert(cases_fine <==> cases_apart(l.case) && forall|i: int|
        0 <= i < l.case.len() ==> is_mark_set((#[trigger] l.case[i]).tags)) by {
        if cases_fine {
            assert forall|k: int| 0 <= k < names.len() implies !names.take(k).contains(
                #[trigger] names[k],
            ) by {
                assert(case_fault(l.case, k) is None);
            }
            assert forall|k: int| 0 <= k < l.case.len() implies is_mark_set(
                (#[trigger] l.case[k]).tags,
            ) by {
                assert(case_fault(l.case, k) is None);
            }
        }
    }
    let rows_fine = forall|k: int|
        0 <= k < l.generated.len() ==> #[trigger] row_fault(l.generated, k) is None;
    assert(rows_fine <==> rows_apart(l.generated) && forall|i: int|
        0 <= i < l.generated.len() ==> row_is_sound(#[trigger] l.generated[i])) by {
        if rows_fine {
            assert forall|k: int| 0 <= k < prefixes.len() implies !prefixes.take(k).contains(
                #[trigger] prefixes[k],
            ) by {
                assert(row_fault(l.generated, k) is None);
            }
            assert forall|k: int| 0 <= k < l.generated.len() implies row_is_sound(
                #[trigger] l.generated[k],
            ) by {
                assert(row_fault(l.generated, k) is None);
            }
        }
    }
    let ms = all_marks(l.case, l.generated);
    law_unpaired(ms);
    assert(unpaired(ms).len() == 0 <==> forall|f: Seq<char>| #[trigger]
        marks_somewhere(l, MarkView { feature: f, negative: false }) ==> marks_somewhere(
            l,
            MarkView { feature: f, negative: true },
        )) by {
        assert forall|f: Seq<char>, neg: bool|
            ms.contains(MarkView { feature: f, negative: neg }) == #[trigger] marks_somewhere(
                l,
                MarkView { feature: f, negative: neg },
            ) by {
            law_all_marks(l, MarkView { feature: f, negative: neg });
        }
        if unpaired(ms).len() > 0 {
            let f = unpaired(ms)[0];
            assert(unpaired(ms).contains(f));
            assert(marks_somewhere(l, MarkView { feature: f, negative: false }));
            assert(!marks_somewhere(l, MarkView { feature: f, negative: true }));
        } else {
            assert forall|f: Seq<char>| #[trigger]
                marks_somewhere(l, MarkView { feature: f, negative: false }) implies marks_somewhere(
                l,
                MarkView { feature: f, negative: true },
            ) by {
                assert(!unpaired(ms).contains(f));
            }
        }
    }
}

pub(crate) proof fn lemma_once<A>(s: Seq<A>)
    ensures
        s.no_duplicates() <==> forall|k: int|
            0 <= k < s.len() ==> !s.take(k).contains(#[trigger] s[k]),
{
    if s.no_duplicates() {
        assert forall|k: int| 0 <= k < s.len() implies !s.take(k).contains(#[trigger] s[k]) by {
            if s.take(k).contains(s[k]) {
                let i = choose|i: int| 0 <= i < k && s.take(k)[i] == s[k];
                assert(s[i] == s[k]);
            }
        }
    }
    if forall|k: int| 0 <= k < s.len() ==> !s.take(k).contains(#[trigger] s[k]) {
        assert forall|i: int, j: int| 0 <= i < s.len() && 0 <= j < s.len() && i != j implies s[i]
            != s[j] by {
            if s[i] == s[j] {
                if i < j {
                    assert(s.take(j)[i] == s[j]);
                } else {
                    assert(s.take(i)[j] == s[i]);
                }
            }
        }
    }
}

/// May a case of that name be reported: is it a case of the lockfile, or a
/// proper case name below a row, one of its leaves where those are pinned?
pub open spec fn may_be_reported(l: LockView, name: Seq<char>) -> bool {
    names_case(l.case, name) || (is_case_name(name) && exists|r: int| #[trigger]
        closest_row(l.generated, name, r) && (l.generated[r].cases.len() == 0
            || l.generated[r].cases.contains(name.skip(l.generated[r].prefix.len() as int + 1))))
}

/// Is a name one that has to be reported: a case of the lockfile, or a pinned
/// leaf below its row?
pub open spec fn must_be_reported(l: LockView, name: Seq<char>) -> bool {
    names_case(l.case, name) || exists|r: int, k: int|
        0 <= r < l.generated.len() && 0 <= k < l.generated[r].cases.len() && name
            == l.generated[r].prefix.push('/') + #[trigger] l.generated[r].cases[k]
}

proof fn lemma_all_pinned(rows: Seq<RowView>, n: int, name: Seq<char>)
    requires
        0 <= n <= rows.len(),
    ensures
        all_pinned(rows, n).contains(name) <==> exists|r: int, k: int|
            0 <= r < n && 0 <= k < rows[r].cases.len() && name == rows[r].prefix.push('/')
                + #[trigger] rows[r].cases[k],
    decreases n,
{
    if n > 0 {
        lemma_all_pinned(rows, n - 1, name);
        let mine = pinned(rows[n - 1]);
        lemma_contains_sum(all_pinned(rows, n - 1), mine, name);
        if mine.contains(name) {
            let k = choose|k: int| 0 <= k < mine.len() && mine[k] == name;
            assert(name == rows[n - 1].prefix.push('/') + rows[n - 1].cases[k]);
        }
        if exists|r: int, k: int|
            0 <= r < n && 0 <= k < rows[r].cases.len() && name == rows[r].prefix.push('/')
                + #[trigger] rows[r].cases[k] {
            let (r, k) = choose|r: int, k: int|
                0 <= r < n && 0 <= k < rows[r].cases.len() && name == rows[r].prefix.push('/')
                    + #[trigger] rows[r].cases[k];
            if r == n - 1 {
                assert(mine[k] == name);
            }
        }
    }
}

pub(crate) proof fn lemma_names_case(cases: Seq<EntryView>, name: Seq<char>)
    ensures
        entry_names(cases).contains(name) <==> names_case(cases, name),
{
    let ns = entry_names(cases);
    if ns.contains(name) {
        let i = choose|i: int| 0 <= i < ns.len() && ns[i] == name;
        assert(cases[i].name.text() == name);
    }
    if names_case(cases, name) {
        let i = choose|i: int| 0 <= i < cases.len() && (#[trigger] cases[i]).name.text() == name;
        assert(ns[i] == name);
    }
}

/// The names that coverage wants are those that have to be reported.
pub proof fn law_wanted_names(l: LockView, name: Seq<char>)
    ensures
        wanted_names(l).contains(name) <==> must_be_reported(l, name),
{
    lemma_names_case(l.case, name);
    lemma_all_pinned(l.generated, l.generated.len() as int, name);
    lemma_contains_sum(
        entry_names(l.case),
        all_pinned(l.generated, l.generated.len() as int),
        name,
    );
}

proof fn lemma_reports_sound(l: LockView, names: Seq<Seq<char>>, i: int)
    requires
        0 <= i <= names.len(),
    ensures
        reports_fault(l, names, i) is None <==> forall|k: int|
            i <= k < names.len() ==> #[trigger] report_fault(l, names, k) is None,
    decreases names.len() - i,
{
    if i < names.len() {
        lemma_reports_sound(l, names, i + 1);
        if reports_fault(l, names, i + 1) is None && report_fault(l, names, i) is None {
            assert(forall|k: int|
                i + 1 <= k < names.len() ==> #[trigger] report_fault(l, names, k) is None);
        }
    }
}

pub(crate) proof fn lemma_absent_none(wanted: Seq<Seq<char>>, names: Seq<Seq<char>>)
    ensures
        absent(wanted, names).len() == 0 <==> forall|i: int|
            0 <= i < wanted.len() ==> names.contains(#[trigger] wanted[i]),
    decreases wanted.len(),
{
    if wanted.len() > 0 {
        let init = wanted.drop_last();
        lemma_absent_none(init, names);
        if forall|i: int| 0 <= i < wanted.len() ==> names.contains(#[trigger] wanted[i]) {
            assert forall|i: int| 0 <= i < init.len() implies names.contains(#[trigger] init[i]) by {
                assert(init[i] == wanted[i]);
            }
            assert(names.contains(wanted[wanted.len() - 1]));
        }
        if absent(wanted, names).len() == 0 {
            assert forall|i: int| 0 <= i < wanted.len() implies names.contains(
                #[trigger] wanted[i],
            ) by {
                if i < init.len() {
                    assert(names.contains(init[i]));
                }
            }
        }
    }
}

/// Coverage has no fault exactly where every case is reported that has to be,
/// no other than may be, and none twice.
pub proof fn law_coverage_fault(l: LockView, names: Seq<Seq<char>>)
    requires
        rows_apart(l.generated),
    ensures
        coverage_fault(l, names) is None <==> {
            &&& names.no_duplicates()
            &&& forall|i: int| 0 <= i < names.len() ==> may_be_reported(l, #[trigger] names[i])
            &&& forall|name: Seq<char>| #[trigger]
                must_be_reported(l, name) ==> names.contains(name)
        },
{
    lemma_reports_sound(l, names, 0);
    lemma_once(names);
    let wanted = wanted_names(l);
    lemma_absent_none(wanted, names);
    assert forall|k: int| 0 <= k < names.len() implies (#[trigger] report_fault(l, names, k) is None
        <==> !names.take(k).contains(names[k]) && may_be_reported(l, names[k])) by {
        let name = names[k];
        lemma_names_case(l.case, name);
        law_name_belongs_to_closest_row(l.generated, name);
        law_name_fault(name);
        let row = row_of(l.generated, name);
        if row >= 0 {
            assert(closest_row(l.generated, name, row));
        }
    }
    if forall|k: int| 0 <= k < names.len() ==> #[trigger] report_fault(l, names, k) is None {
        assert forall|k: int| 0 <= k < names.len() implies !names.take(k).contains(
            #[trigger] names[k],
        ) && may_be_reported(l, names[k]) by {
            assert(report_fault(l, names, k) is None);
        }
    }
    assert((forall|i: int| 0 <= i < wanted.len() ==> names.contains(#[trigger] wanted[i]))
        <==> forall|name: Seq<char>| #[trigger]
        must_be_reported(l, name) ==> names.contains(name)) by {
        if forall|i: int| 0 <= i < wanted.len() ==> names.contains(#[trigger] wanted[i]) {
            assert forall|name: Seq<char>| #[trigger] must_be_reported(l, name) implies names.contains(
                name,
            ) by {
                law_wanted_names(l, name);
                let i = choose|i: int| 0 <= i < wanted.len() && wanted[i] == name;
                assert(names.contains(wanted[i]));
            }
        }
        if forall|name: Seq<char>| #[trigger] must_be_reported(l, name) ==> names.contains(name) {
            assert forall|i: int| 0 <= i < wanted.len() implies names.contains(
                #[trigger] wanted[i],
            ) by {
                law_wanted_names(l, wanted[i]);
                assert(must_be_reported(l, wanted[i]));
            }
        }
    }
}

/// What was not reported is every wanted name that the report does not hold,
/// in order.
pub proof fn law_absent(wanted: Seq<Seq<char>>, names: Seq<Seq<char>>)
    ensures
        absent(wanted, names) == wanted.filter(|w: Seq<char>| !names.contains(w)),
    decreases wanted.len(),
{
    reveal(Seq::filter);
    if wanted.len() > 0 {
        law_absent(wanted.drop_last(), names);
    }
}

/// Is the `i`-th report the first that is at fault, and is this what is told
/// of it?
pub open spec fn is_first_bad_report(
    l: LockView,
    names: Seq<Seq<char>>,
    i: int,
    f: Seq<char>,
) -> bool {
    &&& 0 <= i < names.len()
    &&& report_fault(l, names, i) == Some(f)
    &&& forall|k: int| 0 <= k < i ==> #[trigger] report_fault(l, names, k) is None
}

proof fn lemma_reports_say(l: LockView, names: Seq<Seq<char>>, i: int)
    requires
        0 <= i <= names.len(),
        forall|k: int| 0 <= k < i ==> #[trigger] report_fault(l, names, k) is None,
    ensures
        match reports_fault(l, names, i) {
            Some(f) => exists|k: int| #[trigger] is_first_bad_report(l, names, k, f),
            None => forall|k: int|
                0 <= k < names.len() ==> #[trigger] report_fault(l, names, k) is None,
        },
    decreases names.len() - i,
{
    if i < names.len() {
        match report_fault(l, names, i) {
            Some(f) => {
                assert(is_first_bad_report(l, names, i, f));
            },
            None => {
                lemma_reports_say(l, names, i + 1);
            },
        }
    }
}

/// A report is at fault by its first name that is, and where none is by every
/// name that it leaves out.
pub proof fn law_coverage_fault_says(l: LockView, names: Seq<Seq<char>>)
    ensures
        match coverage_fault(l, names) {
            Some(f) => if exists|k: int|
                0 <= k < names.len() && #[trigger] report_fault(l, names, k) is Some {
                exists|k: int| #[trigger] is_first_bad_report(l, names, k, f)
            } else {
                f == "no result for case(s): "@ + join(
                    wanted_names(l).filter(|w: Seq<char>| !names.contains(w)),
                    ", "@,
                )
            },
            None => true,
        },
{
    lemma_reports_say(l, names, 0);
    law_absent(wanted_names(l), names);
    if exists|k: int| 0 <= k < names.len() && #[trigger] report_fault(l, names, k) is Some {
        assert(reports_fault(l, names, 0) is Some);
    }
}

/// A name that comes again is told as such; one that is neither a case nor
/// hangs from a row is told to be unknown.
pub proof fn law_report_fault_says(l: LockView, names: Seq<Seq<char>>, i: int)
    requires
        0 <= i < names.len(),
    ensures
        (exists|k: int| 0 <= k < i && #[trigger] names[k] == names[i]) ==> report_fault(l, names, i)
            == Some("case `"@ + names[i] + "` reported more than once"@),
        (forall|k: int| 0 <= k < i ==> #[trigger] names[k] != names[i]) && (forall|c: int|
            0 <= c < l.case.len() ==> (#[trigger] l.case[c]).name.text() != names[i]) && (forall|
            r: int,
        |
            0 <= r < l.generated.len() ==> !under(names[i], (#[trigger] l.generated[r]).prefix))
            ==> report_fault(l, names, i) == Some(
            "case `"@ + names[i] + "` is not in the lockfile"@,
        ),
{
    let earlier = names.take(i);
    if exists|k: int| 0 <= k < i && #[trigger] names[k] == names[i] {
        let k = choose|k: int| 0 <= k < i && #[trigger] names[k] == names[i];
        assert(earlier[k] == names[i]);
    }
    if (forall|k: int| 0 <= k < i ==> #[trigger] names[k] != names[i]) && (forall|c: int|
        0 <= c < l.case.len() ==> (#[trigger] l.case[c]).name.text() != names[i]) && (forall|r: int|
        0 <= r < l.generated.len() ==> !under(names[i], (#[trigger] l.generated[r]).prefix)) {
        if earlier.contains(names[i]) {
            let k = choose|k: int| 0 <= k < earlier.len() && earlier[k] == names[i];
            assert(names[k] == names[i]);
        }
        let known = entry_names(l.case);
        if known.contains(names[i]) {
            let c = choose|c: int| 0 <= c < known.len() && known[c] == names[i];
            assert(l.case[c].name.text() == names[i]);
        }
        law_longest_prefix(l.generated, names[i], l.generated.len() as int);
        let r = row_of(l.generated, names[i]);
        if r >= 0 {
            assert(under(names[i], l.generated[r].prefix));
        }
    }
}

/// Is this the first case at fault?
pub open spec fn is_first_bad_case(cases: Seq<EntryView>, i: int, f: Seq<char>) -> bool {
    &&& 0 <= i < cases.len()
    &&& case_fault(cases, i) == Some(f)
    &&& forall|k: int| 0 <= k < i ==> #[trigger] case_fault(cases, k) is None
}

/// Is this the first row at fault?
pub open spec fn is_first_bad_row(rows: Seq<RowView>, i: int, f: Seq<char>) -> bool {
    &&& 0 <= i < rows.len()
    &&& row_fault(rows, i) == Some(f)
    &&& forall|k: int| 0 <= k < i ==> #[trigger] row_fault(rows, k) is None
}

proof fn lemma_cases_say(cases: Seq<EntryView>, i: int)
    requires
        0 <= i <= cases.len(),
        forall|k: int| 0 <= k < i ==> #[trigger] case_fault(cases, k) is None,
    ensures
        match cases_fault(cases, i) {
            Some(f) => exists|k: int| #[trigger] is_first_bad_case(cases, k, f),
            None => true,
        },
    decreases cases.len() - i,
{
    if i < cases.len() {
        match case_fault(cases, i) {
            Some(f) => {
                assert(is_first_bad_case(cases, i, f));
            },
            None => {
                lemma_cases_say(cases, i + 1);
            },
        }
    }
}

proof fn lemma_rows_say(rows: Seq<RowView>, i: int)
    requires
        0 <= i <= rows.len(),
        forall|k: int| 0 <= k < i ==> #[trigger] row_fault(rows, k) is None,
    ensures
        match rows_fault(rows, i) {
            Some(f) => exists|k: int| #[trigger] is_first_bad_row(rows, k, f),
            None => true,
        },
    decreases rows.len() - i,
{
    if i < rows.len() {
        match row_fault(rows, i) {
            Some(f) => {
                assert(is_first_bad_row(rows, i, f));
            },
            None => {
                lemma_rows_say(rows, i + 1);
            },
        }
    }
}

/// A lockfile is at fault by its version, or else by its first case, its first
/// row, or the features that nothing declines, in that order.
pub proof fn law_lock_fault_says(l: LockView)
    ensures
        l.version != "0.1"@ ==> lock_fault(l) == Some("unsupported lockfile version "@ + l.version),
        l.version == "0.1"@ ==> match lock_fault(l) {
            Some(f) => if cases_fault(l.case, 0) is Some {
                exists|i: int| #[trigger] is_first_bad_case(l.case, i, f)
            } else if rows_fault(l.generated, 0) is Some {
                exists|i: int| #[trigger] is_first_bad_row(l.generated, i, f)
            } else {
                f == unpaired_text(unpaired(all_marks(l.case, l.generated)))
            },
            None => true,
        },
{
    lemma_cases_say(l.case, 0);
    lemma_rows_say(l.generated, 0);
}

} // verus!
