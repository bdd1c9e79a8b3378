//! Execution-free inventory: find the marks section of a component and read
//! its records, one `name mark...` or `prefix/* mark...` per line.

use vstd::prelude::*;
use vstd::utf8::{decode_utf8, encode_utf8_decode_utf8, encode_utf8, valid_utf8};

use crate::feature::{mark_fault, mark_fault_text, mark_of, mark_set_fault};
use crate::lockfile::{
    check_prefix, entry_views, prefix_fault, row_views, CaseEntry, EntryView, GeneratedEntry,
    RowView,
};
use crate::name::{fault_text, name_before, name_fault, name_lt, parts_of, CaseName, TAGS_SECTION};
use crate::stream::{content_lines, content_lines_of};
use crate::tags::{clone_tags, marks_of, tag_views, tags_fault_text, Tag, Tags};
use crate::text::{among, before, chars_of, owned, same, split, split_text, text_lt, text_of, views};

verus! {

// ---------------------------------------------------------------------
// Sections
// ---------------------------------------------------------------------

/// A payload of a WebAssembly binary: name and contents of a custom section,
/// nothing of any other.
pub type PayloadView = Option<(Seq<char>, Seq<u8>)>;

/// The payloads of a WebAssembly binary, nested modules and components
/// included, in order; or why the bytes are no binary.
pub uninterp spec fn wasm_payloads(wasm: Seq<u8>) -> Result<
    Seq<Option<(Seq<char>, Seq<u8>)>>,
    Seq<char>,
>;

/// The view of a payload.
pub open spec fn payload_view(p: Option<(String, Vec<u8>)>) -> PayloadView {
    match p {
        Some(s) => Some((s.0@, s.1@)),
        None => None,
    }
}

/// The view of a list of payloads.
pub open spec fn payload_views(v: Seq<Option<(String, Vec<u8>)>>) -> Seq<PayloadView> {
    Seq::new(v.len(), |i: int| payload_view(v[i]))
}

/// `wasmparser::Parser::parse_all`, which descends into nested modules and
/// components by itself and stops at the first error. Of each payload it
/// yields, name and contents are kept where it is a custom section; what it
/// yields depends on the bytes alone.
#[verifier::external_body]
fn payloads(wasm: &[u8]) -> (r: Result<Vec<Option<(String, Vec<u8>)>>, String>)
    ensures
        match r {
            Ok(v) => wasm_payloads(wasm@) == Ok::<Seq<PayloadView>, Seq<char>>(payload_views(v@)),
            Err(e) => wasm_payloads(wasm@) == Err::<Seq<PayloadView>, Seq<char>>(e@),
        },
{
    wasmparser::Parser::new(0).parse_all(wasm).map(
        |payload| match payload {
            Ok(wasmparser::Payload::CustomSection(s)) => {
                Ok(Some((s.name().to_string(), s.data().to_vec())))
            },
            Ok(_) => Ok(None),
            Err(e) => Err(e.to_string()),
        },
    ).collect()
}

/// `bytes` with a line feed at their end.
pub open spec fn line_ended(bytes: Seq<u8>) -> Seq<u8> {
    if bytes.len() > 0 && bytes.last() == 10u8 { bytes } else { bytes.push(10u8) }
}

/// The contents of the marks sections, each on lines of its own.
pub open spec fn tags_bytes(payloads: Seq<PayloadView>) -> Seq<u8>
    decreases payloads.len(),
{
    if payloads.len() == 0 {
        Seq::<u8>::empty()
    } else {
        let init = tags_bytes(payloads.drop_last());
        match payloads.last() {
            Some(section) => if section.0 == TAGS_SECTION@ {
                line_ended(init + section.1)
            } else {
                init
            },
            None => init,
        }
    }
}

/// Collect the contents of the marks sections of a component or module,
/// nested ones included. Records end with a line feed even where a section
/// leaves its last one open.
pub fn collect_tags_sections(wasm: &[u8]) -> (r: Result<Vec<u8>, String>)
    ensures
        match r {
            Ok(bytes) => wasm_payloads(wasm@) is Ok && bytes@ == tags_bytes(
                wasm_payloads(wasm@)->Ok_0,
            ),
            Err(e) => wasm_payloads(wasm@) is Err && e@ == "parsing wasm: "@
                + wasm_payloads(wasm@)->Err_0,
        },
{
    match payloads(wasm) {
        Ok(found) => Ok(gather_tags(&found)),
        Err(e) => {
            let mut m = owned("parsing wasm: ");
            m.append(e.as_str());
            Err(m)
        },
    }
}

/// The contents of the marks sections among `payloads`.
pub fn gather_tags(payloads: &[Option<(String, Vec<u8>)>]) -> (r: Vec<u8>)
    ensures
        r@ == tags_bytes(payload_views(payloads@)),
{
    let ghost ps = payload_views(payloads@);
    let mut out: Vec<u8> = Vec::new();
    let mut i: usize = 0;
    assert(out@ =~= tags_bytes(ps.take(0)));
    while i < payloads.len()
        invariant
            i <= payloads@.len(),
            ps == payload_views(payloads@),
            out@ == tags_bytes(ps.take(i as int)),
        decreases payloads.len() - i,
    {
        assert(ps.take(i + 1).drop_last() =~= ps.take(i as int));
        assert(ps.take(i + 1).last() == payload_view(payloads@[i as int]));
        match &payloads[i] {
            Some(section) => {
                if same(section.0.as_str(), TAGS_SECTION) {
                    let ghost was = out@;
                    out.extend_from_slice(&section.1);
                    assert(out@ =~= was + section.1@);
                    if out.len() == 0 || out[out.len() - 1] != 10 {
                        out.push(10);
                    }
                }
            },
            None => {},
        }
        i += 1;
    }
    assert(ps.take(i as int) =~= ps);
    out
}

// ---------------------------------------------------------------------
// Records
// ---------------------------------------------------------------------

/// The inventory that records tell: exact cases, and rows whose leaves are
/// enumerated at run time.
#[derive(Debug, PartialEq, Eq, Default)]
pub struct Inventory {
    pub cases: Vec<CaseEntry>,
    pub generated: Vec<GeneratedEntry>,
}

/// An [`Inventory`] over texts.
#[verifier::ext_equal]
pub struct InventoryView {
    pub cases: Seq<EntryView>,
    pub generated: Seq<RowView>,
}

impl View for Inventory {
    type V = InventoryView;

    open spec fn view(&self) -> InventoryView {
        InventoryView { cases: entry_views(self.cases@), generated: row_views(self.generated@) }
    }
}

/// The pieces that are not empty.
pub open spec fn nonempty(pieces: Seq<Seq<char>>) -> Seq<Seq<char>>
    decreases pieces.len(),
{
    if pieces.len() == 0 {
        Seq::<Seq<char>>::empty()
    } else if pieces.last().len() == 0 {
        nonempty(pieces.drop_last())
    } else {
        nonempty(pieces.drop_last()).push(pieces.last())
    }
}

/// The words of a record: its pieces between spaces.
pub open spec fn record_words(line: Seq<char>) -> Seq<Seq<char>> {
    nonempty(split(line, ' '))
}

/// What is wrong with a record's marks from the `i`-th word on.
pub open spec fn record_mark_fault(words: Seq<Seq<char>>, i: int) -> Option<Seq<char>>
    decreases words.len() - i,
{
    if i < 1 || i >= words.len() {
        None
    } else {
        match mark_fault(words[i]) {
            Some(f) => Some(
                "invalid tag `"@ + words[i] + "` on `"@ + words[0] + "`: "@ + mark_fault_text(f),
            ),
            None => record_mark_fault(words, i + 1),
        }
    }
}

/// Is the record of a generated row?
pub open spec fn is_row_record(name: Seq<char>) -> bool {
    name.len() >= 2 && name[name.len() - 2] == '/' && name[name.len() - 1] == '*'
}

/// The prefix that a row's record names.
pub open spec fn row_prefix(name: Seq<char>) -> Seq<char> {
    name.take(name.len() - 2)
}

/// What has been read so far: the inventory, and the names of its records.
#[verifier::ext_equal]
pub struct Reading {
    pub inventory: InventoryView,
    pub seen: Seq<Seq<char>>,
}

/// What one record does.
pub open spec fn record_step(st: Reading, line: Seq<char>) -> Result<Reading, Seq<char>> {
    let words = record_words(line);
    let name = words[0];
    let marks = marks_of(words.drop_first());
    if words.len() == 0 {
        Err("empty record"@)
    } else {
        match record_mark_fault(words, 1) {
            Some(f) => Err(f),
            None => match mark_set_fault(marks) {
                Some(f) => Err("record `"@ + name + "`: "@ + tags_fault_text(f)),
                None => if st.seen.contains(name) {
                    Err("duplicate record `"@ + name + "` in tags section"@)
                } else if is_row_record(name) {
                    match prefix_fault(row_prefix(name), 0) {
                        Some(f) => Err(f),
                        None => Ok(
                            Reading {
                                inventory: InventoryView {
                                    generated: st.inventory.generated.push(
                                        RowView {
                                            prefix: row_prefix(name),
                                            tags: marks,
                                            cases: Seq::empty(),
                                        },
                                    ),
                                    ..st.inventory
                                },
                                seen: st.seen.push(name),
                            },
                        ),
                    }
                } else {
                    match name_fault(name) {
                        Some(f) => Err(
                            "invalid case name `"@ + name + "` in tags section: "@ + fault_text(f),
                        ),
                        None => Ok(
                            Reading {
                                inventory: InventoryView {
                                    cases: st.inventory.cases.push(
                                        EntryView { name: parts_of(name), tags: marks },
                                    ),
                                    ..st.inventory
                                },
                                seen: st.seen.push(name),
                            },
                        ),
                    }
                },
            },
        }
    }
}

/// What the records from the `i`-th on do.
pub open spec fn records_from(st: Reading, ls: Seq<Seq<char>>, i: int) -> Result<
    Reading,
    Seq<char>,
>
    decreases ls.len() - i,
{
    if i < 0 || i >= ls.len() {
        Ok(st)
    } else {
        match record_step(st, ls[i]) {
            Ok(next) => records_from(next, ls, i + 1),
            Err(e) => Err(e),
        }
    }
}

/// Nothing read yet.
pub open spec fn reading_start() -> Reading {
    Reading {
        inventory: InventoryView { cases: Seq::empty(), generated: Seq::empty() },
        seen: Seq::empty(),
    }
}

/// What `std::str::from_utf8` says of bytes that are no UTF-8.
pub uninterp spec fn utf8_fault(bytes: Seq<u8>) -> Seq<char>;

/// The inventory that the contents of the marks sections tell.
pub open spec fn inventory_of(bytes: Seq<u8>) -> Result<InventoryView, Seq<char>> {
    if !valid_utf8(bytes) {
        Err("tags section is not UTF-8: "@ + utf8_fault(bytes))
    } else {
        match records_from(reading_start(), content_lines(decode_utf8(bytes)), 0) {
            Ok(st) => Ok(st.inventory),
            Err(e) => Err(e),
        }
    }
}

/// `std::str::from_utf8`: the text that the bytes encode, if they are valid
/// UTF-8; otherwise the message of the error, which depends on the bytes
/// alone.
#[verifier::external_body]
fn utf8_text(bytes: &[u8]) -> (r: Result<String, String>)
    ensures
        match r {
            Ok(s) => encode_utf8(s@) == bytes@,
            Err(e) => !valid_utf8(bytes@) && e@ == utf8_fault(bytes@),
        },
{
    match std::str::from_utf8(bytes) {
        Ok(s) => Ok(String::from(s)),
        Err(e) => Err(e.to_string()),
    }
}

fn record_words_of(line: &str) -> (r: Vec<String>)
    ensures
        views(r@) == record_words(line@),
{
    let pieces = split_text(line, ' ');
    let ghost ps = views(pieces@);
    let mut r: Vec<String> = Vec::new();
    let mut i: usize = 0;
    assert(views(r@) =~= nonempty(ps.take(0)));
    while i < pieces.len()
        invariant
            i <= pieces@.len(),
            ps == views(pieces@),
            views(r@) == nonempty(ps.take(i as int)),
        decreases pieces.len() - i,
    {
        assert(ps.take(i + 1).drop_last() =~= ps.take(i as int));
        assert(ps.take(i + 1).last() == pieces@[i as int]@);
        if !pieces[i].as_str().is_empty() {
            let ghost was = views(r@);
            r.push(pieces[i].clone());
            assert(views(r@) =~= was.push(pieces@[i as int]@));
        }
        i += 1;
    }
    assert(ps.take(i as int) =~= ps);
    r
}

fn record_tags(words: &[String]) -> (r: Result<Vec<Tag>, String>)
    requires
        words@.len() > 0,
    ensures
        match r {
            Ok(ts) => record_mark_fault(views(words@), 1) is None && tag_views(ts@) == marks_of(
                views(words@).drop_first(),
            ),
            Err(e) => record_mark_fault(views(words@), 1) == Some(e@),
        },
{
    let ghost ws = views(words@);
    let mut tags: Vec<Tag> = Vec::new();
    let mut i: usize = 1;
    while i < words.len()
        invariant
            1 <= i <= words@.len(),
            ws == views(words@),
            tags@.len() == i - 1,
            forall|k: int| 0 <= k < i - 1 ==> (#[trigger] tags@[k])@ == mark_of(ws[k + 1]),
            record_mark_fault(ws, 1) == record_mark_fault(ws, i as int),
        decreases words.len() - i,
    {
        assert(ws[i as int] == words@[i as int]@);
        assert(ws[0] == words@[0]@);
        match Tag::parse(words[i].as_str()) {
            Ok(t) => tags.push(t),
            Err(e) => {
                let mut m = owned("invalid tag `");
                m.append(words[i].as_str());
                m.append("` on `");
                m.append(words[0].as_str());
                m.append("`: ");
                m.append(e.to_string().as_str());
                return Err(m);
            },
        }
        i += 1;
    }
    assert(tag_views(tags@) =~= marks_of(ws.drop_first()));
    Ok(tags)
}

fn read_record(inv: &mut Inventory, seen: &mut Vec<String>, line: &str) -> (r: Result<(), String>)
    ensures
        match r {
            Ok(_) => record_step(
                Reading { inventory: old(inv)@, seen: views(old(seen)@) },
                line@,
            ) == Ok::<Reading, Seq<char>>(
                Reading { inventory: final(inv)@, seen: views(final(seen)@) },
            ),
            Err(e) => record_step(
                Reading { inventory: old(inv)@, seen: views(old(seen)@) },
                line@,
            ) == Err::<Reading, Seq<char>>(e@),
        },
{
    let words = record_words_of(line);
    let ghost ws = views(words@);
    assert(ws.len() == words@.len());
    if words.len() == 0 {
        return Err(owned("empty record"));
    }
    let name = words[0].as_str();
    assert(ws[0] == name@);
    let tags = match record_tags(&words) {
        Ok(t) => t,
        Err(e) => {
            return Err(e);
        },
    };
    let ghost marks = tag_views(tags@);
    match Tags::new(clone_tags(&tags)) {
        Ok(_) => {},
        Err(e) => {
            let mut m = owned("record `");
            m.append(name);
            m.append("`: ");
            m.append(e.to_string().as_str());
            return Err(m);
        },
    }
    if among(seen, name) {
        let mut m = owned("duplicate record `");
        m.append(name);
        m.append("` in tags section");
        return Err(m);
    }
    let ghost was_seen = views(seen@);
    let ghost was = inv@;
    let chars = chars_of(name);
    let n: usize = chars.len();
    if n >= 2 && chars[n - 2] == '/' && chars[n - 1] == '*' {
        let prefix = text_of(&chars, 0, n - 2);
        assert(prefix@ =~= row_prefix(name@));
        match check_prefix(prefix.as_str()) {
            Some(m) => {
                return Err(m);
            },
            None => {},
        }
        let row = GeneratedEntry { prefix, tags, cases: Vec::new() };
        let ghost rv = row@;
        assert(rv.cases =~= Seq::<Seq<char>>::empty());
        inv.generated.push(row);
        assert(inv@.generated =~= was.generated.push(rv));
        assert(inv@.cases =~= was.cases);
    } else {
        match CaseName::parse(name) {
            Err(e) => {
                let mut m = owned("invalid case name `");
                m.append(name);
                m.append("` in tags section: ");
                m.append(e.to_string().as_str());
                return Err(m);
            },
            Ok(parsed) => {
                let entry = CaseEntry { name: parsed, tags };
                let ghost ev = entry@;
                inv.cases.push(entry);
                assert(inv@.cases =~= was.cases.push(ev));
                assert(inv@.generated =~= was.generated);
            },
        }
    }
    seen.push(owned(name));
    assert(views(seen@) =~= was_seen.push(name@));
    Ok(())
}

/// The view of a read inventory.
pub open spec fn inventory_view(r: Result<Inventory, String>) -> Result<InventoryView, Seq<char>> {
    match r {
        Ok(i) => Ok(i@),
        Err(e) => Err(e@),
    }
}

/// Read the records, checking names, marks and duplicates: `name mark...`
/// for an exact case, `prefix/* mark...` for a generated row, whose prefix
/// is made of labels.
pub fn parse_tags_records(bytes: &[u8]) -> (r: Result<Inventory, String>)
    ensures
        inventory_view(r) == inventory_of(bytes@),
{
    let text = match utf8_text(bytes) {
        Ok(t) => t,
        Err(e) => {
            let mut m = owned("tags section is not UTF-8: ");
            m.append(e.as_str());
            return Err(m);
        },
    };
    proof {
        vstd::utf8::encode_utf8_valid_utf8(text@);
        encode_utf8_decode_utf8(text@);
    }
    let ls = content_lines_of(text.as_str());
    let ghost all = content_lines(decode_utf8(bytes@));
    let mut inv = Inventory { cases: Vec::new(), generated: Vec::new() };
    let mut seen: Vec<String> = Vec::new();
    proof {
        assert(inv@.cases =~= Seq::<EntryView>::empty());
        assert(inv@.generated =~= Seq::<RowView>::empty());
        assert(views(seen@) =~= Seq::<Seq<char>>::empty());
        assert((Reading { inventory: inv@, seen: views(seen@) }) =~= reading_start());
    }
    let mut i: usize = 0;
    while i < ls.len()
        invariant
            i <= ls@.len(),
            valid_utf8(bytes@),
            all == views(ls@),
            all == content_lines(decode_utf8(bytes@)),
            records_from(reading_start(), all, 0) == records_from(
                Reading { inventory: inv@, seen: views(seen@) },
                all,
                i as int,
            ),
        decreases ls.len() - i,
    {
        assert(all[i as int] == ls@[i as int]@);
        match read_record(&mut inv, &mut seen, ls[i].as_str()) {
            Ok(_) => {},
            Err(e) => {
                return Err(e);
            },
        }
        i += 1;
    }
    Ok(inv)
}

// ---------------------------------------------------------------------
// Canonical order
// ---------------------------------------------------------------------

/// `s` with `x` before the first case that comes after it.
pub open spec fn place_case(s: Seq<EntryView>, x: EntryView) -> Seq<EntryView>
    decreases s.len(),
{
    if s.len() == 0 || !name_lt(x.name, s.last().name) {
        s.push(x)
    } else {
        place_case(s.drop_last(), x).push(s.last())
    }
}

/// The cases in the order of their names.
pub open spec fn cases_in_order(s: Seq<EntryView>) -> Seq<EntryView>
    decreases s.len(),
{
    if s.len() == 0 { s } else { place_case(cases_in_order(s.drop_last()), s.last()) }
}

/// `s` with `x` before the first row that comes after it.
pub open spec fn place_row(s: Seq<RowView>, x: RowView) -> Seq<RowView>
    decreases s.len(),
{
    if s.len() == 0 || !text_lt(x.prefix, s.last().prefix) {
        s.push(x)
    } else {
        place_row(s.drop_last(), x).push(s.last())
    }
}

/// The rows in the order of their prefixes.
pub open spec fn rows_in_order(s: Seq<RowView>) -> Seq<RowView>
    decreases s.len(),
{
    if s.len() == 0 { s } else { place_row(rows_in_order(s.drop_last()), s.last()) }
}

/// An inventory in canonical order: the order of records is the linker's.
pub open spec fn canonical(i: InventoryView) -> InventoryView {
    InventoryView {
        cases: cases_in_order(i.cases),
        generated: rows_in_order(i.generated),
    }
}

fn insert_case(sorted: &mut Vec<CaseEntry>, x: CaseEntry)
    ensures
        entry_views(final(sorted)@) == place_case(entry_views(old(sorted)@), x@),
{
    let ghost s = entry_views(sorted@);
    let ghost xv = x@;
    let mut n: usize = sorted.len();
    assert(s.take(n as int) =~= s);
    assert(s.skip(n as int) =~= Seq::<EntryView>::empty());
    assert(place_case(s, xv) =~= place_case(s.take(n as int), xv) + s.skip(n as int));
    while n > 0 && name_before(&x.name, &sorted[n - 1].name)
        invariant
            n <= sorted@.len(),
            s == entry_views(sorted@),
            xv == x@,
            place_case(s, xv) == place_case(s.take(n as int), xv) + s.skip(n as int),
        decreases n,
    {
        assert(s[n - 1] == sorted@[n - 1]@);
        assert(s.take(n as int).last() == s[n - 1]);
        assert(s.take(n as int).drop_last() =~= s.take(n - 1));
        assert(place_case(s.take(n - 1), xv).push(s[n - 1]) + s.skip(n as int) =~= place_case(
            s.take(n - 1),
            xv,
        ) + s.skip(n - 1));
        n -= 1;
    }
    if n > 0 {
        assert(s[n - 1] == sorted@[n - 1]@);
        assert(s.take(n as int).last() == s[n - 1]);
    }
    sorted.insert(n, x);
    assert(entry_views(sorted@) =~= s.take(n as int).push(xv) + s.skip(n as int));
}

fn sort_cases(cases: Vec<CaseEntry>) -> (r: Vec<CaseEntry>)
    ensures
        entry_views(r@) == cases_in_order(entry_views(cases@)),
{
    let ghost s = entry_views(cases@);
    let mut r: Vec<CaseEntry> = Vec::new();
    let mut i: usize = 0;
    assert(entry_views(r@) =~= cases_in_order(s.take(0)));
    while i < cases.len()
        invariant
            i <= cases@.len(),
            s == entry_views(cases@),
            entry_views(r@) == cases_in_order(s.take(i as int)),
        decreases cases.len() - i,
    {
        assert(s.take(i + 1).drop_last() =~= s.take(i as int));
        assert(s.take(i + 1).last() == cases@[i as int]@);
        insert_case(&mut r, cases[i].clone());
        i += 1;
    }
    assert(s.take(i as int) =~= s);
    r
}

fn insert_row(sorted: &mut Vec<GeneratedEntry>, x: GeneratedEntry)
    ensures
        row_views(final(sorted)@) == place_row(row_views(old(sorted)@), x@),
{
    let ghost s = row_views(sorted@);
    let ghost xv = x@;
    let mut n: usize = sorted.len();
    assert(s.take(n as int) =~= s);
    assert(s.skip(n as int) =~= Seq::<RowView>::empty());
    assert(place_row(s, xv) =~= place_row(s.take(n as int), xv) + s.skip(n as int));
    while n > 0 && before(x.prefix.as_str(), sorted[n - 1].prefix.as_str())
        invariant
            n <= sorted@.len(),
            s == row_views(sorted@),
            xv == x@,
            place_row(s, xv) == place_row(s.take(n as int), xv) + s.skip(n as int),
        decreases n,
    {
        assert(s[n - 1] == sorted@[n - 1]@);
        assert(s.take(n as int).last() == s[n - 1]);
        assert(s.take(n as int).drop_last() =~= s.take(n - 1));
        assert(place_row(s.take(n - 1), xv).push(s[n - 1]) + s.skip(n as int) =~= place_row(
            s.take(n - 1),
            xv,
        ) + s.skip(n - 1));
        n -= 1;
    }
    if n > 0 {
        assert(s[n - 1] == sorted@[n - 1]@);
        assert(s.take(n as int).last() == s[n - 1]);
    }
    sorted.insert(n, x);
    assert(row_views(sorted@) =~= s.take(n as int).push(xv) + s.skip(n as int));
}

fn sort_rows(rows: Vec<GeneratedEntry>) -> (r: Vec<GeneratedEntry>)
    ensures
        row_views(r@) == rows_in_order(row_views(rows@)),
{
    let ghost s = row_views(rows@);
    let mut r: Vec<GeneratedEntry> = Vec::new();
    let mut i: usize = 0;
    assert(row_views(r@) =~= rows_in_order(s.take(0)));
    while i < rows.len()
        invariant
            i <= rows@.len(),
            s == row_views(rows@),
            row_views(r@) == rows_in_order(s.take(i as int)),
        decreases rows.len() - i,
    {
        assert(s.take(i + 1).drop_last() =~= s.take(i as int));
        assert(s.take(i + 1).last() == rows@[i as int]@);
        insert_row(&mut r, rows[i].clone());
        i += 1;
    }
    assert(s.take(i as int) =~= s);
    r
}

// ---------------------------------------------------------------------
// The inventory of a component
// ---------------------------------------------------------------------

/// The inventory that the payloads of a binary tell: nothing without a marks
/// section.
pub open spec fn found_inventory(payloads: Result<Seq<PayloadView>, Seq<char>>) -> Result<
    Option<InventoryView>,
    Seq<char>,
> {
    match payloads {
        Err(e) => Err("parsing wasm: "@ + e),
        Ok(ps) => if tags_bytes(ps).len() == 0 {
            Ok(None)
        } else {
            match inventory_of(tags_bytes(ps)) {
                Ok(i) => Ok(Some(canonical(i))),
                Err(e) => Err(e),
            }
        },
    }
}

/// The view of a sought inventory.
pub open spec fn opt_inventory_view(r: Result<Option<Inventory>, String>) -> Result<
    Option<InventoryView>,
    Seq<char>,
> {
    match r {
        Ok(Some(i)) => Ok(Some(i@)),
        Ok(None) => Ok(None),
        Err(e) => Err(e@),
    }
}

/// The inventory that collected section contents tell, in canonical order:
/// nothing where there are none.
pub fn inventory_from(sections: &[u8]) -> (r: Result<Option<Inventory>, String>)
    ensures
        opt_inventory_view(r) == if sections@.len() == 0 {
            Ok::<Option<InventoryView>, Seq<char>>(None)
        } else {
            match inventory_of(sections@) {
                Ok(i) => Ok::<Option<InventoryView>, Seq<char>>(Some(canonical(i))),
                Err(e) => Err::<Option<InventoryView>, Seq<char>>(e),
            }
        },
{
    if sections.len() == 0 {
        return Ok(None);
    }
    match parse_tags_records(sections) {
        Ok(inv) => Ok(
            Some(
                Inventory {
                    cases: sort_cases(inv.cases),
                    generated: sort_rows(inv.generated),
                },
            ),
        ),
        Err(e) => Err(e),
    }
}

/// The static inventory of a suite component. `Ok(None)` says that there is
/// no marks section; a section that is malformed is an error.
pub fn try_inventory(wasm: &[u8]) -> (r: Result<Option<Inventory>, String>)
    ensures
        opt_inventory_view(r) == found_inventory(wasm_payloads(wasm@)),
{
    match collect_tags_sections(wasm) {
        Ok(sections) => inventory_from(&sections),
        Err(e) => Err(e),
    }
}

/// The message about a suite without a marks section.
pub open spec fn no_section_text() -> Seq<char> {
    "no `"@ + TAGS_SECTION@
        + "` section found (suite not built with the SDK, or sections stripped)"@
}

/// The static inventory of a suite component, whose absence is an error.
pub fn inventory(wasm: &[u8]) -> (r: Result<Inventory, String>)
    ensures
        inventory_view(r) == match found_inventory(wasm_payloads(wasm@)) {
            Ok(Some(i)) => Ok::<InventoryView, Seq<char>>(i),
            Ok(None) => Err::<InventoryView, Seq<char>>(no_section_text()),
            Err(e) => Err::<InventoryView, Seq<char>>(e),
        },
{
    match try_inventory(wasm) {
        Ok(Some(inv)) => Ok(inv),
        Ok(None) => {
            let mut m = owned("no `");
            m.append(TAGS_SECTION);
            m.append("` section found (suite not built with the SDK, or sections stripped)");
            Err(m)
        },
        Err(e) => Err(e),
    }
}

} // verus!
