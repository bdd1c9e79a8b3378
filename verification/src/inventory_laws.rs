//! What holds of every inventory: its order, that no name occurs twice, and
//! that the order of the records does not show.

use vstd::prelude::*;
use vstd::utf8::{decode_utf8, valid_utf8};

use crate::feature::{is_mark_set, law_mark_fault, law_mark_set_fault};
use crate::inventory::{
    canonical, cases_in_order, found_inventory, inventory_of, is_row_record, line_ended, nonempty,
    place_case, place_row, reading_start, record_mark_fault, record_step, record_words,
    records_from, row_prefix, rows_in_order, tags_bytes, InventoryView, PayloadView, Reading,
};
use crate::lockfile::{entry_names, lemma_prefix_sound, row_prefixes, EntryView, RowView};
use crate::name::{
    is_case_name, is_label, is_mark_text, law_name_fault, law_parts_roundtrip, name_lt, parts_of,
    NameParts, TAGS_SECTION,
};
use crate::order::{in_order, law_sorted, place_text, texts_in_order};
use crate::stream::{content_lines, law_content_lines, not_blank};
use crate::tags::marks_of;
use crate::text::{
    is_blank, lemma_split_concat, lemma_split_nonempty, lemma_text_lt_irreflexive,
    lemma_text_lt_total, lemma_text_lt_transitive, lines, split, text_lt,
};

verus! {

/// Does no case come after a later one?
pub open spec fn in_name_order(s: Seq<EntryView>) -> bool {
    forall|i: int, j: int|
        0 <= i < j < s.len() ==> !name_lt((#[trigger] s[j]).name, (#[trigger] s[i]).name)
}

/// The order of names is an order: nothing is before itself, and what is
/// before something that is before a third is before the third.
pub proof fn law_name_order(a: NameParts, b: NameParts, c: NameParts)
    ensures
        !name_lt(a, a),
        name_lt(a, b) && name_lt(b, c) ==> name_lt(a, c),
        name_lt(a, b) || name_lt(b, a) || a == b,
{
    lemma_text_lt_irreflexive(a.prefix);
    lemma_text_lt_irreflexive(a.leaf);
    lemma_text_lt_total(a.prefix, b.prefix);
    lemma_text_lt_total(a.leaf, b.leaf);
    if text_lt(a.prefix, b.prefix) && text_lt(b.prefix, c.prefix) {
        lemma_text_lt_transitive(a.prefix, b.prefix, c.prefix);
    }
    if text_lt(a.leaf, b.leaf) && text_lt(b.leaf, c.leaf) {
        lemma_text_lt_transitive(a.leaf, b.leaf, c.leaf);
    }
}

proof fn lemma_place_case(s: Seq<EntryView>, x: EntryView)
    requires
        in_name_order(s),
    ensures
        in_name_order(place_case(s, x)),
        place_case(s, x).len() == s.len() + 1,
        place_case(s, x).to_multiset() =~= s.to_multiset().insert(x),
        forall|i: int|
            0 <= i < s.len() + 1 ==> (#[trigger] place_case(s, x)[i]) == x || s.contains(
                place_case(s, x)[i],
            ),
    decreases s.len(),
{
    broadcast use vstd::seq_lib::group_to_multiset_ensures;

    let p = place_case(s, x);
    if s.len() == 0 || !name_lt(x.name, s.last().name) {
        assert forall|i: int, j: int| 0 <= i < j < p.len() implies !name_lt(
            (#[trigger] p[j]).name,
            (#[trigger] p[i]).name,
        ) by {
            if j == s.len() && i < s.len() - 1 && name_lt(x.name, s[i].name) {
                let last = s.last();
                assert(!name_lt(last.name, s[i].name));
                law_name_order(s[i].name, last.name, last.name);
                law_name_order(x.name, s[i].name, last.name);
            }
        }
        assert forall|i: int| 0 <= i < s.len() + 1 implies (#[trigger] p[i]) == x || s.contains(
            p[i],
        ) by {
            if i < s.len() {
                assert(s[i] == p[i]);
            }
        }
    } else {
        let init = s.drop_last();
        assert(in_name_order(init)) by {
            assert forall|i: int, j: int| 0 <= i < j < init.len() implies !name_lt(
                (#[trigger] init[j]).name,
                (#[trigger] init[i]).name,
            ) by {
                assert(init[i] == s[i] && init[j] == s[j]);
            }
        }
        lemma_place_case(init, x);
        let q = place_case(init, x);
        assert(p == q.push(s.last()));
        assert forall|i: int, j: int| 0 <= i < j < p.len() implies !name_lt(
            (#[trigger] p[j]).name,
            (#[trigger] p[i]).name,
        ) by {
            assert(q[i] == p[i]);
            if j < q.len() {
                assert(q[j] == p[j]);
            } else if p[i] == x {
                law_name_order(x.name, s.last().name, x.name);
            } else {
                let k = choose|k: int| 0 <= k < init.len() && init[k] == q[i];
                assert(s[k] == p[i] && s[s.len() - 1] == s.last());
            }
        }
        assert forall|i: int| 0 <= i < s.len() + 1 implies (#[trigger] p[i]) == x || s.contains(
            p[i],
        ) by {
            if i < q.len() {
                assert(q[i] == p[i]);
                if p[i] != x {
                    let k = choose|k: int| 0 <= k < init.len() && init[k] == q[i];
                    assert(s[k] == p[i]);
                }
            } else {
                assert(s[s.len() - 1] == p[i]);
            }
        }
        assert(s =~= init.push(s.last()));
    }
}

proof fn lemma_cases_in_order(s: Seq<EntryView>)
    ensures
        in_name_order(cases_in_order(s)),
        cases_in_order(s).to_multiset() =~= s.to_multiset(),
    decreases s.len(),
{
    broadcast use vstd::seq_lib::group_to_multiset_ensures;

    if s.len() > 0 {
        let init = s.drop_last();
        lemma_cases_in_order(init);
        lemma_place_case(cases_in_order(init), s.last());
        assert(s =~= init.push(s.last()));
    }
}

proof fn lemma_place_row(s: Seq<RowView>, x: RowView)
    ensures
        row_prefixes(place_row(s, x)) == place_text(row_prefixes(s), x.prefix),
        place_row(s, x).to_multiset() =~= s.to_multiset().insert(x),
    decreases s.len(),
{
    broadcast use vstd::seq_lib::group_to_multiset_ensures;

    let p = place_row(s, x);
    if s.len() > 0 && text_lt(x.prefix, s.last().prefix) {
        let init = s.drop_last();
        lemma_place_row(init, x);
        assert(s =~= init.push(s.last()));
        assert(row_prefixes(s).drop_last() =~= row_prefixes(init));
        assert(row_prefixes(s).last() == s.last().prefix);
        assert(row_prefixes(p) =~= row_prefixes(place_row(init, x)).push(s.last().prefix));
    } else {
        if s.len() > 0 {
            assert(row_prefixes(s).last() == s.last().prefix);
        }
        assert(row_prefixes(p) =~= row_prefixes(s).push(x.prefix));
    }
}

proof fn lemma_rows_in_order(s: Seq<RowView>)
    ensures
        row_prefixes(rows_in_order(s)) == texts_in_order(row_prefixes(s)),
        rows_in_order(s).to_multiset() =~= s.to_multiset(),
    decreases s.len(),
{
    broadcast use vstd::seq_lib::group_to_multiset_ensures;

    if s.len() > 0 {
        let init = s.drop_last();
        lemma_rows_in_order(init);
        lemma_place_row(rows_in_order(init), s.last());
        assert(s =~= init.push(s.last()));
        assert(row_prefixes(s).drop_last() =~= row_prefixes(init));
        assert(row_prefixes(s).last() == s.last().prefix);
    } else {
        assert(row_prefixes(s) =~= texts_in_order(row_prefixes(s)));
        assert(row_prefixes(rows_in_order(s)) =~= row_prefixes(s));
    }
}

/// The canonical order is that of names and prefixes, and putting an
/// inventory into it neither adds nor loses anything. So the order in which
/// a linker leaves the records does not show.
pub proof fn law_canonical_order(i: InventoryView)
    ensures
        in_name_order(canonical(i).cases),
        in_order(row_prefixes(canonical(i).generated)),
        canonical(i).cases.to_multiset() =~= i.cases.to_multiset(),
        canonical(i).generated.to_multiset() =~= i.generated.to_multiset(),
{
    lemma_cases_in_order(i.cases);
    lemma_rows_in_order(i.generated);
    law_sorted(row_prefixes(i.generated));
}

/// Is every case's name among those seen, and none of them twice?
spec fn kept_apart(st: Reading) -> bool {
    let names = entry_names(st.inventory.cases);
    &&& names.no_duplicates()
    &&& forall|k: int| 0 <= k < names.len() ==> st.seen.contains(#[trigger] names[k])
}

proof fn lemma_step_apart(st: Reading, line: Seq<char>)
    requires
        kept_apart(st),
        record_step(st, line) is Ok,
    ensures
        kept_apart(record_step(st, line)->Ok_0),
{
    let next = record_step(st, line)->Ok_0;
    let name = record_words(line)[0];
    let names = entry_names(st.inventory.cases);
    let now = entry_names(next.inventory.cases);
    assert(next.seen == st.seen.push(name));
    assert forall|t: Seq<char>| st.seen.contains(t) implies #[trigger] next.seen.contains(t) by {
        let i = choose|i: int| 0 <= i < st.seen.len() && st.seen[i] == t;
        assert(next.seen[i] == t);
    }
    assert(next.seen[st.seen.len() as int] == name);
    if next.inventory.cases.len() > st.inventory.cases.len() {
        law_name_fault(name);
        law_parts_roundtrip(name);
        assert(now =~= names.push(name));
        assert forall|i: int, j: int| 0 <= i < now.len() && 0 <= j < now.len() && i != j implies now[i]
            != now[j] by {
            if i == names.len() {
                assert(st.seen.contains(names[j]));
            } else if j == names.len() {
                assert(st.seen.contains(names[i]));
            }
        }
        assert forall|k: int| 0 <= k < now.len() implies next.seen.contains(#[trigger] now[k]) by {
            if k < names.len() {
                assert(st.seen.contains(names[k]));
            }
        }
    } else {
        assert(now =~= names);
        assert forall|k: int| 0 <= k < now.len() implies next.seen.contains(#[trigger] now[k]) by {
            assert(st.seen.contains(names[k]));
        }
    }
}

proof fn lemma_records_apart(st: Reading, ls: Seq<Seq<char>>, i: int)
    requires
        kept_apart(st),
        records_from(st, ls, i) is Ok,
    ensures
        kept_apart(records_from(st, ls, i)->Ok_0),
    decreases ls.len() - i,
{
    if 0 <= i < ls.len() {
        lemma_step_apart(st, ls[i]);
        lemma_records_apart(record_step(st, ls[i])->Ok_0, ls, i + 1);
    }
}

/// No case occurs twice in an inventory, and no row.
pub proof fn law_inventory_names_distinct(bytes: Seq<u8>)
    requires
        inventory_of(bytes) is Ok,
    ensures
        entry_names(inventory_of(bytes)->Ok_0.cases).no_duplicates(),
        row_prefixes(inventory_of(bytes)->Ok_0.generated).no_duplicates(),
{
    let ls = content_lines(decode_utf8(bytes));
    assert(kept_apart(reading_start()));
    lemma_records_apart(reading_start(), ls, 0);
    lemma_rows_apart(reading_start(), ls, 0);
    let rows = inventory_of(bytes)->Ok_0.generated;
    let ps = row_prefixes(rows);
    assert forall|i: int, j: int| 0 <= i < ps.len() && 0 <= j < ps.len() && i != j implies ps[i]
        != ps[j] by {
        assert(rows[i].prefix != rows[j].prefix);
    }
}

// ---------------------------------------------------------------------
// The order of records
// ---------------------------------------------------------------------

/// The name that a record is of.
pub open spec fn record_name(line: Seq<char>) -> Seq<char> {
    record_words(line)[0]
}

/// The case that a record tells.
pub open spec fn record_case(line: Seq<char>) -> EntryView {
    EntryView {
        name: parts_of(record_name(line)),
        tags: marks_of(record_words(line).drop_first()),
    }
}

/// The row that a record tells.
pub open spec fn record_row(line: Seq<char>) -> RowView {
    RowView {
        prefix: row_prefix(record_name(line)),
        tags: marks_of(record_words(line).drop_first()),
        cases: Seq::empty(),
    }
}

/// Is the line a record by itself?
pub open spec fn is_record(line: Seq<char>) -> bool {
    record_step(reading_start(), line) is Ok
}

spec fn with_record(st: Reading, line: Seq<char>) -> Reading {
    Reading {
        inventory: if is_row_record(record_name(line)) {
            InventoryView {
                generated: st.inventory.generated.push(record_row(line)),
                ..st.inventory
            }
        } else {
            InventoryView { cases: st.inventory.cases.push(record_case(line)), ..st.inventory }
        },
        seen: st.seen.push(record_name(line)),
    }
}

proof fn lemma_record(st: Reading, line: Seq<char>)
    ensures
        record_step(st, line) is Ok <==> is_record(line) && !st.seen.contains(record_name(line)),
        record_step(st, line) is Ok ==> record_step(st, line)->Ok_0 == with_record(st, line),
{
    assert(!reading_start().seen.contains(record_name(line)));
}

/// Does the record tell the case?
spec fn tells_case(line: Seq<char>, e: EntryView) -> bool {
    !is_row_record(record_name(line)) && record_case(line) == e
}

/// Does the record tell the row?
spec fn tells_row(line: Seq<char>, r: RowView) -> bool {
    is_row_record(record_name(line)) && record_row(line) == r
}

/// Are the lines from the `i`-th on records of names that differ from each
/// other and from those seen?
spec fn readable(seen: Seq<Seq<char>>, ls: Seq<Seq<char>>, i: int) -> bool {
    &&& forall|k: int|
        i <= k < ls.len() ==> is_record(#[trigger] ls[k]) && !seen.contains(record_name(ls[k]))
    &&& forall|k: int, m: int|
        i <= k < m < ls.len() ==> record_name(#[trigger] ls[k]) != record_name(#[trigger] ls[m])
}

proof fn lemma_readable(st: Reading, ls: Seq<Seq<char>>, i: int)
    requires
        0 <= i <= ls.len(),
    ensures
        records_from(st, ls, i) is Ok <==> readable(st.seen, ls, i),
    decreases ls.len() - i,
{
    if i < ls.len() {
        lemma_record(st, ls[i]);
        if record_step(st, ls[i]) is Ok {
            let next = with_record(st, ls[i]);
            lemma_readable(next, ls, i + 1);
            assert forall|t: Seq<char>| #[trigger] next.seen.contains(t) <==> st.seen.contains(t)
                || t == record_name(ls[i]) by {
                if st.seen.contains(t) {
                    let k = choose|k: int| 0 <= k < st.seen.len() && st.seen[k] == t;
                    assert(next.seen[k] == t);
                }
                if t == record_name(ls[i]) {
                    assert(next.seen[st.seen.len() as int] == t);
                }
            }
            if readable(next.seen, ls, i + 1) {
                assert forall|k: int| i <= k < ls.len() implies is_record(#[trigger] ls[k])
                    && !st.seen.contains(record_name(ls[k])) by {
                    if k > i {
                        assert(!next.seen.contains(record_name(ls[k])));
                    }
                }
                assert forall|k: int, m: int| i <= k < m < ls.len() implies record_name(
                    #[trigger] ls[k],
                ) != record_name(#[trigger] ls[m]) by {
                    if k == i {
                        assert(!next.seen.contains(record_name(ls[m])));
                    }
                }
            }
            if readable(st.seen, ls, i) {
                assert forall|k: int| i + 1 <= k < ls.len() implies is_record(#[trigger] ls[k])
                    && !next.seen.contains(record_name(ls[k])) by {
                    assert(record_name(ls[i]) != record_name(ls[k]));
                }
            }
        } else if readable(st.seen, ls, i) {
            assert(is_record(ls[i]));
        }
    }
}

proof fn lemma_told(st: Reading, ls: Seq<Seq<char>>, i: int)
    requires
        0 <= i <= ls.len(),
        records_from(st, ls, i) is Ok,
    ensures
        ({
            let end = records_from(st, ls, i)->Ok_0;
            &&& forall|e: EntryView| #[trigger]
                end.inventory.cases.contains(e) <==> st.inventory.cases.contains(e) || exists|k: int|
                    i <= k < ls.len() && tells_case(#[trigger] ls[k], e)
            &&& forall|r: RowView| #[trigger]
                end.inventory.generated.contains(r) <==> st.inventory.generated.contains(r)
                    || exists|k: int| i <= k < ls.len() && tells_row(#[trigger] ls[k], r)
        }),
    decreases ls.len() - i,
{
    if i < ls.len() {
        lemma_record(st, ls[i]);
        let next = with_record(st, ls[i]);
        lemma_told(next, ls, i + 1);
        assert forall|e: EntryView| #[trigger] next.inventory.cases.contains(e)
            <==> st.inventory.cases.contains(e) || tells_case(ls[i], e) by {
            lemma_push_contains(st.inventory.cases, record_case(ls[i]), e);
        }
        assert forall|r: RowView| #[trigger] next.inventory.generated.contains(r)
            <==> st.inventory.generated.contains(r) || tells_row(ls[i], r) by {
            lemma_push_contains(st.inventory.generated, record_row(ls[i]), r);
        }
    }
}

proof fn lemma_push_contains<T>(s: Seq<T>, x: T, y: T)
    ensures
        s.push(x).contains(y) <==> s.contains(y) || x == y,
{
    if s.contains(y) {
        let k = choose|k: int| 0 <= k < s.len() && s[k] == y;
        assert(s.push(x)[k] == y);
    }
    if x == y {
        assert(s.push(x)[s.len() as int] == y);
    }
}

/// Is every item before every later one?
spec fn ascending<T>(s: Seq<T>, lt: spec_fn(T, T) -> bool) -> bool {
    forall|i: int, j: int| 0 <= i < j < s.len() ==> lt(#[trigger] s[i], #[trigger] s[j])
}

proof fn lemma_same_items<T>(s: Seq<T>, t: Seq<T>, lt: spec_fn(T, T) -> bool)
    requires
        forall|a: T, b: T| #[trigger] lt(a, b) ==> !lt(b, a),
        ascending(s, lt),
        ascending(t, lt),
        forall|x: T| #[trigger] s.contains(x) <==> t.contains(x),
    ensures
        s == t,
    decreases s.len(),
{
    if s.len() == 0 {
        if t.len() > 0 {
            assert(t.contains(t[0]));
            assert(s.contains(t[0]));
        }
        assert(s =~= t);
    } else {
        assert(s.contains(s[s.len() - 1]));
        let a = choose|a: int| 0 <= a < t.len() && t[a] == s.last();
        assert(t.len() > 0 && t.contains(t[t.len() - 1]));
        assert(s.contains(t[t.len() - 1]));
        let b = choose|b: int| 0 <= b < s.len() && s[b] == t.last();
        assert(s.last() == t.last()) by {
            if a < t.len() - 1 && b < s.len() - 1 {
                assert(lt(t[a], t[t.len() - 1]));
                assert(lt(s[b], s[s.len() - 1]));
            }
        }
        let u = s.drop_last();
        let v = t.drop_last();
        assert forall|x: T| #[trigger] u.contains(x) <==> v.contains(x) by {
            if u.contains(x) {
                let k = choose|k: int| 0 <= k < u.len() && u[k] == x;
                assert(s[k] == x);
                assert(lt(s[k], s[s.len() - 1]));
                assert(s.contains(x));
                let m = choose|m: int| 0 <= m < t.len() && t[m] == x;
                assert(v[m] == x);
            }
            if v.contains(x) {
                let k = choose|k: int| 0 <= k < v.len() && v[k] == x;
                assert(t[k] == x);
                assert(lt(t[k], t[t.len() - 1]));
                assert(t.contains(x));
                assert(s.contains(x));
                let m = choose|m: int| 0 <= m < s.len() && s[m] == x;
                assert(u[m] == x);
            }
        }
        lemma_same_items(u, v, lt);
        assert(s =~= u.push(s.last()));
        assert(t =~= v.push(t.last()));
    }
}

spec fn case_before() -> spec_fn(EntryView, EntryView) -> bool {
    |a: EntryView, b: EntryView| name_lt(a.name, b.name)
}

spec fn row_before() -> spec_fn(RowView, RowView) -> bool {
    |a: RowView, b: RowView| text_lt(a.prefix, b.prefix)
}

proof fn lemma_permuted<T>(s: Seq<T>, t: Seq<T>)
    requires
        s.to_multiset() =~= t.to_multiset(),
    ensures
        forall|x: T| #[trigger] s.contains(x) <==> t.contains(x),
        s.no_duplicates() ==> t.no_duplicates(),
{
    broadcast use vstd::seq_lib::group_to_multiset_ensures;

    assert forall|x: T| #[trigger] s.contains(x) <==> t.contains(x) by {
        assert(s.to_multiset().count(x) == t.to_multiset().count(x));
    }
    if s.no_duplicates() {
        s.lemma_multiset_has_no_duplicates();
        t.lemma_multiset_has_no_duplicates_conv();
    }
}

/// Do two cases never have one name?
spec fn names_apart(s: Seq<EntryView>) -> bool {
    forall|i: int, j: int|
        0 <= i < s.len() && 0 <= j < s.len() && i != j ==> (#[trigger] s[i]).name != (
        #[trigger] s[j]).name
}

/// Do two rows never have one prefix?
spec fn prefixes_apart(s: Seq<RowView>) -> bool {
    forall|i: int, j: int|
        0 <= i < s.len() && 0 <= j < s.len() && i != j ==> (#[trigger] s[i]).prefix != (
        #[trigger] s[j]).prefix
}

proof fn lemma_cases_ascend(s: Seq<EntryView>)
    requires
        names_apart(s),
    ensures
        ascending(cases_in_order(s), case_before()),
        forall|e: EntryView| #[trigger] cases_in_order(s).contains(e) <==> s.contains(e),
{
    let t = cases_in_order(s);
    lemma_cases_in_order(s);
    assert(s.no_duplicates());
    lemma_permuted(s, t);
    assert forall|i: int, j: int| 0 <= i < j < t.len() implies (case_before())(
        #[trigger] t[i],
        #[trigger] t[j],
    ) by {
        assert(t.contains(t[i]) && t.contains(t[j]));
        assert(s.contains(t[i]) && s.contains(t[j]));
        let a = choose|a: int| 0 <= a < s.len() && s[a] == t[i];
        let b = choose|b: int| 0 <= b < s.len() && s[b] == t[j];
        assert(t[i] != t[j]);
        assert(s[a].name != s[b].name);
        law_name_order(t[i].name, t[j].name, t[i].name);
    }
}

proof fn lemma_rows_ascend(s: Seq<RowView>)
    requires
        prefixes_apart(s),
    ensures
        ascending(rows_in_order(s), row_before()),
        forall|r: RowView| #[trigger] rows_in_order(s).contains(r) <==> s.contains(r),
{
    let t = rows_in_order(s);
    lemma_rows_in_order(s);
    law_sorted(row_prefixes(s));
    assert(s.no_duplicates());
    lemma_permuted(s, t);
    let ps = row_prefixes(t);
    assert forall|i: int, j: int| 0 <= i < j < t.len() implies (row_before())(
        #[trigger] t[i],
        #[trigger] t[j],
    ) by {
        assert(t.contains(t[i]) && t.contains(t[j]));
        assert(s.contains(t[i]) && s.contains(t[j]));
        let a = choose|a: int| 0 <= a < s.len() && s[a] == t[i];
        let b = choose|b: int| 0 <= b < s.len() && s[b] == t[j];
        assert(t[i] != t[j]);
        assert(s[a].prefix != s[b].prefix);
        assert(ps[i] == t[i].prefix && ps[j] == t[j].prefix);
        lemma_text_lt_total(t[i].prefix, t[j].prefix);
    }
}

proof fn lemma_rows_apart(st: Reading, ls: Seq<Seq<char>>, i: int)
    requires
        0 <= i <= ls.len(),
        records_from(st, ls, i) is Ok,
        prefixes_apart(st.inventory.generated),
        forall|k: int|
            0 <= k < st.inventory.generated.len() ==> st.seen.contains(
                (#[trigger] st.inventory.generated[k]).prefix + seq!['/', '*'],
            ),
    ensures
        prefixes_apart(records_from(st, ls, i)->Ok_0.inventory.generated),
    decreases ls.len() - i,
{
    if i < ls.len() {
        lemma_record(st, ls[i]);
        let next = with_record(st, ls[i]);
        let name = record_name(ls[i]);
        let old_rows = st.inventory.generated;
        let rows = next.inventory.generated;
        assert(next.seen[st.seen.len() as int] == name);
        assert forall|k: int| 0 <= k < rows.len() implies next.seen.contains(
            (#[trigger] rows[k]).prefix + seq!['/', '*'],
        ) by {
            if k < old_rows.len() {
                assert(rows[k] == old_rows[k]);
                let t = old_rows[k].prefix + seq!['/', '*'];
                assert(st.seen.contains(t));
                lemma_push_contains(st.seen, name, t);
            } else {
                assert(rows[k].prefix + seq!['/', '*'] =~= name);
            }
        }
        if is_row_record(name) {
            assert(row_prefix(name) + seq!['/', '*'] =~= name);
            assert forall|k: int| 0 <= k < old_rows.len() implies (#[trigger] old_rows[k]).prefix
                != row_prefix(name) by {
                assert(st.seen.contains(old_rows[k].prefix + seq!['/', '*']));
            }
            assert forall|a: int, b: int|
                0 <= a < rows.len() && 0 <= b < rows.len() && a != b implies (#[trigger] rows[a]).prefix
                != (#[trigger] rows[b]).prefix by {
                if a < old_rows.len() {
                    assert(rows[a] == old_rows[a]);
                }
                if b < old_rows.len() {
                    assert(rows[b] == old_rows[b]);
                }
            }
        }
        lemma_rows_apart(next, ls, i + 1);
    }
}

/// The order of the records does not show: records in another order are
/// records too, and tell the same inventory in canonical order.
pub proof fn law_record_order_does_not_show(ls: Seq<Seq<char>>, other: Seq<Seq<char>>)
    requires
        ls.to_multiset() =~= other.to_multiset(),
        records_from(reading_start(), ls, 0) is Ok,
    ensures
        records_from(reading_start(), other, 0) is Ok,
        canonical(records_from(reading_start(), ls, 0)->Ok_0.inventory) == canonical(
            records_from(reading_start(), other, 0)->Ok_0.inventory,
        ),
{
    let st = reading_start();
    lemma_readable(st, ls, 0);
    lemma_readable(st, other, 0);
    assert(ls.no_duplicates());
    lemma_permuted(ls, other);
    assert(readable(st.seen, other, 0)) by {
        assert forall|k: int| 0 <= k < other.len() implies is_record(#[trigger] other[k])
            && !st.seen.contains(record_name(other[k])) by {
            assert(other.contains(other[k]));
            assert(ls.contains(other[k]));
            let a = choose|a: int| 0 <= a < ls.len() && ls[a] == other[k];
            assert(is_record(ls[a]));
        }
        assert forall|k: int, m: int| 0 <= k < m < other.len() implies record_name(
            #[trigger] other[k],
        ) != record_name(#[trigger] other[m]) by {
            assert(other.contains(other[k]) && other.contains(other[m]));
            assert(ls.contains(other[k]) && ls.contains(other[m]));
            let a = choose|a: int| 0 <= a < ls.len() && ls[a] == other[k];
            let b = choose|b: int| 0 <= b < ls.len() && ls[b] == other[m];
            assert(other[k] != other[m]);
            if a < b {
                assert(record_name(ls[a]) != record_name(ls[b]));
            } else {
                assert(record_name(ls[b]) != record_name(ls[a]));
            }
        }
    }
    let i = records_from(st, ls, 0)->Ok_0.inventory;
    let j = records_from(st, other, 0)->Ok_0.inventory;
    lemma_told(st, ls, 0);
    lemma_told(st, other, 0);
    assert forall|x: Seq<char>| #[trigger] ls.contains(x) implies (exists|m: int|
        0 <= m < other.len() && other[m] == x) by {
        assert(other.contains(x));
    }
    assert forall|e: EntryView| #[trigger] i.cases.contains(e) <==> j.cases.contains(e) by {
        if i.cases.contains(e) {
            let k = choose|k: int| 0 <= k < ls.len() && tells_case(#[trigger] ls[k], e);
            assert(ls.contains(ls[k]));
            let m = choose|m: int| 0 <= m < other.len() && other[m] == ls[k];
            assert(tells_case(other[m], e));
        }
        if j.cases.contains(e) {
            let k = choose|k: int| 0 <= k < other.len() && tells_case(#[trigger] other[k], e);
            assert(other.contains(other[k]));
            assert(ls.contains(other[k]));
            let m = choose|m: int| 0 <= m < ls.len() && ls[m] == other[k];
            assert(tells_case(ls[m], e));
        }
    }
    assert forall|r: RowView| #[trigger] i.generated.contains(r) <==> j.generated.contains(r) by {
        if i.generated.contains(r) {
            let k = choose|k: int| 0 <= k < ls.len() && tells_row(#[trigger] ls[k], r);
            assert(ls.contains(ls[k]));
            let m = choose|m: int| 0 <= m < other.len() && other[m] == ls[k];
            assert(tells_row(other[m], r));
        }
        if j.generated.contains(r) {
            let k = choose|k: int| 0 <= k < other.len() && tells_row(#[trigger] other[k], r);
            assert(other.contains(other[k]));
            assert(ls.contains(other[k]));
            let m = choose|m: int| 0 <= m < ls.len() && ls[m] == other[k];
            assert(tells_row(ls[m], r));
        }
    }
    assert(kept_apart(st));
    lemma_records_apart(st, ls, 0);
    lemma_records_apart(st, other, 0);
    lemma_names_apart(i.cases);
    lemma_names_apart(j.cases);
    lemma_rows_apart(st, ls, 0);
    lemma_rows_apart(st, other, 0);
    lemma_cases_ascend(i.cases);
    lemma_cases_ascend(j.cases);
    lemma_rows_ascend(i.generated);
    lemma_rows_ascend(j.generated);
    assert forall|a: EntryView, b: EntryView| #[trigger] (case_before())(a, b) implies !(
    case_before())(b, a) by {
        law_name_order(a.name, b.name, a.name);
    }
    assert forall|a: RowView, b: RowView| #[trigger] (row_before())(a, b) implies !(row_before())(
        b,
        a,
    ) by {
        lemma_text_lt_irreflexive(a.prefix);
        if text_lt(a.prefix, b.prefix) && text_lt(b.prefix, a.prefix) {
            lemma_text_lt_transitive(a.prefix, b.prefix, a.prefix);
        }
    }
    let ci = cases_in_order(i.cases);
    let cj = cases_in_order(j.cases);
    assert forall|e: EntryView| #[trigger] ci.contains(e) <==> cj.contains(e) by {
        assert(i.cases.contains(e) <==> j.cases.contains(e));
    }
    let ri = rows_in_order(i.generated);
    let rj = rows_in_order(j.generated);
    assert forall|r: RowView| #[trigger] ri.contains(r) <==> rj.contains(r) by {
        assert(i.generated.contains(r) <==> j.generated.contains(r));
    }
    lemma_same_items(ci, cj, case_before());
    lemma_same_items(ri, rj, row_before());
}

proof fn lemma_names_apart(s: Seq<EntryView>)
    requires
        entry_names(s).no_duplicates(),
    ensures
        names_apart(s),
{
    let names = entry_names(s);
    assert forall|i: int, j: int| 0 <= i < s.len() && 0 <= j < s.len() && i != j implies (
    #[trigger] s[i]).name != (#[trigger] s[j]).name by {
        assert(names[i] != names[j]);
    }
}

/// Two artifacts with the same records in different orders have the same
/// inventory.
pub proof fn law_permuted_records_give_one_inventory(a: Seq<u8>, b: Seq<u8>)
    requires
        valid_utf8(a),
        valid_utf8(b),
        content_lines(decode_utf8(a)).to_multiset() =~= content_lines(
            decode_utf8(b),
        ).to_multiset(),
        inventory_of(a) is Ok,
    ensures
        inventory_of(b) is Ok,
        canonical(inventory_of(a)->Ok_0) == canonical(inventory_of(b)->Ok_0),
{
    law_record_order_does_not_show(content_lines(decode_utf8(a)), content_lines(decode_utf8(b)));
}

/// Is the payload a marks section?
pub open spec fn is_marks_section(p: PayloadView) -> bool {
    match p {
        Some(section) => section.0 == TAGS_SECTION@,
        None => false,
    }
}

proof fn lemma_no_bytes(ps: Seq<PayloadView>)
    ensures
        tags_bytes(ps).len() == 0 <==> forall|i: int|
            0 <= i < ps.len() ==> !is_marks_section(#[trigger] ps[i]),
    decreases ps.len(),
{
    if ps.len() > 0 {
        let init = ps.drop_last();
        lemma_no_bytes(init);
        if tags_bytes(ps).len() == 0 {
            assert forall|i: int| 0 <= i < ps.len() implies !is_marks_section(#[trigger] ps[i]) by {
                if i < init.len() {
                    assert(init[i] == ps[i]);
                }
            }
        } else {
            if tags_bytes(init).len() == 0 {
                assert(is_marks_section(ps[ps.len() - 1]));
            } else {
                let i = choose|i: int| 0 <= i < init.len() && is_marks_section(#[trigger] init[i]);
                assert(is_marks_section(ps[i]));
            }
        }
    }
}

/// A binary has no inventory exactly where it has no marks section, nested
/// ones included: a malformed section is an error, never an absence.
pub proof fn law_no_inventory_means_no_section(ps: Seq<PayloadView>)
    ensures
        found_inventory(Ok(ps)) == Ok::<Option<InventoryView>, Seq<char>>(None) <==> forall|i: int|
            0 <= i < ps.len() ==> !is_marks_section(#[trigger] ps[i]),
{
    lemma_no_bytes(ps);
}

// ---------------------------------------------------------------------
// The inventory of a binary
// ---------------------------------------------------------------------

proof fn lemma_feed()
    ensures
        valid_utf8(seq![10u8]),
        decode_utf8(seq![10u8]) == seq!['\n'],
{
    broadcast use vstd::utf8::utf8_byte_ranges_bitwise;

    let b = seq![10u8];
    reveal_with_fuel(valid_utf8, 2);
    reveal_with_fuel(decode_utf8, 2);
    assert(10u8 & 0x7f == 10u8) by (bit_vector);
    assert(10u8 & 0x80 == 0u8) by (bit_vector);
    assert(vstd::utf8::pop_first_scalar(b) =~= Seq::empty());
    assert(vstd::utf8::valid_first_scalar(b));
    assert(decode_utf8(b) =~= seq!['\n']);
}

/// Bytes after a line feed are text exactly where they are by themselves.
proof fn lemma_after_feed(a: Seq<u8>, b: Seq<u8>)
    ensures
        valid_utf8(a.push(10u8) + b) <==> valid_utf8(a.push(10u8)) && valid_utf8(b),
        valid_utf8(a.push(10u8) + b) ==> decode_utf8(a.push(10u8) + b) == decode_utf8(
            a.push(10u8),
        ) + decode_utf8(b),
        valid_utf8(a.push(10u8)) ==> decode_utf8(a.push(10u8)).len() > 0 && decode_utf8(
            a.push(10u8),
        ).last() == '\n',
{
    broadcast use vstd::utf8::utf8_byte_ranges_bitwise;

    let fed = a.push(10u8);
    let all = fed + b;
    let n = a.len() as int;
    lemma_feed();
    assert(!vstd::utf8::is_continuation_byte(10u8)) by {
        assert(10u8 & 0xc0 != 0x80u8) by (bit_vector);
    }
    if valid_utf8(fed) && valid_utf8(b) {
        vstd::utf8::valid_utf8_concat(fed, b);
    }
    if valid_utf8(all) {
        assert(all[n] == 10u8);
        vstd::utf8::is_char_boundary_iff_not_is_continuation_byte(all, n);
        vstd::utf8::valid_utf8_split(all, n);
        vstd::utf8::decode_utf8_split(all, n);
        let rest = all.subrange(n, all.len() as int);
        assert(all.subrange(0, n) =~= a);
        assert(rest =~= seq![10u8] + b);
        assert(rest[0] == 10u8);
        assert(vstd::utf8::pop_first_scalar(rest) =~= b);
        assert(valid_utf8(b));
        vstd::utf8::valid_utf8_concat(a, seq![10u8]);
        assert(a + seq![10u8] =~= fed);
        assert(decode_utf8(rest) =~= seq!['\n'] + decode_utf8(b));
    }
    if valid_utf8(fed) {
        assert(fed[n] == 10u8);
        vstd::utf8::is_char_boundary_iff_not_is_continuation_byte(fed, n);
        vstd::utf8::valid_utf8_split(fed, n);
        vstd::utf8::decode_utf8_split(fed, n);
        assert(fed.subrange(0, n) =~= a);
        assert(fed.subrange(n, fed.len() as int) =~= seq![10u8]);
        assert(decode_utf8(fed) =~= decode_utf8(a) + seq!['\n']);
        if valid_utf8(all) {
            assert(decode_utf8(all) =~= decode_utf8(fed) + decode_utf8(b));
        }
    }
}

proof fn lemma_not_blank_concat(a: Seq<Seq<char>>, b: Seq<Seq<char>>)
    ensures
        not_blank(a + b) == not_blank(a) + not_blank(b),
    decreases b.len(),
{
    if b.len() == 0 {
        assert(a + b =~= a);
        assert(not_blank(a) + not_blank(b) =~= not_blank(a));
    } else {
        lemma_not_blank_concat(a, b.drop_last());
        assert((a + b).drop_last() =~= a + b.drop_last());
        assert((a + b).last() == b.last());
        assert(not_blank(a + b) =~= not_blank(a) + not_blank(b));
    }
}

/// Text after a line feed has lines of its own.
proof fn lemma_lines_after_feed(a: Seq<char>, b: Seq<char>)
    requires
        a.len() > 0,
        a.last() == '\n',
    ensures
        content_lines(a + b) == content_lines(a) + content_lines(b),
{
    let init = a.drop_last();
    assert(a =~= init.push('\n'));
    lemma_split_concat(init, b, '\n');
    lemma_split_concat(init, Seq::empty(), '\n');
    assert(init.push('\n') + Seq::<char>::empty() =~= a);
    lemma_split_nonempty(b, '\n');
    lemma_split_nonempty(init, '\n');
    let pa = split(init, '\n');
    let pb = split(b, '\n');
    assert(split(Seq::<char>::empty(), '\n') =~= seq![Seq::<char>::empty()]);
    assert(split(a, '\n') =~= pa.push(Seq::empty()));
    assert(split(a + b, '\n') =~= pa + pb);
    assert(lines(a + b) =~= lines(a) + lines(b));
    lemma_not_blank_concat(lines(a), lines(b));
}

/// The records of a marks section, the last one ended where the section leaves
/// it open.
pub open spec fn section_records(bytes: Seq<u8>) -> Seq<Seq<char>> {
    content_lines(decode_utf8(line_ended(bytes)))
}

/// The records of all marks sections, section by section.
pub open spec fn all_records(ps: Seq<PayloadView>) -> Seq<Seq<char>>
    decreases ps.len(),
{
    if ps.len() == 0 {
        Seq::empty()
    } else if is_marks_section(ps.last()) {
        all_records(ps.drop_last()) + section_records((ps.last()->0).1)
    } else {
        all_records(ps.drop_last())
    }
}

/// Is every marks section text?
pub open spec fn all_text(ps: Seq<PayloadView>) -> bool {
    forall|i: int|
        0 <= i < ps.len() && is_marks_section(#[trigger] ps[i]) ==> valid_utf8(
            line_ended((ps[i]->0).1),
        )
}

proof fn lemma_all_text(ps: Seq<PayloadView>)
    requires
        ps.len() > 0,
    ensures
        all_text(ps) <==> all_text(ps.drop_last()) && (is_marks_section(ps.last()) ==> valid_utf8(
            line_ended((ps.last()->0).1),
        )),
{
    let init = ps.drop_last();
    if all_text(ps) {
        assert forall|i: int| 0 <= i < init.len() && is_marks_section(
            #[trigger] init[i],
        ) implies valid_utf8(line_ended((init[i]->0).1)) by {
            assert(init[i] == ps[i]);
        }
        assert(ps.last() == ps[ps.len() - 1]);
    }
    if all_text(init) {
        assert forall|i: int| 0 <= i < ps.len() - 1 && is_marks_section(
            #[trigger] ps[i],
        ) implies valid_utf8(line_ended((ps[i]->0).1)) by {
            assert(init[i] == ps[i]);
        }
    }
}

/// No record of one section runs into one of another.
proof fn lemma_sections_apart(ps: Seq<PayloadView>)
    ensures
        tags_bytes(ps).len() > 0 ==> tags_bytes(ps).last() == 10u8,
        valid_utf8(tags_bytes(ps)) <==> all_text(ps),
        valid_utf8(tags_bytes(ps)) ==> content_lines(decode_utf8(tags_bytes(ps))) == all_records(
            ps,
        ),
    decreases ps.len(),
{
    if ps.len() == 0 {
        assert(split(Seq::<char>::empty(), '\n') =~= seq![Seq::<char>::empty()]);
        assert(lines(Seq::<char>::empty()) =~= Seq::empty());
    } else {
        let before = ps.drop_last();
        let init = tags_bytes(before);
        lemma_sections_apart(before);
        lemma_all_text(ps);
        if is_marks_section(ps.last()) {
            let own = (ps.last()->0).1;
            if init.len() == 0 {
                assert(init + own =~= own);
                assert(split(Seq::<char>::empty(), '\n') =~= seq![Seq::<char>::empty()]);
                assert(lines(Seq::<char>::empty()) =~= Seq::empty());
                assert(all_records(before) =~= Seq::empty());
                assert(all_records(ps) =~= section_records(own));
                assert(decode_utf8(init) =~= Seq::empty());
            } else {
                let a = init.drop_last();
                assert(init =~= a.push(10u8));
                lemma_after_feed(a, line_ended(own));
                if own.len() == 0 {
                    assert(init + own =~= init);
                    lemma_feed();
                    assert(line_ended(own) =~= seq![10u8]);
                    lemma_blank_feed();
                    assert(all_records(ps) =~= all_records(before));
                } else {
                    assert(line_ended(init + own) =~= init + line_ended(own));
                    if valid_utf8(tags_bytes(ps)) {
                        lemma_lines_after_feed(decode_utf8(init), decode_utf8(line_ended(own)));
                    }
                }
            }
        }
    }
}

proof fn lemma_blank_feed()
    ensures
        content_lines(seq!['\n']) == Seq::<Seq<char>>::empty(),
{
    let e = Seq::<char>::empty();
    lemma_split_concat(e, e, '\n');
    assert(e.push('\n') + e =~= seq!['\n']);
    assert(split(e, '\n') =~= seq![e]);
    assert(split(seq!['\n'], '\n') =~= seq![e, e]);
    assert(lines(seq!['\n']) =~= seq![e]);
    assert(is_blank(e));
    assert(seq![e].drop_last() =~= Seq::empty());
    reveal_with_fuel(not_blank, 2);
}

/// Are lines records of names that differ from each other?
pub open spec fn are_records(ls: Seq<Seq<char>>) -> bool {
    &&& forall|i: int| 0 <= i < ls.len() ==> is_record(#[trigger] ls[i])
    &&& forall|i: int, j: int|
        0 <= i < j < ls.len() ==> record_name(#[trigger] ls[i]) != record_name(#[trigger] ls[j])
}

/// Does an inventory hold exactly the cases and rows of the records, each in
/// strictly ascending order?
pub open spec fn tells_exactly(i: InventoryView, ls: Seq<Seq<char>>) -> bool {
    &&& forall|a: int, b: int|
        0 <= a < b < i.cases.len() ==> name_lt((#[trigger] i.cases[a]).name, (#[trigger] i.cases[b]).name)
    &&& forall|a: int, b: int|
        0 <= a < b < i.generated.len() ==> text_lt(
            (#[trigger] i.generated[a]).prefix,
            (#[trigger] i.generated[b]).prefix,
        )
    &&& forall|e: EntryView| #[trigger]
        i.cases.contains(e) <==> exists|k: int|
            0 <= k < ls.len() && !is_row_record(record_name(#[trigger] ls[k])) && record_case(ls[k])
                == e
    &&& forall|r: RowView| #[trigger]
        i.generated.contains(r) <==> exists|k: int|
            0 <= k < ls.len() && is_row_record(record_name(#[trigger] ls[k])) && record_row(ls[k])
                == r
}

proof fn lemma_tells_exactly(ls: Seq<Seq<char>>)
    requires
        records_from(reading_start(), ls, 0) is Ok,
    ensures
        tells_exactly(canonical(records_from(reading_start(), ls, 0)->Ok_0.inventory), ls),
{
    let st = reading_start();
    let i = records_from(st, ls, 0)->Ok_0.inventory;
    let c = canonical(i);
    lemma_told(st, ls, 0);
    assert(kept_apart(st));
    lemma_records_apart(st, ls, 0);
    lemma_names_apart(i.cases);
    lemma_rows_apart(st, ls, 0);
    lemma_cases_ascend(i.cases);
    lemma_rows_ascend(i.generated);
    assert forall|a: int, b: int| 0 <= a < b < c.cases.len() implies name_lt(
        (#[trigger] c.cases[a]).name,
        (#[trigger] c.cases[b]).name,
    ) by {
        assert((case_before())(c.cases[a], c.cases[b]));
    }
    assert forall|a: int, b: int| 0 <= a < b < c.generated.len() implies text_lt(
        (#[trigger] c.generated[a]).prefix,
        (#[trigger] c.generated[b]).prefix,
    ) by {
        assert((row_before())(c.generated[a], c.generated[b]));
    }
    assert forall|e: EntryView| #[trigger] c.cases.contains(e) <==> exists|k: int|
        0 <= k < ls.len() && !is_row_record(record_name(#[trigger] ls[k])) && record_case(ls[k])
            == e by {
        assert(c.cases.contains(e) <==> i.cases.contains(e));
        assert(!st.inventory.cases.contains(e));
        if i.cases.contains(e) {
            let k = choose|k: int| 0 <= k < ls.len() && tells_case(#[trigger] ls[k], e);
            assert(!is_row_record(record_name(ls[k])) && record_case(ls[k]) == e);
        }
        if exists|k: int|
            0 <= k < ls.len() && !is_row_record(record_name(#[trigger] ls[k])) && record_case(ls[k])
                == e {
            let k = choose|k: int|
                0 <= k < ls.len() && !is_row_record(record_name(#[trigger] ls[k]))
                    && record_case(ls[k]) == e;
            assert(tells_case(ls[k], e));
        }
    }
    assert forall|r: RowView| #[trigger] c.generated.contains(r) <==> exists|k: int|
        0 <= k < ls.len() && is_row_record(record_name(#[trigger] ls[k])) && record_row(ls[k])
            == r by {
        assert(c.generated.contains(r) <==> i.generated.contains(r));
        assert(!st.inventory.generated.contains(r));
        if i.generated.contains(r) {
            let k = choose|k: int| 0 <= k < ls.len() && tells_row(#[trigger] ls[k], r);
            assert(is_row_record(record_name(ls[k])) && record_row(ls[k]) == r);
        }
        if exists|k: int|
            0 <= k < ls.len() && is_row_record(record_name(#[trigger] ls[k])) && record_row(ls[k])
                == r {
            let k = choose|k: int|
                0 <= k < ls.len() && is_row_record(record_name(#[trigger] ls[k]))
                    && record_row(ls[k]) == r;
            assert(tells_row(ls[k], r));
        }
    }
}

/// What is found of a binary with these payloads. Nothing is found exactly
/// where there is no marks section, nested ones included. Where there is one,
/// an inventory is found exactly where every section is text and their lines
/// are records of names that differ, and anything else is an error. The
/// inventory holds exactly the records of all sections, none run into another,
/// in strictly ascending order. A binary whose records are these in another
/// order has the same inventory.
pub proof fn law_inventory_of_a_binary(ps: Seq<PayloadView>, other: Seq<PayloadView>)
    ensures
        ({
            let none = forall|i: int| 0 <= i < ps.len() ==> !is_marks_section(#[trigger] ps[i]);
            let found = found_inventory(Ok(ps));
            let well = all_text(ps) && are_records(all_records(ps));
            &&& found == Ok::<Option<InventoryView>, Seq<char>>(None) <==> none
            &&& !none && !well ==> found is Err
            &&& !none && well ==> found is Ok && found->Ok_0 is Some && tells_exactly(
                found->Ok_0->0,
                all_records(ps),
            )
            &&& well && all_text(other) && (none <==> forall|i: int|
                0 <= i < other.len() ==> !is_marks_section(#[trigger] other[i]))
                && all_records(ps).to_multiset() =~= all_records(other).to_multiset()
                ==> found_inventory(Ok(other)) == found
        }),
{
    let st = reading_start();
    lemma_no_bytes(ps);
    lemma_no_bytes(other);
    lemma_sections_apart(ps);
    lemma_sections_apart(other);
    let ls = all_records(ps);
    lemma_readable(st, ls, 0);
    if are_records(ls) {
        assert(readable(st.seen, ls, 0));
        lemma_tells_exactly(ls);
        if all_records(other).to_multiset() =~= ls.to_multiset() {
            law_record_order_does_not_show(ls, all_records(other));
        }
    }
    if readable(st.seen, ls, 0) {
        assert(are_records(ls));
    }
}

// ---------------------------------------------------------------------
// A record
// ---------------------------------------------------------------------

pub(crate) proof fn lemma_nonempty(pieces: Seq<Seq<char>>)
    ensures
        nonempty(pieces) == pieces.filter(|p: Seq<char>| p.len() > 0),
    decreases pieces.len(),
{
    reveal(Seq::filter);
    if pieces.len() > 0 {
        lemma_nonempty(pieces.drop_last());
    }
}

/// The words of a record are what stands between its spaces.
pub proof fn law_record_words(line: Seq<char>)
    ensures
        record_words(line) == split(line, ' ').filter(|p: Seq<char>| p.len() > 0),
{
    lemma_nonempty(split(line, ' '));
}

proof fn lemma_record_marks(words: Seq<Seq<char>>, i: int)
    requires
        1 <= i <= words.len(),
    ensures
        record_mark_fault(words, i) is None <==> forall|k: int|
            i <= k < words.len() ==> is_mark_text(#[trigger] words[k]),
    decreases words.len() - i,
{
    if i < words.len() {
        law_mark_fault(words[i]);
        lemma_record_marks(words, i + 1);
    }
}

/// A line is a record exactly where its first word names a case, or a row by
/// labels and a star, and the others are marks of features that differ.
pub proof fn law_is_record(line: Seq<char>)
    ensures
        is_record(line) <==> {
            let words = record_words(line);
            &&& words.len() > 0
            &&& forall|k: int| 1 <= k < words.len() ==> is_mark_text(#[trigger] words[k])
            &&& is_mark_set(marks_of(words.drop_first()))
            &&& if is_row_record(words[0]) {
                forall|k: int|
                    0 <= k < split(words[0].take(words[0].len() - 2), '/').len() ==> is_label(
                        #[trigger] split(words[0].take(words[0].len() - 2), '/')[k],
                    )
            } else {
                is_case_name(words[0])
            }
        },
{
    let words = record_words(line);
    if words.len() > 0 {
        lemma_record_marks(words, 1);
        law_mark_set_fault(marks_of(words.drop_first()));
        law_name_fault(words[0]);
        let prefix = row_prefix(words[0]);
        lemma_split_nonempty(prefix, '/');
        lemma_prefix_sound(prefix, 0);
        assert(!reading_start().seen.contains(words[0]));
    }
}

proof fn lemma_told_in_order(st: Reading, ls: Seq<Seq<char>>, i: int)
    requires
        0 <= i <= ls.len(),
        records_from(st, ls, i) is Ok,
    ensures
        ({
            let end = records_from(st, ls, i)->Ok_0.inventory;
            &&& end.cases == st.inventory.cases + ls.skip(i).filter(
                |l: Seq<char>| !is_row_record(record_name(l)),
            ).map_values(|l: Seq<char>| record_case(l))
            &&& end.generated == st.inventory.generated + ls.skip(i).filter(
                |l: Seq<char>| is_row_record(record_name(l)),
            ).map_values(|l: Seq<char>| record_row(l))
        }),
    decreases ls.len() - i,
{
    reveal(Seq::filter);
    let c = |l: Seq<char>| !is_row_record(record_name(l));
    let r = |l: Seq<char>| is_row_record(record_name(l));
    let f = |l: Seq<char>| record_case(l);
    let g = |l: Seq<char>| record_row(l);
    if i < ls.len() {
        lemma_record(st, ls[i]);
        let next = with_record(st, ls[i]);
        lemma_told_in_order(next, ls, i + 1);
        let one = seq![ls[i]];
        let rest = ls.skip(i + 1);
        assert(ls.skip(i) =~= one + rest);
        Seq::filter_distributes_over_add(one, rest, c);
        Seq::filter_distributes_over_add(one, rest, r);
        assert(one.drop_last() =~= Seq::<Seq<char>>::empty());
        assert(one.drop_last().filter(c) =~= Seq::<Seq<char>>::empty());
        assert(one.drop_last().filter(r) =~= Seq::<Seq<char>>::empty());
        assert(one.filter(c) =~= if c(ls[i]) { one } else { Seq::empty() });
        assert(one.filter(r) =~= if r(ls[i]) { one } else { Seq::empty() });
        let (x, y) = (rest.filter(c).map_values(f), rest.filter(r).map_values(g));
        if c(ls[i]) {
            assert(ls.skip(i).filter(c).map_values(f) =~= seq![f(ls[i])] + x);
            assert(next.inventory.cases + x =~= st.inventory.cases + (seq![f(ls[i])] + x));
            assert(ls.skip(i).filter(r) =~= rest.filter(r));
        } else {
            assert(ls.skip(i).filter(r).map_values(g) =~= seq![g(ls[i])] + y);
            assert(next.inventory.generated + y =~= st.inventory.generated + (seq![g(ls[i])] + y));
            assert(ls.skip(i).filter(c) =~= rest.filter(c));
        }
    } else {
        assert(ls.skip(i) =~= Seq::<Seq<char>>::empty());
        assert(st.inventory.cases + ls.skip(i).filter(c).map_values(f) =~= st.inventory.cases);
        assert(st.inventory.generated + ls.skip(i).filter(r).map_values(g)
            =~= st.inventory.generated);
    }
}

/// Records are read exactly where they are text, every line that is not all
/// white space is a record, and no name occurs twice. What is read are the
/// cases and the rows that they tell, each in the order of the text.
pub proof fn law_records_read(bytes: Seq<u8>)
    ensures
        ({
            let ls = lines(decode_utf8(bytes)).filter(|l: Seq<char>| !is_blank(l));
            &&& inventory_of(bytes) is Ok <==> valid_utf8(bytes) && are_records(ls)
            &&& inventory_of(bytes) is Ok ==> inventory_of(bytes)->Ok_0 == (InventoryView {
                cases: ls.filter(|l: Seq<char>| !is_row_record(record_name(l))).map_values(
                    |l: Seq<char>| record_case(l),
                ),
                generated: ls.filter(|l: Seq<char>| is_row_record(record_name(l))).map_values(
                    |l: Seq<char>| record_row(l),
                ),
            })
        }),
{
    let text = decode_utf8(bytes);
    law_content_lines(text);
    let ls = content_lines(text);
    let st = reading_start();
    lemma_readable(st, ls, 0);
    assert(are_records(ls) <==> readable(st.seen, ls, 0));
    if valid_utf8(bytes) && records_from(st, ls, 0) is Ok {
        lemma_told_in_order(st, ls, 0);
        assert(ls.skip(0) =~= ls);
        let i = records_from(st, ls, 0)->Ok_0.inventory;
        let cs = ls.filter(|l: Seq<char>| !is_row_record(record_name(l))).map_values(
            |l: Seq<char>| record_case(l),
        );
        let rs = ls.filter(|l: Seq<char>| is_row_record(record_name(l))).map_values(
            |l: Seq<char>| record_row(l),
        );
        assert(Seq::<EntryView>::empty() + cs =~= cs);
        assert(Seq::<RowView>::empty() + rs =~= rs);
    }
}

} // verus!
