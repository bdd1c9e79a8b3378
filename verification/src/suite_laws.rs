//! What holds of every suite: how marks inherit, and that the inventory
//! reads back what a suite records.

use vstd::prelude::*;
use vstd::utf8::{encode_utf8, encode_utf8_decode_utf8, encode_utf8_valid_utf8};

use crate::feature::{
    is_mark_set, law_mark_fault, law_mark_roundtrip, law_mark_set_fault, mark_fault, mark_set_fault,
    mark_text, MarkView,
};
use crate::inventory::{
    inventory_of, is_row_record, nonempty, reading_start, record_mark_fault, record_step,
    record_words, records_from, row_prefix, InventoryView, Reading,
};
use crate::lockfile::{prefix_fault, EntryView, RowView};
use crate::name::{
    fault_text, is_case_name, is_digit, is_label, is_lower, is_mark_text, is_segment,
    is_segment_char, label_fault, law_label_fault, law_name_fault, name_fault, parts_of, under,
};
use crate::stream::{is_line, law_lines_roundtrip, terminated_lines};
use crate::suite::{
    args_tags, case_marks, case_names_fault, collected, def_names, find_foreign, find_named,
    find_row_attr, fn_step, gen_marks, has_named, is_foreign, is_named, item_step, last_part,
    level_fault, merge_fault, merged, name_under, nothing, overlap_fault, overlaid, pair_fault,
    pairing_fault, prefixes_fault, records, root_name, row_record, row_records, segment_of,
    segments_fault, spaced, suite_fault, under_fault, walked, without_feature, without_raw,
    Attribute, CaseDefView, Collected, FnItem, GenDefView, ModItem, Place, SuiteFault, SuiteItem,
};
use crate::tags::{law_unpaired, marks_of, unpaired};
use crate::text::{
    byte_len, concat, is_space, join, lemma_split_char, lemma_split_concat, lemma_split_nonempty,
    lemma_split_single, split, starts_with,
};

verus! {

// ---------------------------------------------------------------------
// Inheritance
// ---------------------------------------------------------------------

/// Is every mark about a label, and every feature marked once?
pub open spec fn sound_marks(ms: Seq<MarkView>) -> bool {
    is_mark_set(ms) && forall|i: int| 0 <= i < ms.len() ==> is_label((#[trigger] ms[i]).feature)
}

/// Is one of the marks about the feature?
pub open spec fn speaks_of(ms: Seq<MarkView>, feature: Seq<char>) -> bool {
    exists|i: int| 0 <= i < ms.len() && (#[trigger] ms[i]).feature == feature
}

proof fn lemma_without_feature(scope: Seq<MarkView>, feature: Seq<char>)
    ensures
        ({
            let r = without_feature(scope, feature);
            &&& forall|m: MarkView|
                r.contains(m) <==> scope.contains(m) && m.feature != feature
            &&& sound_marks(scope) ==> sound_marks(r)
        }),
    decreases scope.len(),
{
    let r = without_feature(scope, feature);
    if scope.len() > 0 {
        let init = scope.drop_last();
        let last = scope.last();
        lemma_without_feature(init, feature);
        let q = without_feature(init, feature);
        assert(scope =~= init.push(last));
        assert forall|m: MarkView| r.contains(m) <==> scope.contains(m) && m.feature != feature by {
            if r.contains(m) {
                let i = choose|i: int| 0 <= i < r.len() && r[i] == m;
                if last.feature != feature && i == q.len() {
                    assert(scope[scope.len() - 1] == m);
                } else {
                    assert(q[i] == m);
                    assert(q.contains(m));
                    let k = choose|k: int| 0 <= k < init.len() && init[k] == m;
                    assert(scope[k] == m);
                }
            }
            if scope.contains(m) && m.feature != feature {
                let k = choose|k: int| 0 <= k < scope.len() && scope[k] == m;
                if k < init.len() {
                    assert(init[k] == m);
                    assert(init.contains(m));
                    let i = choose|i: int| 0 <= i < q.len() && q[i] == m;
                    assert(r[i] == m);
                } else {
                    assert(r[r.len() - 1] == m);
                }
            }
        }
        if sound_marks(scope) {
            assert(sound_marks(init)) by {
                assert forall|i: int| 0 <= i < init.len() implies is_label(
                    (#[trigger] init[i]).feature,
                ) by {
                    assert(init[i] == scope[i]);
                }
                assert forall|i: int, j: int| 0 <= i < j < init.len() implies (
                #[trigger] init[i]).feature != (#[trigger] init[j]).feature by {
                    assert(init[i] == scope[i] && init[j] == scope[j]);
                }
            }
            if last.feature != feature {
                assert forall|i: int, j: int| 0 <= i < j < r.len() implies (
                #[trigger] r[i]).feature != (#[trigger] r[j]).feature by {
                    assert(r[i] == q[i]);
                    if j == q.len() {
                        assert(q.contains(q[i]));
                        let k = choose|k: int| 0 <= k < init.len() && init[k] == q[i];
                        assert(scope[k] == q[i] && scope[scope.len() - 1] == last);
                    }
                }
                assert forall|i: int| 0 <= i < r.len() implies is_label(
                    (#[trigger] r[i]).feature,
                ) by {
                    if i == q.len() {
                        assert(scope[scope.len() - 1] == r[i]);
                    }
                }
            }
        }
    }
}

proof fn lemma_overlaid(scope: Seq<MarkView>, level: Seq<MarkView>, n: int)
    requires
        0 <= n <= level.len(),
        is_mark_set(level),
    ensures
        ({
            let r = overlaid(scope, level, n);
            &&& forall|m: MarkView|
                r.contains(m) <==> (level.take(n).contains(m) || (scope.contains(m) && !speaks_of(
                    level.take(n),
                    m.feature,
                )))
            &&& sound_marks(scope) && sound_marks(level) ==> sound_marks(r)
        }),
    decreases n,
{
    let r = overlaid(scope, level, n);
    if n <= 0 {
        assert(level.take(n) =~= Seq::<MarkView>::empty());
    } else {
        let x = level[n - 1];
        let before = level.take(n - 1);
        let upto = level.take(n);
        lemma_overlaid(scope, level, n - 1);
        let q = overlaid(scope, level, n - 1);
        lemma_without_feature(q, x.feature);
        let w = without_feature(q, x.feature);
        assert(upto =~= before.push(x));
        assert forall|m: MarkView|
            r.contains(m) <==> (upto.contains(m) || (scope.contains(m) && !speaks_of(
                upto,
                m.feature,
            ))) by {
            assert(r.contains(m) <==> w.contains(m) || m == x) by {
                if r.contains(m) {
                    let i = choose|i: int| 0 <= i < r.len() && r[i] == m;
                    if i < w.len() {
                        assert(w[i] == m);
                    }
                }
                if w.contains(m) {
                    let i = choose|i: int| 0 <= i < w.len() && w[i] == m;
                    assert(r[i] == m);
                }
                assert(r[r.len() - 1] == x);
            }
            assert(upto.contains(m) <==> before.contains(m) || m == x) by {
                if upto.contains(m) {
                    let i = choose|i: int| 0 <= i < upto.len() && upto[i] == m;
                    if i < before.len() {
                        assert(before[i] == m);
                    }
                }
                if before.contains(m) {
                    let i = choose|i: int| 0 <= i < before.len() && before[i] == m;
                    assert(upto[i] == m);
                }
                assert(upto[n - 1] == x);
            }
            assert(speaks_of(upto, m.feature) <==> speaks_of(before, m.feature) || m.feature
                == x.feature) by {
                if speaks_of(upto, m.feature) {
                    let i = choose|i: int|
                        0 <= i < upto.len() && (#[trigger] upto[i]).feature == m.feature;
                    if i < before.len() {
                        assert(before[i].feature == m.feature);
                    }
                }
                if speaks_of(before, m.feature) {
                    let i = choose|i: int|
                        0 <= i < before.len() && (#[trigger] before[i]).feature == m.feature;
                    assert(upto[i].feature == m.feature);
                }
                assert(upto[n - 1].feature == x.feature);
            }
            if before.contains(m) {
                let i = choose|i: int| 0 <= i < before.len() && before[i] == m;
                assert(level[i] == m && level[n - 1] == x);
                assert(m.feature != x.feature);
            }
        }
        if sound_marks(scope) && sound_marks(level) {
            assert forall|i: int, j: int| 0 <= i < j < r.len() implies (#[trigger] r[i]).feature
                != (#[trigger] r[j]).feature by {
                assert(r[i] == w[i]);
                if j == w.len() {
                    assert(w.contains(w[i]));
                } else {
                    assert(r[j] == w[j]);
                }
            }
            assert forall|i: int| 0 <= i < r.len() implies is_label((#[trigger] r[i]).feature) by {
                if i < w.len() {
                    assert(r[i] == w[i]);
                } else {
                    assert(level[n - 1] == x);
                }
            }
        }
    }
}

proof fn lemma_level(level: Seq<Seq<char>>, i: int)
    requires
        0 <= i <= level.len(),
        level_fault(level, i) is None,
    ensures
        forall|k: int| i <= k < level.len() ==> mark_fault(#[trigger] level[k]) is None,
    decreases level.len() - i,
{
    if i < level.len() {
        lemma_level(level, i + 1);
    }
}

proof fn lemma_level_sound(level: Seq<Seq<char>>)
    requires
        merge_fault(level) is None,
    ensures
        sound_marks(marks_of(level)),
{
    let ms = marks_of(level);
    lemma_level(level, 0);
    law_mark_set_fault(ms);
    assert forall|i: int| 0 <= i < ms.len() implies is_label((#[trigger] ms[i]).feature) by {
        assert(mark_fault(level[i]) is None);
        law_label_fault(ms[i].feature);
    }
}

/// Per feature the nearest declaration wins whole: every mark of the level
/// holds, and a mark of the scope holds exactly where the level says nothing
/// of its feature. A sound scope stays sound.
pub proof fn law_nearest_declaration_wins(scope: Seq<MarkView>, level: Seq<Seq<char>>)
    requires
        merge_fault(level) is None,
    ensures
        forall|m: MarkView|
            merged(scope, level).contains(m) <==> (marks_of(level).contains(m) || (scope.contains(m)
                && !speaks_of(marks_of(level), m.feature))),
        sound_marks(scope) ==> sound_marks(merged(scope, level)),
{
    let ms = marks_of(level);
    lemma_level_sound(level);
    lemma_overlaid(scope, ms, ms.len() as int);
    assert(ms.take(ms.len() as int) =~= ms);
}

// ---------------------------------------------------------------------
// Marks of a suite
// ---------------------------------------------------------------------

/// Are the marks of everything collected sound?
pub open spec fn sound(c: Collected) -> bool {
    &&& forall|i: int| 0 <= i < c.cases.len() ==> sound_marks((#[trigger] c.cases[i]).tags)
    &&& forall|i: int| 0 <= i < c.gens.len() ==> sound_marks((#[trigger] c.gens[i]).tags)
}

proof fn lemma_fn_sound(
    c: Collected,
    f: FnItem,
    prefix: Seq<char>,
    path: Seq<Seq<char>>,
    scope: Seq<MarkView>,
)
    requires
        sound(c),
        sound_marks(scope),
        fn_step(c, f, prefix, path, scope) is Ok,
    ensures
        sound(fn_step(c, f, prefix, path, scope)->Ok_0),
{
    let d = fn_step(c, f, prefix, path, scope)->Ok_0;
    assert forall|level: Seq<Seq<char>>| merge_fault(level) is None implies sound_marks(
        #[trigger] merged(scope, level),
    ) by {
        law_nearest_declaration_wins(scope, level);
    }
    assert forall|i: int| 0 <= i < d.cases.len() implies sound_marks((#[trigger] d.cases[i]).tags) by {
        if i < c.cases.len() {
            assert(d.cases[i] == c.cases[i]);
        }
    }
    assert forall|i: int| 0 <= i < d.gens.len() implies sound_marks((#[trigger] d.gens[i]).tags) by {
        if i < c.gens.len() {
            assert(d.gens[i] == c.gens[i]);
        }
    }
}

proof fn lemma_item_sound(
    c: Collected,
    item: SuiteItem,
    prefix: Seq<char>,
    path: Seq<Seq<char>>,
    scope: Seq<MarkView>,
)
    requires
        sound(c),
        sound_marks(scope),
        item_step(c, item, prefix, path, scope) is Ok,
    ensures
        sound(item_step(c, item, prefix, path, scope)->Ok_0),
    decreases item, 0int,
{
    match item {
        SuiteItem::Other => {},
        SuiteItem::Function(f) => {
            lemma_fn_sound(c, f, prefix, path, scope);
        },
        SuiteItem::Module(m) => {
            let at = crate::suite::find_named(m.attrs@, "cases"@, 0);
            let tags = if at < m.attrs@.len() {
                crate::suite::args_tags(m.attrs@[at])
            } else {
                Seq::empty()
            };
            law_nearest_declaration_wins(scope, tags);
            let children = m.items->0;
            lemma_walk_sound(
                c,
                children@,
                crate::suite::name_under(prefix, crate::suite::segment_of(m.ident@)),
                path.push(m.ident@),
                merged(scope, tags),
                children@.len() as int,
            );
        },
    }
}

proof fn lemma_walk_sound(
    c: Collected,
    items: Seq<SuiteItem>,
    prefix: Seq<char>,
    path: Seq<Seq<char>>,
    scope: Seq<MarkView>,
    n: int,
)
    requires
        sound(c),
        sound_marks(scope),
        walked(c, items, prefix, path, scope, n) is Ok,
    ensures
        sound(walked(c, items, prefix, path, scope, n)->Ok_0),
    decreases items, n,
{
    if 0 < n <= items.len() {
        lemma_walk_sound(c, items, prefix, path, scope, n - 1);
        let d = walked(c, items, prefix, path, scope, n - 1)->Ok_0;
        lemma_item_sound(d, items[n - 1], prefix, path, scope);
    }
}

/// Every case and row of a suite has a sound mark set: each feature once,
/// each a label.
pub proof fn law_suite_marks_are_sound(root: ModItem, name: Option<Seq<char>>)
    requires
        collected(root, name) is Ok,
    ensures
        sound(collected(root, name)->Ok_0),
{
    let items = root.items->0;
    lemma_walk_sound(
        nothing(),
        items@,
        crate::suite::root_name(root.ident@, name),
        Seq::empty(),
        Seq::empty(),
        items@.len() as int,
    );
}

// ---------------------------------------------------------------------
// Records
// ---------------------------------------------------------------------

/// A character that a record's words are made of.
pub open spec fn is_word_char(c: char) -> bool {
    is_segment_char(c) || c == '/' || c == '!' || c == '*'
}

/// A word of a record.
pub open spec fn is_record_word(w: Seq<char>) -> bool {
    w.len() > 0 && forall|i: int| 0 <= i < w.len() ==> is_word_char(#[trigger] w[i])
}

proof fn lemma_label_chars(s: Seq<char>)
    requires
        is_label(s),
    ensures
        s.len() > 0,
        forall|i: int| 0 <= i < s.len() ==> is_segment_char(#[trigger] s[i]),
{
    let words = split(s, '-');
    lemma_split_nonempty(s, '-');
    if s.len() == 0 {
        assert(words[0] =~= Seq::<char>::empty());
        assert(crate::name::is_word(words[0], 0));
    }
    assert forall|i: int| 0 <= i < s.len() implies is_segment_char(#[trigger] s[i]) by {
        lemma_split_char(s, '-', i);
        if s[i] != '-' {
            let (k, j) = choose|k: int, j: int|
                0 <= k < words.len() && 0 <= j < words[k].len() && #[trigger] words[k][j] == s[i];
            assert(crate::name::is_word(words[k], k));
            assert(is_lower(words[k][j]) || is_digit(words[k][j]));
        }
    }
}

proof fn lemma_mark_word(m: MarkView)
    requires
        is_label(m.feature),
    ensures
        is_record_word(mark_text(m)),
{
    lemma_label_chars(m.feature);
    let t = mark_text(m);
    assert forall|i: int| 0 <= i < t.len() implies is_word_char(#[trigger] t[i]) by {
        if m.negative {
            if i > 0 {
                assert(t[i] == m.feature[i - 1]);
            }
        } else {
            assert(t[i] == m.feature[i]);
        }
    }
}

proof fn lemma_name_word(s: Seq<char>)
    requires
        is_case_name(s),
    ensures
        is_record_word(s),
        !is_row_record(s),
{
    let segments = split(s, '/');
    assert forall|i: int| 0 <= i < s.len() implies is_segment_char(#[trigger] s[i]) || s[i] == '/' by {
        lemma_split_char(s, '/', i);
        if s[i] != '/' {
            let (k, j) = choose|k: int, j: int|
                0 <= k < segments.len() && 0 <= j < segments[k].len() && #[trigger] segments[k][j]
                    == s[i];
            assert(is_segment(segments[k]));
        }
    }
    assert(is_segment_char(s[s.len() - 1]) || s[s.len() - 1] == '/');
}

proof fn lemma_segments(segments: Seq<Seq<char>>, i: int)
    requires
        0 <= i <= segments.len(),
        segments_fault(segments, i) is None,
    ensures
        forall|k: int| i <= k < segments.len() ==> label_fault(#[trigger] segments[k]) is None,
    decreases segments.len() - i,
{
    if i < segments.len() {
        lemma_segments(segments, i + 1);
    }
}

proof fn lemma_prefix_fault(prefix: Seq<char>, i: int)
    requires
        0 <= i <= split(prefix, '/').len(),
        forall|k: int|
            i <= k < split(prefix, '/').len() ==> label_fault(#[trigger] split(prefix, '/')[k])
                is None,
    ensures
        prefix_fault(prefix, i) is None,
    decreases split(prefix, '/').len() - i,
{
    if i < split(prefix, '/').len() {
        assert(label_fault(split(prefix, '/')[i]) is None);
        lemma_prefix_fault(prefix, i + 1);
    }
}

proof fn lemma_row_word(prefix: Seq<char>)
    requires
        segments_fault(split(prefix, '/'), 0) is None,
    ensures
        is_record_word(row_record(prefix)),
        is_row_record(row_record(prefix)),
        row_prefix(row_record(prefix)) == prefix,
        prefix_fault(prefix, 0) is None,
{
    let segments = split(prefix, '/');
    lemma_segments(segments, 0);
    lemma_prefix_fault(prefix, 0);
    reveal_strlit("/*");
    let r = row_record(prefix);
    assert(r.len() == prefix.len() + 2);
    assert(r[prefix.len() as int] == '/' && r[prefix.len() as int + 1] == '*');
    assert(row_prefix(r) =~= prefix);
    assert forall|i: int| 0 <= i < r.len() implies is_word_char(#[trigger] r[i]) by {
        if i < prefix.len() {
            assert(r[i] == prefix[i]);
            lemma_split_char(prefix, '/', i);
            if prefix[i] != '/' {
                let (k, j) = choose|k: int, j: int|
                    0 <= k < segments.len() && 0 <= j < segments[k].len()
                        && #[trigger] segments[k][j] == prefix[i];
                law_label_fault(segments[k]);
                lemma_label_chars(segments[k]);
            }
        }
    }
}

/// The words of a record.
pub open spec fn words_of(name: Seq<char>, marks: Seq<MarkView>) -> Seq<Seq<char>> {
    seq![name] + Seq::new(marks.len(), |i: int| mark_text(marks[i]))
}

proof fn lemma_split_record(name: Seq<char>, marks: Seq<MarkView>, n: int)
    requires
        0 <= n <= marks.len(),
        is_record_word(name),
        sound_marks(marks),
    ensures
        split(name + spaced(marks, n), ' ') == words_of(name, marks).take(n + 1),
        forall|i: int|
            0 <= i < (name + spaced(marks, n)).len() ==> is_word_char(
                #[trigger] (name + spaced(marks, n))[i],
            ) || (name + spaced(marks, n))[i] == ' ',
    decreases n,
{
    let s = name + spaced(marks, n);
    if n == 0 {
        assert(s =~= name);
        assert(!name.contains(' ')) by {
            if name.contains(' ') {
                let i = choose|i: int| 0 <= i < name.len() && name[i] == ' ';
                assert(is_word_char(name[i]));
            }
        }
        lemma_split_single(name, ' ');
        assert(words_of(name, marks).take(1) =~= seq![name]);
    } else {
        lemma_split_record(name, marks, n - 1);
        let a = name + spaced(marks, n - 1);
        let b = mark_text(marks[n - 1]);
        reveal_strlit(" ");
        assert(s =~= a.push(' ') + b);
        lemma_split_concat(a, b, ' ');
        lemma_mark_word(marks[n - 1]);
        assert(!b.contains(' ')) by {
            if b.contains(' ') {
                let i = choose|i: int| 0 <= i < b.len() && b[i] == ' ';
                assert(is_word_char(b[i]));
            }
        }
        lemma_split_single(b, ' ');
        assert(words_of(name, marks).take(n + 1) =~= words_of(name, marks).take(n) + seq![b]);
        assert forall|i: int| 0 <= i < s.len() implies is_word_char(#[trigger] s[i]) || s[i]
            == ' ' by {
            if i < a.len() {
                assert(s[i] == a[i]);
            } else if i > a.len() {
                assert(s[i] == b[i - a.len() - 1]);
            }
        }
    }
}

proof fn lemma_nonempty_all(pieces: Seq<Seq<char>>)
    requires
        forall|i: int| 0 <= i < pieces.len() ==> (#[trigger] pieces[i]).len() > 0,
    ensures
        nonempty(pieces) == pieces,
    decreases pieces.len(),
{
    if pieces.len() > 0 {
        let init = pieces.drop_last();
        assert forall|i: int| 0 <= i < init.len() implies (#[trigger] init[i]).len() > 0 by {
            assert(init[i] == pieces[i]);
        }
        lemma_nonempty_all(init);
        assert(pieces[pieces.len() - 1].len() > 0);
        assert(init.push(pieces.last()) =~= pieces);
    } else {
        assert(nonempty(pieces) =~= pieces);
    }
}

proof fn lemma_record_marks(words: Seq<Seq<char>>, i: int)
    requires
        1 <= i <= words.len(),
        forall|k: int| 1 <= k < words.len() ==> mark_fault(#[trigger] words[k]) is None,
    ensures
        record_mark_fault(words, i) is None,
    decreases words.len() - i,
{
    if i < words.len() {
        assert(mark_fault(words[i]) is None);
        lemma_record_marks(words, i + 1);
    }
}

/// A record without its line feed.
pub open spec fn record_text(name: Seq<char>, marks: Seq<MarkView>) -> Seq<char> {
    name + spaced(marks, marks.len() as int)
}

/// Reading one record gives its name and its marks, and the line holds
/// nothing else.
proof fn lemma_record(name: Seq<char>, marks: Seq<MarkView>)
    requires
        is_record_word(name),
        sound_marks(marks),
    ensures
        is_line(record_text(name, marks)),
        record_words(record_text(name, marks)) == words_of(name, marks),
        record_mark_fault(words_of(name, marks), 1) is None,
        marks_of(words_of(name, marks).drop_first()) == marks,
        mark_set_fault(marks) is None,
{
    let n = marks.len() as int;
    let s = record_text(name, marks);
    let words = words_of(name, marks);
    lemma_split_record(name, marks, n);
    assert(words.take(n + 1) =~= words);
    assert forall|i: int| 0 <= i < words.len() implies (#[trigger] words[i]).len() > 0 by {
        if i > 0 {
            lemma_mark_word(marks[i - 1]);
        }
    }
    lemma_nonempty_all(words);
    assert(is_line(s)) by {
        assert(is_word_char(name[0]));
        assert(s[0] == name[0]);
        assert(!is_space(s[0]));
        if s.contains('\n') {
            let i = choose|i: int| 0 <= i < s.len() && s[i] == '\n';
            assert(is_word_char(s[i]) || s[i] == ' ');
        }
        assert(is_word_char(s[s.len() - 1]) || s[s.len() - 1] == ' ');
    }
    assert forall|k: int| 1 <= k < words.len() implies mark_fault(#[trigger] words[k]) is None by {
        law_mark_roundtrip(marks[k - 1]);
    }
    lemma_record_marks(words, 1);
    let rest = words.drop_first();
    assert(marks_of(rest) =~= marks) by {
        assert forall|i: int| 0 <= i < marks.len() implies #[trigger] marks_of(rest)[i]
            == marks[i] by {
            assert(rest[i] == mark_text(marks[i]));
            law_mark_roundtrip(marks[i]);
        }
    }
    law_mark_set_fault(marks);
}

// ---------------------------------------------------------------------
// Reading a suite back
// ---------------------------------------------------------------------

/// The inventory's entries for the cases.
pub open spec fn entries_of(cases: Seq<CaseDefView>) -> Seq<EntryView> {
    Seq::new(
        cases.len(),
        |i: int| EntryView { name: parts_of(cases[i].name), tags: cases[i].tags },
    )
}

/// The inventory's entries for the rows.
pub open spec fn rows_of(gens: Seq<GenDefView>) -> Seq<RowView> {
    Seq::new(
        gens.len(),
        |i: int| RowView { prefix: gens[i].prefix, tags: gens[i].tags, cases: Seq::empty() },
    )
}

/// The inventory of a suite, in source order.
pub open spec fn suite_inventory(c: Collected) -> InventoryView {
    InventoryView { cases: entries_of(c.cases), generated: rows_of(c.gens) }
}

/// The lines of a suite's records.
pub open spec fn record_texts(c: Collected) -> Seq<Seq<char>> {
    Seq::new(c.cases.len(), |i: int| record_text(c.cases[i].name, c.cases[i].tags)) + Seq::new(
        c.gens.len(),
        |i: int| record_text(row_record(c.gens[i].prefix), c.gens[i].tags),
    )
}

/// What has been read after the first `n` records of a suite.
spec fn read_so_far(c: Collected, n: int) -> Reading {
    let names = def_names(c.cases) + row_records(c.gens);
    let k = c.cases.len() as int;
    Reading {
        inventory: InventoryView {
            cases: entries_of(c.cases).take(if n < k { n } else { k }),
            generated: rows_of(c.gens).take(if n < k { 0 } else { n - k }),
        },
        seen: names.take(n),
    }
}

proof fn lemma_cases_sound(cases: Seq<CaseDefView>, i: int)
    requires
        0 <= i <= cases.len(),
        case_names_fault(cases, i) is None,
    ensures
        forall|k: int|
            i <= k < cases.len() ==> name_fault((#[trigger] cases[k]).name) is None && !def_names(
                cases,
            ).take(k).contains(cases[k].name),
    decreases cases.len() - i,
{
    if i < cases.len() {
        lemma_cases_sound(cases, i + 1);
    }
}

proof fn lemma_gens_sound(cases: Seq<CaseDefView>, gens: Seq<GenDefView>, i: int)
    requires
        0 <= i <= gens.len(),
        prefixes_fault(cases, gens, i) is None,
    ensures
        forall|k: int|
            i <= k < gens.len() ==> segments_fault(split((#[trigger] gens[k]).prefix, '/'), 0)
                is None && !(def_names(cases) + row_records(gens).take(k)).contains(
                row_record(gens[k].prefix),
            ),
    decreases gens.len() - i,
{
    if i < gens.len() {
        lemma_gens_sound(cases, gens, i + 1);
    }
}

proof fn lemma_read_step(c: Collected, n: int)
    requires
        sound(c),
        suite_fault(c.cases, c.gens) is None,
        0 <= n < c.cases.len() + c.gens.len(),
    ensures
        is_line(record_texts(c)[n]),
        record_step(read_so_far(c, n), record_texts(c)[n]) == Ok::<Reading, Seq<char>>(
            read_so_far(c, n + 1),
        ),
{
    let k = c.cases.len() as int;
    let names = def_names(c.cases) + row_records(c.gens);
    let st = read_so_far(c, n);
    let next = read_so_far(c, n + 1);
    lemma_cases_sound(c.cases, 0);
    lemma_gens_sound(c.cases, c.gens, 0);
    if n < k {
        let d = c.cases[n];
        assert(sound_marks(d.tags));
        law_name_fault(d.name);
        lemma_name_word(d.name);
        lemma_record(d.name, d.tags);
        assert(record_texts(c)[n] == record_text(d.name, d.tags));
        assert(words_of(d.name, d.tags)[0] == d.name);
        assert(names.take(n) =~= def_names(c.cases).take(n));
        assert(names.take(n + 1) =~= names.take(n).push(d.name));
        assert(entries_of(c.cases).take(n + 1) =~= entries_of(c.cases).take(n).push(
            EntryView { name: parts_of(d.name), tags: d.tags },
        ));
        assert(next.inventory.generated =~= st.inventory.generated);
    } else {
        let g = c.gens[n - k];
        let name = row_record(g.prefix);
        assert(sound_marks(g.tags));
        lemma_row_word(g.prefix);
        lemma_record(name, g.tags);
        assert(record_texts(c)[n] == record_text(name, g.tags));
        assert(words_of(name, g.tags)[0] == name);
        assert(names.take(n) =~= def_names(c.cases) + row_records(c.gens).take(n - k));
        assert(names.take(n + 1) =~= names.take(n).push(name));
        assert(rows_of(c.gens).take(n + 1 - k) =~= rows_of(c.gens).take(n - k).push(
            RowView { prefix: g.prefix, tags: g.tags, cases: Seq::empty() },
        ));
        assert(next.inventory.cases =~= st.inventory.cases);
    }
}

proof fn lemma_read_from(c: Collected, n: int)
    requires
        sound(c),
        suite_fault(c.cases, c.gens) is None,
        0 <= n <= c.cases.len() + c.gens.len(),
    ensures
        records_from(read_so_far(c, n), record_texts(c), n) == Ok::<Reading, Seq<char>>(
            read_so_far(c, (c.cases.len() + c.gens.len()) as int),
        ),
    decreases c.cases.len() + c.gens.len() - n,
{
    if n < c.cases.len() + c.gens.len() {
        lemma_read_step(c, n);
        lemma_read_from(c, n + 1);
    }
}

proof fn lemma_concat_terminated(lines: Seq<Seq<char>>, parts: Seq<Seq<char>>)
    requires
        lines.len() == parts.len(),
        forall|i: int| 0 <= i < lines.len() ==> #[trigger] parts[i] == lines[i].push('\n'),
    ensures
        concat(parts) == terminated_lines(lines),
    decreases lines.len(),
{
    if lines.len() > 0 {
        let n = lines.len() - 1;
        assert forall|i: int| 0 <= i < n implies #[trigger] parts.drop_last()[i]
            == lines.drop_last()[i].push('\n') by {
            assert(parts[i] == lines[i].push('\n'));
        }
        lemma_concat_terminated(lines.drop_last(), parts.drop_last());
        assert(parts[n] == lines[n].push('\n'));
    }
}

/// The inventory reads back exactly what a suite records: every case and
/// row, with its marks, in source order.
pub proof fn law_records_read_back(root: ModItem, name: Option<Seq<char>>)
    requires
        collected(root, name) is Ok,
    ensures
        ({
            let c = collected(root, name)->Ok_0;
            inventory_of(encode_utf8(concat(records(c.cases, c.gens)))) == Ok::<
                InventoryView,
                Seq<char>,
            >(suite_inventory(c))
        }),
{
    let c = collected(root, name)->Ok_0;
    law_suite_marks_are_sound(root, name);
    let texts = record_texts(c);
    let recs = records(c.cases, c.gens);
    let n = c.cases.len() + c.gens.len();
    reveal_strlit("\n");
    assert forall|i: int| 0 <= i < n implies #[trigger] recs[i] == texts[i].push('\n') by {
        assert(recs[i] =~= texts[i].push('\n'));
    }
    lemma_concat_terminated(texts, recs);
    let text = concat(recs);
    assert forall|i: int| 0 <= i < texts.len() implies is_line(#[trigger] texts[i]) by {
        lemma_read_step(c, i);
    }
    law_lines_roundtrip(texts);
    encode_utf8_valid_utf8(text);
    encode_utf8_decode_utf8(text);
    assert(read_so_far(c, 0) =~= reading_start()) by {
        assert(read_so_far(c, 0).inventory.cases =~= Seq::<EntryView>::empty());
        assert(read_so_far(c, 0).inventory.generated =~= Seq::<RowView>::empty());
        assert(read_so_far(c, 0).seen =~= Seq::<Seq<char>>::empty());
    }
    lemma_read_from(c, 0);
    assert(read_so_far(c, n as int).inventory =~= suite_inventory(c)) by {
        assert(entries_of(c.cases).take(c.cases.len() as int) =~= entries_of(c.cases));
        assert(rows_of(c.gens).take(c.gens.len() as int) =~= rows_of(c.gens));
    }
}

// ---------------------------------------------------------------------
// What a sound suite is
// ---------------------------------------------------------------------

/// Are the cases named, and named apart?
pub open spec fn well_named(cases: Seq<CaseDefView>) -> bool {
    &&& forall|i: int| 0 <= i < cases.len() ==> is_case_name((#[trigger] cases[i]).name)
    &&& forall|i: int, j: int|
        0 <= i < j < cases.len() ==> (#[trigger] cases[i]).name != (#[trigger] cases[j]).name
}

/// Is every segment of the prefix a label?
pub open spec fn is_prefix(prefix: Seq<char>) -> bool {
    forall|k: int| 0 <= k < split(prefix, '/').len() ==> is_label(#[trigger] split(prefix, '/')[k])
}

/// Do the generated rows have prefixes, and no two the same?
pub open spec fn well_prefixed(gens: Seq<GenDefView>) -> bool {
    &&& forall|i: int| 0 <= i < gens.len() ==> is_prefix((#[trigger] gens[i]).prefix)
    &&& forall|i: int, j: int|
        0 <= i < j < gens.len() ==> (#[trigger] gens[i]).prefix != (#[trigger] gens[j]).prefix
}

/// Can no leaf of a row be taken for a case, or for a leaf of another row?
pub open spec fn leaves_apart(cases: Seq<CaseDefView>, gens: Seq<GenDefView>) -> bool {
    &&& forall|i: int, j: int|
        0 <= i < cases.len() && 0 <= j < gens.len() ==> !under(
            (#[trigger] cases[i]).name,
            (#[trigger] gens[j]).prefix,
        )
    &&& forall|i: int, j: int|
        0 <= i < gens.len() && 0 <= j < gens.len() && i != j ==> !under(
            (#[trigger] gens[i]).prefix,
            (#[trigger] gens[j]).prefix,
        )
}

/// Does some case or row carry the mark?
pub open spec fn carries(cases: Seq<CaseDefView>, gens: Seq<GenDefView>, m: MarkView) -> bool {
    (exists|i: int| 0 <= i < cases.len() && (#[trigger] cases[i]).tags.contains(m)) || (exists|i: int|
        0 <= i < gens.len() && (#[trigger] gens[i]).tags.contains(m))
}

/// Is every feature that something requires declined by something?
pub open spec fn every_feature_is_declined(cases: Seq<CaseDefView>, gens: Seq<GenDefView>) -> bool {
    forall|f: Seq<char>| #[trigger]
        carries(cases, gens, MarkView { feature: f, negative: false }) ==> carries(
            cases,
            gens,
            MarkView { feature: f, negative: true },
        )
}

proof fn lemma_case_names(cases: Seq<CaseDefView>, i: int)
    requires
        0 <= i <= cases.len(),
    ensures
        case_names_fault(cases, i) is None <==> forall|k: int|
            i <= k < cases.len() ==> is_case_name((#[trigger] cases[k]).name) && !def_names(
                cases,
            ).take(k).contains(cases[k].name),
    decreases cases.len() - i,
{
    if i < cases.len() {
        law_name_fault(cases[i].name);
        lemma_case_names(cases, i + 1);
    }
}

proof fn lemma_well_named(cases: Seq<CaseDefView>)
    ensures
        case_names_fault(cases, 0) is None <==> well_named(cases),
{
    lemma_case_names(cases, 0);
    let names = def_names(cases);
    if case_names_fault(cases, 0) is None {
        assert forall|i: int, j: int| 0 <= i < j < cases.len() implies (#[trigger] cases[i]).name != (
        #[trigger] cases[j]).name by {
            assert(names.take(j)[i] == cases[i].name);
        }
    }
    if well_named(cases) {
        assert forall|k: int| 0 <= k < cases.len() implies is_case_name((#[trigger] cases[k]).name)
            && !names.take(k).contains(cases[k].name) by {
            if names.take(k).contains(cases[k].name) {
                let some = names.take(k);
                let x = choose|x: int| 0 <= x < some.len() && some[x] == cases[k].name;
                assert(cases[x].name == cases[k].name);
            }
        }
    }
}

proof fn lemma_segments_fault(segments: Seq<Seq<char>>, i: int)
    requires
        0 <= i <= segments.len(),
    ensures
        segments_fault(segments, i) is None <==> forall|k: int|
            i <= k < segments.len() ==> is_label(#[trigger] segments[k]),
    decreases segments.len() - i,
{
    if i < segments.len() {
        law_label_fault(segments[i]);
        lemma_segments_fault(segments, i + 1);
    }
}

proof fn lemma_prefixes(cases: Seq<CaseDefView>, gens: Seq<GenDefView>, i: int)
    requires
        0 <= i <= gens.len(),
    ensures
        prefixes_fault(cases, gens, i) is None <==> forall|k: int|
            i <= k < gens.len() ==> is_prefix((#[trigger] gens[k]).prefix) && !(def_names(cases)
                + row_records(gens).take(k)).contains(row_record(gens[k].prefix)),
    decreases gens.len() - i,
{
    if i < gens.len() {
        lemma_segments_fault(split(gens[i].prefix, '/'), 0);
        lemma_prefixes(cases, gens, i + 1);
    }
}

proof fn lemma_row_record_injective(a: Seq<char>, b: Seq<char>)
    requires
        row_record(a) == row_record(b),
    ensures
        a == b,
{
    assert(a =~= row_record(a).take(row_record(a).len() - "/*"@.len()));
    assert(b =~= row_record(b).take(row_record(b).len() - "/*"@.len()));
}

proof fn lemma_well_prefixed(cases: Seq<CaseDefView>, gens: Seq<GenDefView>)
    requires
        well_named(cases),
    ensures
        prefixes_fault(cases, gens, 0) is None <==> well_prefixed(gens),
{
    lemma_prefixes(cases, gens, 0);
    let names = def_names(cases);
    let rows = row_records(gens);
    if prefixes_fault(cases, gens, 0) is None {
        assert forall|i: int, j: int| 0 <= i < j < gens.len() implies (#[trigger] gens[i]).prefix != (
        #[trigger] gens[j]).prefix by {
            let before = names + rows.take(j);
            assert(before[names.len() + i] == row_record(gens[i].prefix));
            assert(!before.contains(row_record(gens[j].prefix)));
        }
    }
    if well_prefixed(gens) {
        assert forall|k: int| 0 <= k < gens.len() implies is_prefix((#[trigger] gens[k]).prefix) && !(
        names + rows.take(k)).contains(row_record(gens[k].prefix)) by {
            let before = names + rows.take(k);
            let mine = row_record(gens[k].prefix);
            if before.contains(mine) {
                let x = choose|x: int| 0 <= x < before.len() && before[x] == mine;
                if x < names.len() {
                    assert(cases[x].name == mine);
                    lemma_name_word(mine);
                    lemma_segments_fault(split(gens[k].prefix, '/'), 0);
                    lemma_row_word(gens[k].prefix);
                } else {
                    let y = x - names.len();
                    assert(row_record(gens[y].prefix) == mine);
                    lemma_row_record_injective(gens[y].prefix, gens[k].prefix);
                    assert(gens[y].prefix != gens[k].prefix);
                }
            }
        }
    }
}

proof fn lemma_under_fault(cases: Seq<CaseDefView>, gens: Seq<GenDefView>, i: int, j: int)
    requires
        0 <= i <= cases.len(),
        0 <= j <= gens.len(),
    ensures
        under_fault(cases, gens, i, j) is None <==> forall|a: int, b: int|
            i <= a < cases.len() && 0 <= b < gens.len() && (a > i || b >= j) ==> !under(
                (#[trigger] cases[a]).name,
                (#[trigger] gens[b]).prefix,
            ),
    decreases cases.len() - i, gens.len() - j,
{
    if i < cases.len() {
        if j >= gens.len() {
            lemma_under_fault(cases, gens, i + 1, 0);
        } else {
            lemma_under_fault(cases, gens, i, j + 1);
            if under(cases[i].name, gens[j].prefix) {
                assert(!(!under(cases[i].name, gens[j].prefix)));
            }
        }
    }
}

proof fn lemma_under_is_longer(a: Seq<char>, b: Seq<char>)
    requires
        under(a, b),
    ensures
        byte_len(a) > byte_len(b),
{
    let p = b.push('/');
    assert(a =~= p + a.skip(p.len() as int)) by {
        assert(a.subrange(0, p.len() as int) == p);
    }
    assert(p =~= b + seq!['/']);
    crate::name::lemma_encode_concat(p, a.skip(p.len() as int));
    crate::name::lemma_encode_concat(b, seq!['/']);
    vstd::utf8::is_ascii_chars_encode_utf8(seq!['/']);
}

proof fn lemma_pair(a: GenDefView, b: GenDefView)
    ensures
        pair_fault(a, b) is None <==> !under(a.prefix, b.prefix) && !under(b.prefix, a.prefix),
{
    if under(a.prefix, b.prefix) {
        lemma_under_is_longer(a.prefix, b.prefix);
    }
    if under(b.prefix, a.prefix) {
        lemma_under_is_longer(b.prefix, a.prefix);
    }
}

proof fn lemma_overlap(gens: Seq<GenDefView>, i: int, j: int)
    requires
        0 <= i < j,
        i <= gens.len(),
        i < gens.len() ==> j <= gens.len(),
    ensures
        overlap_fault(gens, i, j) is None <==> forall|a: int, b: int|
            i <= a < b < gens.len() && (a > i || b >= j) ==> !under(
                (#[trigger] gens[a]).prefix,
                (#[trigger] gens[b]).prefix,
            ) && !under(gens[b].prefix, gens[a].prefix),
    decreases gens.len() - i, gens.len() - j,
{
    if i < gens.len() {
        if j >= gens.len() {
            if i + 1 < gens.len() {
                lemma_overlap(gens, i + 1, i + 2);
            }
        } else {
            lemma_pair(gens[i], gens[j]);
            lemma_overlap(gens, i, j + 1);
        }
    }
}

proof fn lemma_case_marks(cases: Seq<CaseDefView>, n: int, m: MarkView)
    requires
        0 <= n <= cases.len(),
    ensures
        case_marks(cases, n).contains(m) <==> exists|i: int|
            0 <= i < n && (#[trigger] cases[i]).tags.contains(m),
    decreases n,
{
    if n > 0 {
        lemma_case_marks(cases, n - 1, m);
        crate::lockfile::lemma_contains_sum(case_marks(cases, n - 1), cases[n - 1].tags, m);
    }
}

proof fn lemma_gen_marks(gens: Seq<GenDefView>, n: int, m: MarkView)
    requires
        0 <= n <= gens.len(),
    ensures
        gen_marks(gens, n).contains(m) <==> exists|i: int|
            0 <= i < n && (#[trigger] gens[i]).tags.contains(m),
    decreases n,
{
    if n > 0 {
        lemma_gen_marks(gens, n - 1, m);
        crate::lockfile::lemma_contains_sum(gen_marks(gens, n - 1), gens[n - 1].tags, m);
    }
}

proof fn lemma_pairing(cases: Seq<CaseDefView>, gens: Seq<GenDefView>)
    ensures
        pairing_fault(cases, gens) is None <==> every_feature_is_declined(cases, gens),
{
    let a = case_marks(cases, cases.len() as int);
    let b = gen_marks(gens, gens.len() as int);
    let all = a + b;
    let lone = unpaired(all);
    law_unpaired(all);
    assert forall|m: MarkView| #[trigger] all.contains(m) <==> carries(cases, gens, m) by {
        lemma_case_marks(cases, cases.len() as int, m);
        lemma_gen_marks(gens, gens.len() as int, m);
        crate::lockfile::lemma_contains_sum(a, b, m);
    }
    if lone.len() > 0 {
        let f = lone[0];
        assert(lone.contains(f));
        assert(all.contains(MarkView { feature: f, negative: false }));
        assert(!all.contains(MarkView { feature: f, negative: true }));
        assert(carries(cases, gens, MarkView { feature: f, negative: false }));
    }
    if !every_feature_is_declined(cases, gens) {
        let f = choose|f: Seq<char>|
            !(#[trigger] carries(cases, gens, MarkView { feature: f, negative: false }) ==> carries(
                cases,
                gens,
                MarkView { feature: f, negative: true },
            ));
        assert(all.contains(MarkView { feature: f, negative: false }));
        assert(!all.contains(MarkView { feature: f, negative: true }));
        assert(lone.contains(f));
    }
}

/// Nothing is wrong with a suite exactly where it has a case or a row, its
/// cases and rows are named and named apart, no leaf can collide, and every
/// feature that is required is declined somewhere too.
pub proof fn law_suite_fault(cases: Seq<CaseDefView>, gens: Seq<GenDefView>)
    ensures
        suite_fault(cases, gens) is None <==> {
            &&& cases.len() + gens.len() > 0
            &&& well_named(cases)
            &&& well_prefixed(gens)
            &&& leaves_apart(cases, gens)
            &&& every_feature_is_declined(cases, gens)
        },
{
    lemma_well_named(cases);
    if well_named(cases) {
        lemma_well_prefixed(cases, gens);
    }
    lemma_under_fault(cases, gens, 0, 0);
    if gens.len() > 0 {
        lemma_overlap(gens, 0, 1);
    }
    lemma_pairing(cases, gens);
    if under_fault(cases, gens, 0, 0) is None && overlap_fault(gens, 0, 1) is None {
        assert forall|i: int, j: int|
            0 <= i < gens.len() && 0 <= j < gens.len() && i != j implies !under(
            (#[trigger] gens[i]).prefix,
            (#[trigger] gens[j]).prefix,
        ) by {
            if i < j {
                assert(!under(gens[i].prefix, gens[j].prefix) && !under(
                    gens[j].prefix,
                    gens[i].prefix,
                ));
            } else {
                assert(!under(gens[j].prefix, gens[i].prefix) && !under(
                    gens[i].prefix,
                    gens[j].prefix,
                ));
            }
        }
    }
}

// ---------------------------------------------------------------------
// What a walk collects
// ---------------------------------------------------------------------

/// An item of the tree, and the modules around it from the outside in.
pub type Spot = (SuiteItem, Seq<ModItem>);

/// The items of a tree, each where it stands, in the order of the text.
pub open spec fn spots_in(items: Seq<SuiteItem>, around: Seq<ModItem>, n: int) -> Seq<Spot>
    decreases items, n,
{
    if n <= 0 || n > items.len() {
        Seq::<Spot>::empty()
    } else {
        spots_in(items, around, n - 1) + spots_of(items[n - 1], around)
    }
}

/// An item and the items inside it.
pub open spec fn spots_of(item: SuiteItem, around: Seq<ModItem>) -> Seq<Spot>
    decreases item, 0int,
{
    match item {
        SuiteItem::Module(m) => seq![(item, around)] + (match m.items {
            Some(inside) => spots_in(inside@, around.push(m), inside@.len() as int),
            None => Seq::<Spot>::empty(),
        }),
        _ => seq![(item, around)],
    }
}

/// The attributes of that name.
pub open spec fn named_so(attrs: Seq<Attribute>, name: Seq<char>) -> Seq<Attribute> {
    attrs.filter(|a: Attribute| is_named(a, name))
}

/// The attributes that make a function a source of rows.
pub open spec fn row_attrs(attrs: Seq<Attribute>) -> Seq<Attribute> {
    attrs.filter(
        |a: Attribute| is_named(a, "case_generator"@) || is_named(a, "case_row"@),
    )
}

/// The marks that a module puts on what is inside it.
pub open spec fn level_of(m: ModItem) -> Seq<Seq<char>> {
    let own = named_so(m.attrs@, "cases"@);
    if own.len() == 0 { Seq::<Seq<char>>::empty() } else { args_tags(own[0]) }
}

/// The name under which what is inside the modules stands.
pub open spec fn prefix_at(root: Seq<char>, around: Seq<ModItem>) -> Seq<char> {
    around.fold_left(root, |p: Seq<char>, m: ModItem| name_under(p, segment_of(m.ident@)))
}

/// The marks that what is inside the modules inherits.
pub open spec fn scope_at(around: Seq<ModItem>) -> Seq<MarkView> {
    around.fold_left(Seq::empty(), |s: Seq<MarkView>, m: ModItem| merged(s, level_of(m)))
}

/// The path of what is inside the modules.
pub open spec fn path_at(around: Seq<ModItem>) -> Seq<Seq<char>> {
    around.map_values(|m: ModItem| m.ident@)
}

/// Is it a case?
pub open spec fn is_case_spot(p: Spot) -> bool {
    p.0 is Function && named_so(p.0->Function_0.attrs@, "case"@).len() > 0
}

/// Is it a source of rows?
pub open spec fn is_row_spot(p: Spot) -> bool {
    p.0 is Function && named_so(p.0->Function_0.attrs@, "case"@).len() == 0 && row_attrs(
        p.0->Function_0.attrs@,
    ).len() > 0
}

/// The case at a spot: named by the modules around it and by itself, with the
/// marks around it as its own override them.
pub open spec fn case_at(root: Seq<char>, p: Spot) -> CaseDefView {
    let f = p.0->Function_0;
    let a = named_so(f.attrs@, "case"@)[0];
    let given = a.args->Ok_0.name;
    CaseDefView {
        name: name_under(
            prefix_at(root, p.1),
            if given is Some { given->0@ } else { segment_of(f.ident@) },
        ),
        tags: merged(scope_at(p.1), args_tags(a)),
        fn_path: path_at(p.1).push(f.ident@),
        is_async: f.is_async,
        has_ctx: f.inputs > 0,
        id: f.id,
    }
}

/// The rows at a spot.
pub open spec fn row_at(root: Seq<char>, p: Spot) -> GenDefView {
    let f = p.0->Function_0;
    let a = row_attrs(f.attrs@)[0];
    GenDefView {
        prefix: name_under(prefix_at(root, p.1), a.args->Ok_0.prefix->0@),
        tags: merged(scope_at(p.1), args_tags(a)),
        fn_path: path_at(p.1).push(f.ident@),
        is_row: !is_named(a, "case_generator"@),
        id: f.id,
    }
}

/// Are these the marks of one level: each well written, no feature twice?
pub open spec fn is_level(level: Seq<Seq<char>>) -> bool {
    (forall|i: int| 0 <= i < level.len() ==> is_mark_text(#[trigger] level[i])) && is_mark_set(
        marks_of(level),
    )
}

/// Does the item depend on how it is built?
pub open spec fn depends_on_build(attrs: Seq<Attribute>) -> bool {
    named_so(attrs, "cfg"@).len() > 0 || named_so(attrs, "cfg_attr"@).len() > 0
}

/// May the function stand in a suite?
pub open spec fn fits_fn(f: FnItem) -> bool {
    let attrs = f.attrs@;
    let own = named_so(attrs, "case"@);
    let rows = row_attrs(attrs);
    &&& forall|i: int| 0 <= i < attrs.len() ==> !is_foreign(last_part(#[trigger] attrs[i]))
    &&& own.len() > 0 || rows.len() > 0 ==> !depends_on_build(attrs)
    &&& (own.len() > 0 || rows.len() > 0) && named_so(attrs, "case_row"@).len() == 0 ==> f.inputs
        <= 1
    &&& own.len() > 0 ==> own[0].args is Ok && is_level(args_tags(own[0]))
    &&& own.len() == 0 && rows.len() > 0 ==> rows[0].args is Ok && is_level(args_tags(rows[0]))
        && rows[0].args->Ok_0.prefix is Some
}

/// May the module stand in a suite?
pub open spec fn fits_mod(m: ModItem) -> bool {
    let own = named_so(m.attrs@, "cases"@);
    &&& !depends_on_build(m.attrs@)
    &&& own.len() > 0 ==> own[0].args is Ok
    &&& is_level(level_of(m))
    &&& is_label(segment_of(m.ident@))
    &&& m.items is Some
}

/// May the item stand in a suite?
pub open spec fn fits(item: SuiteItem) -> bool {
    match item {
        SuiteItem::Function(f) => fits_fn(f),
        SuiteItem::Module(m) => fits_mod(m),
        SuiteItem::Other => true,
    }
}

proof fn lemma_named(attrs: Seq<Attribute>, name: Seq<char>, i: int)
    requires
        0 <= i <= attrs.len(),
    ensures
        ({
            let at = find_named(attrs, name, i);
            let own = named_so(attrs.skip(i), name);
            &&& i <= at <= attrs.len()
            &&& at < attrs.len() <==> own.len() > 0
            &&& at < attrs.len() ==> attrs[at] == own[0] && is_named(attrs[at], name)
            &&& forall|k: int| i <= k < at ==> !is_named(#[trigger] attrs[k], name)
        }),
    decreases attrs.len() - i,
{
    reveal(Seq::filter);
    let p = |a: Attribute| is_named(a, name);
    if i < attrs.len() {
        lemma_named(attrs, name, i + 1);
        let one = seq![attrs[i]];
        assert(attrs.skip(i) =~= one + attrs.skip(i + 1));
        Seq::filter_distributes_over_add(one, attrs.skip(i + 1), p);
        assert(one.drop_last() =~= Seq::<Attribute>::empty());
        assert(one.drop_last().filter(p) =~= Seq::<Attribute>::empty());
        assert(one.filter(p) =~= if p(attrs[i]) { one } else { Seq::empty() });
        if !p(attrs[i]) {
            assert(named_so(attrs.skip(i), name) =~= named_so(attrs.skip(i + 1), name));
        }
    } else {
        assert(attrs.skip(i) =~= Seq::<Attribute>::empty());
    }
}

proof fn lemma_named_all(attrs: Seq<Attribute>, name: Seq<char>)
    ensures
        ({
            let at = find_named(attrs, name, 0);
            let own = named_so(attrs, name);
            &&& 0 <= at <= attrs.len()
            &&& has_named(attrs, name) <==> own.len() > 0
            &&& at < attrs.len() <==> own.len() > 0
            &&& at < attrs.len() ==> attrs[at] == own[0] && is_named(attrs[at], name)
            &&& forall|k: int| 0 <= k < at ==> !is_named(#[trigger] attrs[k], name)
        }),
{
    lemma_named(attrs, name, 0);
    assert(attrs.skip(0) =~= attrs);
}

proof fn lemma_first_kept<A>(s: Seq<A>, p: spec_fn(A) -> bool, at: int)
    requires
        0 <= at < s.len(),
        p(s[at]),
        forall|k: int| 0 <= k < at ==> !p(#[trigger] s[k]),
    ensures
        s.filter(p).len() > 0,
        s.filter(p)[0] == s[at],
    decreases s.len(),
{
    reveal(Seq::filter);
    if at < s.len() - 1 {
        lemma_first_kept(s.drop_last(), p, at);
    } else {
        lemma_none_kept(s.drop_last(), p);
        assert(s.filter(p) =~= seq![s[at]]);
    }
}

proof fn lemma_none_kept<A>(s: Seq<A>, p: spec_fn(A) -> bool)
    requires
        forall|k: int| 0 <= k < s.len() ==> !p(#[trigger] s[k]),
    ensures
        s.filter(p) == Seq::<A>::empty(),
    decreases s.len(),
{
    reveal(Seq::filter);
    if s.len() > 0 {
        lemma_none_kept(s.drop_last(), p);
    }
}

proof fn lemma_row_attr(attrs: Seq<Attribute>)
    ensures
        match find_row_attr(attrs) {
            Some((at, is_row)) => 0 <= at < attrs.len() && row_attrs(attrs).len() > 0 && attrs[at]
                == row_attrs(attrs)[0] && is_row == !is_named(attrs[at], "case_generator"@),
            None => row_attrs(attrs).len() == 0,
        },
        row_attrs(attrs).len() > 0 <==> has_named(attrs, "case_generator"@) || has_named(
            attrs,
            "case_row"@,
        ),
{
    let p = |a: Attribute| is_named(a, "case_generator"@) || is_named(a, "case_row"@);
    lemma_named_all(attrs, "case_generator"@);
    lemma_named_all(attrs, "case_row"@);
    let g = find_named(attrs, "case_generator"@, 0);
    let w = find_named(attrs, "case_row"@, 0);
    let at = if g <= w { g } else { w };
    if at < attrs.len() {
        lemma_first_kept(attrs, p, at);
    } else {
        lemma_none_kept(attrs, p);
    }
}

proof fn lemma_foreign(attrs: Seq<Attribute>, i: int)
    requires
        0 <= i <= attrs.len(),
    ensures
        i <= find_foreign(attrs, i) <= attrs.len(),
        find_foreign(attrs, i) >= attrs.len() <==> forall|k: int|
            i <= k < attrs.len() ==> !is_foreign(last_part(#[trigger] attrs[k])),
    decreases attrs.len() - i,
{
    if i < attrs.len() && !is_foreign(last_part(attrs[i])) {
        lemma_foreign(attrs, i + 1);
    }
}

proof fn lemma_level_fault(level: Seq<Seq<char>>, i: int)
    requires
        0 <= i <= level.len(),
    ensures
        level_fault(level, i) is None <==> forall|k: int|
            i <= k < level.len() ==> is_mark_text(#[trigger] level[k]),
    decreases level.len() - i,
{
    if i < level.len() {
        law_mark_fault(level[i]);
        lemma_level_fault(level, i + 1);
    }
}

/// A level of marks is refused exactly where one is badly written or a feature
/// is marked twice.
pub proof fn law_merge_fault(level: Seq<Seq<char>>)
    ensures
        merge_fault(level) is None <==> is_level(level),
{
    lemma_level_fault(level, 0);
    law_mark_set_fault(marks_of(level));
}

/// What cases and rows the spots give.
pub open spec fn given_by(root: Seq<char>, spots: Seq<Spot>) -> Collected {
    Collected {
        cases: spots.filter(|p: Spot| is_case_spot(p)).map_values(|p: Spot| case_at(root, p)),
        gens: spots.filter(|p: Spot| is_row_spot(p)).map_values(|p: Spot| row_at(root, p)),
    }
}

/// One collection after another.
pub open spec fn and_then(a: Collected, b: Collected) -> Collected {
    Collected { cases: a.cases + b.cases, gens: a.gens + b.gens }
}

proof fn lemma_given_sum(root: Seq<char>, a: Seq<Spot>, b: Seq<Spot>)
    ensures
        given_by(root, a + b) == and_then(given_by(root, a), given_by(root, b)),
{
    let c = |p: Spot| is_case_spot(p);
    let r = |p: Spot| is_row_spot(p);
    let f = |p: Spot| case_at(root, p);
    let g = |p: Spot| row_at(root, p);
    Seq::filter_distributes_over_add(a, b, c);
    Seq::filter_distributes_over_add(a, b, r);
    assert((a.filter(c) + b.filter(c)).map_values(f) =~= a.filter(c).map_values(f) + b.filter(
        c,
    ).map_values(f));
    assert((a.filter(r) + b.filter(r)).map_values(g) =~= a.filter(r).map_values(g) + b.filter(
        r,
    ).map_values(g));
}

proof fn lemma_given_one(root: Seq<char>, p: Spot)
    ensures
        given_by(root, seq![p]) == (Collected {
            cases: if is_case_spot(p) { seq![case_at(root, p)] } else { seq![] },
            gens: if is_row_spot(p) { seq![row_at(root, p)] } else { seq![] },
        }),
{
    reveal(Seq::filter);
    let c = |p: Spot| is_case_spot(p);
    let r = |p: Spot| is_row_spot(p);
    let f = |p: Spot| case_at(root, p);
    let g = |p: Spot| row_at(root, p);
    let one = seq![p];
    assert(one.drop_last() =~= Seq::<Spot>::empty());
    assert(one.drop_last().filter(c) =~= Seq::<Spot>::empty());
    assert(one.drop_last().filter(r) =~= Seq::<Spot>::empty());
    assert(one.filter(c) =~= if is_case_spot(p) { one } else { Seq::empty() });
    assert(one.filter(r) =~= if is_row_spot(p) { one } else { Seq::empty() });
    assert(one.filter(c).map_values(f) =~= if is_case_spot(p) {
        seq![case_at(root, p)]
    } else {
        seq![]
    });
    assert(one.filter(r).map_values(g) =~= if is_row_spot(p) {
        seq![row_at(root, p)]
    } else {
        seq![]
    });
}

proof fn lemma_fn_spot(c: Collected, f: FnItem, root: Seq<char>, around: Seq<ModItem>)
    ensures
        ({
            let r = fn_step(c, f, prefix_at(root, around), path_at(around), scope_at(around));
            let p = (SuiteItem::Function(f), around);
            &&& r is Ok <==> fits_fn(f)
            &&& r is Ok ==> r->Ok_0 == and_then(c, given_by(root, seq![p]))
        }),
{
    let attrs = f.attrs@;
    let p = (SuiteItem::Function(f), around);
    lemma_named_all(attrs, "case"@);
    lemma_named_all(attrs, "case_generator"@);
    lemma_named_all(attrs, "case_row"@);
    lemma_named_all(attrs, "cfg"@);
    lemma_named_all(attrs, "cfg_attr"@);
    lemma_row_attr(attrs);
    lemma_foreign(attrs, 0);
    lemma_given_one(root, p);
    let at = find_named(attrs, "case"@, 0);
    if at < attrs.len() {
        law_merge_fault(args_tags(attrs[at]));
    }
    if row_attrs(attrs).len() > 0 {
        law_merge_fault(args_tags(row_attrs(attrs)[0]));
    }
    let r = fn_step(c, f, prefix_at(root, around), path_at(around), scope_at(around));
    if r is Ok {
        let d = and_then(c, given_by(root, seq![p]));
        assert(r->Ok_0.cases =~= d.cases);
        assert(r->Ok_0.gens =~= d.gens);
    }
}

proof fn lemma_inside(root: Seq<char>, around: Seq<ModItem>, m: ModItem)
    ensures
        prefix_at(root, around.push(m)) == name_under(prefix_at(root, around), segment_of(m.ident@)),
        scope_at(around.push(m)) == merged(scope_at(around), level_of(m)),
        path_at(around.push(m)) == path_at(around).push(m.ident@),
{
    assert(around.push(m).drop_last() =~= around);
    assert(path_at(around.push(m)) =~= path_at(around).push(m.ident@));
}

proof fn lemma_item_spots(c: Collected, item: SuiteItem, root: Seq<char>, around: Seq<ModItem>)
    ensures
        ({
            let r = item_step(c, item, prefix_at(root, around), path_at(around), scope_at(around));
            let spots = spots_of(item, around);
            &&& r is Ok <==> forall|i: int| 0 <= i < spots.len() ==> fits((#[trigger] spots[i]).0)
            &&& r is Ok ==> r->Ok_0 == and_then(c, given_by(root, spots))
        }),
    decreases item, 0int,
{
    let spots = spots_of(item, around);
    let here = seq![(item, around)];
    lemma_given_one(root, (item, around));
    match item {
        SuiteItem::Other => {
            assert(spots =~= here);
            assert(and_then(c, given_by(root, spots)).cases =~= c.cases);
            assert(and_then(c, given_by(root, spots)).gens =~= c.gens);
            assert(fits(spots[0].0));
        },
        SuiteItem::Function(f) => {
            lemma_fn_spot(c, f, root, around);
            assert(spots =~= here);
            assert(fits(spots[0].0) == fits_fn(f));
        },
        SuiteItem::Module(m) => {
            lemma_named_all(m.attrs@, "cases"@);
            lemma_named_all(m.attrs@, "cfg"@);
            lemma_named_all(m.attrs@, "cfg_attr"@);
            law_merge_fault(level_of(m));
            law_label_fault(segment_of(m.ident@));
            lemma_inside(root, around, m);
            assert(spots[0] == (item, around));
            assert(fits(spots[0].0) == fits_mod(m));
            match m.items {
                None => {},
                Some(inside) => {
                    lemma_walk_spots(c, inside@, root, around.push(m), inside@.len() as int);
                    let rest = spots_in(inside@, around.push(m), inside@.len() as int);
                    assert(spots =~= here + rest);
                    lemma_given_sum(root, here, rest);
                    assert(given_by(root, spots).cases =~= given_by(root, rest).cases);
                    assert(given_by(root, spots).gens =~= given_by(root, rest).gens);
                    assert forall|i: int| 0 <= i < rest.len() implies rest[i]
                        == #[trigger] spots[i + 1] by {}
                    if forall|i: int| 0 <= i < spots.len() ==> fits((#[trigger] spots[i]).0) {
                        assert forall|i: int| 0 <= i < rest.len() implies fits(
                            (#[trigger] rest[i]).0,
                        ) by {
                            assert(rest[i] == spots[i + 1]);
                        }
                    }
                    if fits_mod(m) && forall|i: int|
                        0 <= i < rest.len() ==> fits((#[trigger] rest[i]).0) {
                        assert forall|i: int| 0 <= i < spots.len() implies fits(
                            (#[trigger] spots[i]).0,
                        ) by {
                            if i > 0 {
                                assert(spots[i] == rest[i - 1]);
                            }
                        }
                    }
                },
            }
        },
    }
}

proof fn lemma_walk_spots(
    c: Collected,
    items: Seq<SuiteItem>,
    root: Seq<char>,
    around: Seq<ModItem>,
    n: int,
)
    requires
        0 <= n <= items.len(),
    ensures
        ({
            let r = walked(c, items, prefix_at(root, around), path_at(around), scope_at(around), n);
            let spots = spots_in(items, around, n);
            &&& r is Ok <==> forall|i: int| 0 <= i < spots.len() ==> fits((#[trigger] spots[i]).0)
            &&& r is Ok ==> r->Ok_0 == and_then(c, given_by(root, spots))
        }),
    decreases items, n,
{
    let spots = spots_in(items, around, n);
    if n > 0 {
        let some = spots_in(items, around, n - 1);
        let mine = spots_of(items[n - 1], around);
        lemma_walk_spots(c, items, root, around, n - 1);
        let r = walked(c, items, prefix_at(root, around), path_at(around), scope_at(around), n - 1);
        assert(spots == some + mine);
        lemma_given_sum(root, some, mine);
        if r is Ok {
            lemma_item_spots(r->Ok_0, items[n - 1], root, around);
            let d = and_then(and_then(c, given_by(root, some)), given_by(root, mine));
            let e = and_then(c, given_by(root, spots));
            assert(d.cases =~= e.cases);
            assert(d.gens =~= e.gens);
        }
        lemma_all_fit(some, mine);
    } else {
        reveal(Seq::filter);
        assert(spots =~= Seq::<Spot>::empty());
        assert(given_by(root, spots).cases =~= Seq::empty());
        assert(given_by(root, spots).gens =~= Seq::empty());
        assert(and_then(c, given_by(root, spots)).cases =~= c.cases);
        assert(and_then(c, given_by(root, spots)).gens =~= c.gens);
    }
}

proof fn lemma_all_fit(a: Seq<Spot>, b: Seq<Spot>)
    ensures
        (forall|i: int| 0 <= i < (a + b).len() ==> fits((#[trigger] (a + b)[i]).0)) <==> (forall|i: int|
            0 <= i < a.len() ==> fits((#[trigger] a[i]).0)) && (forall|i: int|
            0 <= i < b.len() ==> fits((#[trigger] b[i]).0)),
{
    let s = a + b;
    if forall|i: int| 0 <= i < s.len() ==> fits((#[trigger] s[i]).0) {
        assert forall|i: int| 0 <= i < a.len() implies fits((#[trigger] a[i]).0) by {
            assert(s[i] == a[i]);
        }
        assert forall|i: int| 0 <= i < b.len() implies fits((#[trigger] b[i]).0) by {
            assert(s[a.len() + i] == b[i]);
        }
    }
}

/// The items of a suite, each where it stands.
pub open spec fn spots_under(root: ModItem) -> Seq<Spot> {
    if root.items is Some {
        spots_in(root.items->0@, Seq::empty(), root.items->0@.len() as int)
    } else {
        Seq::empty()
    }
}

/// May everything in the suite stand there?
pub open spec fn everything_fits(root: ModItem) -> bool {
    forall|i: int| 0 <= i < spots_under(root).len() ==> fits((#[trigger] spots_under(root)[i]).0)
}

/// A module is a suite exactly where it has a body, every item in it may
/// stand in a suite, and nothing is wrong with what they give together. It
/// collects every case and every source of rows in its tree, in the order of
/// the text, and nothing else.
pub proof fn law_collected(root: ModItem, name: Option<Seq<char>>)
    ensures
        ({
            let given = given_by(
                if name is Some { name->0 } else { segment_of(root.ident@) },
                spots_under(root),
            );
            &&& collected(root, name) is Ok <==> root.items is Some && everything_fits(root)
                && suite_fault(given.cases, given.gens) is None
            &&& collected(root, name) is Ok ==> collected(root, name)->Ok_0 == given
        }),
{
    let top = root_name(root.ident@, name);
    let none = Seq::<ModItem>::empty();
    assert(prefix_at(top, none) == top);
    assert(scope_at(none) == Seq::<MarkView>::empty());
    assert(path_at(none) =~= Seq::<Seq<char>>::empty());
    match root.items {
        None => {
            assert(collected(root, name) is Err);
        },
        Some(items) => {
            lemma_walk_spots(nothing(), items@, top, none, items@.len() as int);
            assert(spots_under(root) == spots_in(items@, none, items@.len() as int));
            let given = given_by(top, spots_under(root));
            assert(and_then(nothing(), given).cases =~= given.cases);
            assert(and_then(nothing(), given).gens =~= given.gens);
            assert(and_then(nothing(), given) == given);
            assert(path_at(none) == Seq::<Seq<char>>::empty());
        },
    }
}

proof fn lemma_without_is_filter(scope: Seq<MarkView>, feature: Seq<char>)
    ensures
        without_feature(scope, feature) == scope.filter(|m: MarkView| m.feature != feature),
    decreases scope.len(),
{
    reveal(Seq::filter);
    if scope.len() > 0 {
        lemma_without_is_filter(scope.drop_last(), feature);
    }
}

proof fn lemma_overlaid_in_order(scope: Seq<MarkView>, level: Seq<MarkView>, n: int)
    requires
        0 <= n <= level.len(),
        is_mark_set(level),
    ensures
        overlaid(scope, level, n) == scope.filter(
            |m: MarkView| !speaks_of(level.take(n), m.feature),
        ) + level.take(n),
    decreases n,
{
    let p = |m: MarkView| !speaks_of(level.take(n), m.feature);
    if n > 0 {
        let last = level[n - 1];
        let q = |m: MarkView| !speaks_of(level.take(n - 1), m.feature);
        let r = |m: MarkView| m.feature != last.feature;
        lemma_overlaid_in_order(scope, level, n - 1);
        let kept = scope.filter(q);
        lemma_without_is_filter(kept + level.take(n - 1), last.feature);
        Seq::filter_distributes_over_add(kept, level.take(n - 1), r);
        assert forall|i: int| 0 <= i < n - 1 implies r(#[trigger] level.take(n - 1)[i]) by {
            assert(level[i].feature != level[n - 1].feature);
        }
        lemma_all_kept(level.take(n - 1), r);
        assert forall|m: MarkView| #[trigger] p(m) == (q(m) && r(m)) by {
            if speaks_of(level.take(n), m.feature) {
                let i = choose|i: int|
                    0 <= i < level.take(n).len() && (#[trigger] level.take(n)[i]).feature
                        == m.feature;
                if i < n - 1 {
                    assert(level.take(n - 1)[i].feature == m.feature);
                }
            }
            if speaks_of(level.take(n - 1), m.feature) {
                let i = choose|i: int|
                    0 <= i < level.take(n - 1).len() && (#[trigger] level.take(n - 1)[i]).feature
                        == m.feature;
                assert(level.take(n)[i].feature == m.feature);
            }
            assert(level.take(n)[n - 1] == last);
        }
        lemma_filter_twice(scope, q, r, p);
        assert(level.take(n) =~= level.take(n - 1).push(last));
        assert((scope.filter(p) + level.take(n - 1)).push(last) =~= scope.filter(p) + level.take(
            n,
        ));
    } else {
        assert forall|i: int| 0 <= i < scope.len() implies p(#[trigger] scope[i]) by {}
        lemma_all_kept(scope, p);
        assert(scope + level.take(n) =~= scope);
    }
}

proof fn lemma_all_kept<A>(s: Seq<A>, p: spec_fn(A) -> bool)
    requires
        forall|k: int| 0 <= k < s.len() ==> p(#[trigger] s[k]),
    ensures
        s.filter(p) == s,
    decreases s.len(),
{
    reveal(Seq::filter);
    if s.len() > 0 {
        assert forall|k: int| 0 <= k < s.drop_last().len() implies p(
            #[trigger] s.drop_last()[k],
        ) by {
            assert(s.drop_last()[k] == s[k]);
        }
        lemma_all_kept(s.drop_last(), p);
        assert(p(s[s.len() - 1]));
        assert(s.filter(p) =~= s);
    } else {
        assert(s.filter(p) =~= s);
    }
}

proof fn lemma_filter_twice<A>(
    s: Seq<A>,
    q: spec_fn(A) -> bool,
    r: spec_fn(A) -> bool,
    p: spec_fn(A) -> bool,
)
    requires
        forall|x: A| #[trigger] p(x) == (q(x) && r(x)),
    ensures
        s.filter(q).filter(r) == s.filter(p),
    decreases s.len(),
{
    reveal(Seq::filter);
    if s.len() > 0 {
        lemma_filter_twice(s.drop_last(), q, r, p);
        assert(p(s.last()) == (q(s.last()) && r(s.last())));
        if q(s.last()) {
            let init = s.drop_last().filter(q);
            assert(init.push(s.last()).drop_last() =~= init);
        }
    }
}

/// What is inherited goes first, in its order and without the features that
/// are marked anew; the new marks follow in theirs.
pub proof fn law_marks_in_order(scope: Seq<MarkView>, level: Seq<Seq<char>>)
    requires
        is_level(level),
    ensures
        merged(scope, level) == scope.filter(
            |m: MarkView| !speaks_of(marks_of(level), m.feature),
        ) + marks_of(level),
{
    let marks = marks_of(level);
    lemma_overlaid_in_order(scope, marks, level.len() as int);
    assert(marks.take(level.len() as int) =~= marks);
}

/// A segment is the name of the item with dashes for underscores, however
/// often it was marked raw.
pub proof fn law_segment_of(ident: Seq<char>)
    ensures
        segment_of("r#"@ + ident) == segment_of(ident),
        !starts_with(ident, "r#"@) ==> segment_of(ident) == ident.map_values(
            |c: char| if c == '_' { '-' } else { c },
        ),
{
    reveal_strlit("r#");
    let raw = "r#"@ + ident;
    assert(raw[0] == 'r' && raw[1] == '#');
    assert(raw.skip(2) =~= ident);
    if !starts_with(ident, "r#"@) {
        if ident.len() >= 2 && ident[0] == 'r' && ident[1] == '#' {
            assert(ident.subrange(0, 2) =~= "r#"@);
        }
        assert(without_raw(ident) == ident);
        assert(segment_of(ident) =~= ident.map_values(|c: char| if c == '_' { '-' } else { c }));
    }
}

proof fn lemma_spaced(name: Seq<char>, marks: Seq<MarkView>, n: int)
    requires
        0 <= n <= marks.len(),
    ensures
        name + spaced(marks, n) == join(
            seq![name] + marks.take(n).map_values(|m: MarkView| mark_text(m)),
            " "@,
        ),
    decreases n,
{
    let f = |m: MarkView| mark_text(m);
    let words = seq![name] + marks.take(n).map_values(f);
    if n > 0 {
        lemma_spaced(name, marks, n - 1);
        assert(words.drop_last() =~= seq![name] + marks.take(n - 1).map_values(f));
        assert(words.last() == mark_text(marks[n - 1]));
        assert(name + spaced(marks, n) =~= (name + spaced(marks, n - 1)) + " "@ + mark_text(
            marks[n - 1],
        ));
    } else {
        assert(words =~= seq![name]);
        assert(name + spaced(marks, n) =~= name);
    }
}

/// A record is the name and the marks with spaces between them, on a line of
/// its own; every case has one, then every row.
pub proof fn law_records(cases: Seq<CaseDefView>, gens: Seq<GenDefView>, i: int)
    ensures
        records(cases, gens).len() == cases.len() + gens.len(),
        0 <= i < cases.len() ==> records(cases, gens)[i] == join(
            seq![cases[i].name] + cases[i].tags.map_values(|m: MarkView| mark_text(m)),
            " "@,
        ) + "\n"@,
        0 <= i < gens.len() ==> records(cases, gens)[cases.len() + i] == join(
            seq![gens[i].prefix + "/*"@] + gens[i].tags.map_values(|m: MarkView| mark_text(m)),
            " "@,
        ) + "\n"@,
{
    if 0 <= i < cases.len() {
        let marks = cases[i].tags;
        lemma_spaced(cases[i].name, marks, marks.len() as int);
        assert(marks.take(marks.len() as int) =~= marks);
    }
    if 0 <= i < gens.len() {
        let marks = gens[i].tags;
        lemma_spaced(gens[i].prefix + "/*"@, marks, marks.len() as int);
        assert(marks.take(marks.len() as int) =~= marks);
    }
}

/// Is case `k` the first that is not well named, and is this what is told of
/// it?
pub open spec fn is_first_misnamed(cases: Seq<CaseDefView>, k: int, f: SuiteFault) -> bool {
    &&& 0 <= k < cases.len()
    &&& well_named(cases.take(k))
    &&& f.place == Place::Ident(cases[k].id)
    &&& if is_case_name(cases[k].name) {
        (exists|x: int| 0 <= x < k && (#[trigger] cases[x]).name == cases[k].name) && f.message
            == "duplicate case `"@ + cases[k].name + "`"@
    } else {
        f.message == "`"@ + cases[k].name + "`: "@ + fault_text(name_fault(cases[k].name)->0)
    }
}

proof fn lemma_misnamed(cases: Seq<CaseDefView>, i: int)
    requires
        0 <= i <= cases.len(),
        well_named(cases.take(i)),
    ensures
        match case_names_fault(cases, i) {
            Some(f) => exists|k: int| #[trigger] is_first_misnamed(cases, k, f),
            None => true,
        },
    decreases cases.len() - i,
{
    if i < cases.len() {
        law_name_fault(cases[i].name);
        let names = def_names(cases).take(i);
        let c = cases[i];
        if name_fault(c.name) is Some {
            assert(is_first_misnamed(cases, i, case_names_fault(cases, i)->0));
        } else if names.contains(c.name) {
            let x = choose|x: int| 0 <= x < names.len() && names[x] == c.name;
            assert(cases[x].name == c.name);
            assert(is_first_misnamed(cases, i, case_names_fault(cases, i)->0));
        } else {
            let more = cases.take(i + 1);
            assert forall|a: int, b: int| 0 <= a < b < more.len() implies (#[trigger] more[a]).name
                != (#[trigger] more[b]).name by {
                if b < i {
                    assert(cases.take(i)[a].name != cases.take(i)[b].name);
                } else {
                    assert(names[a] == cases[a].name);
                }
            }
            assert forall|a: int| 0 <= a < more.len() implies is_case_name(
                (#[trigger] more[a]).name,
            ) by {
                if a < i {
                    assert(is_case_name(cases.take(i)[a].name));
                }
            }
            lemma_misnamed(cases, i + 1);
        }
    }
}

/// What is told of a suite is that it is empty, or else the first case that is
/// not well named, wherever there is one.
pub proof fn law_misnamed_case_is_told(cases: Seq<CaseDefView>, gens: Seq<GenDefView>)
    ensures
        cases.len() == 0 && gens.len() == 0 ==> suite_fault(cases, gens) is Some && suite_fault(
            cases,
            gens,
        )->0.place == Place::Suite,
        !well_named(cases) ==> suite_fault(cases, gens) is Some && exists|k: int| #[trigger]
            is_first_misnamed(cases, k, suite_fault(cases, gens)->0),
{
    assert(cases.take(0) =~= Seq::<CaseDefView>::empty());
    lemma_misnamed(cases, 0);
    lemma_well_named(cases);
}

} // verus!
