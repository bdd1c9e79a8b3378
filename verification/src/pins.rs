//! Pins: a consumer records one commit in several places, and they have to
//! agree. Anchoring is on crate and package names, which stay when a
//! repository is renamed.

use vstd::prelude::*;

use crate::table::{has_key, is_sorted, keys, law_lookup_put, law_put_sorted, put, Table};
use crate::text::{
    blank, byte_len, bytes_in, chars_of, contains_text, has_prefix, has_text, is_blank, is_space,
    join, last_index, law_first_occurrence, lemma_last_index, lemma_split_nonempty, lines, lines_of,
    matches_at, occurrence_from, occurs_at, opt_text, owned, same, space, split, split_text,
    starts_with, text_lt, text_of, trim_start, views,
};

verus! {

/// The name that every crate of the workspace begins with.
pub const CRATE_PREFIX: &'static str = "component-test";

/// The package of the JavaScript runner core.
pub const JS_PACKAGE: &'static str = "@polymorph/component-test-js";

/// What a workflow's reference to an action of the repository holds.
pub const ACTION_PATH_ANCHOR: &'static str = "polymorph-test/actions/";

// ---------------------------------------------------------------------
// Commit hashes in text
// ---------------------------------------------------------------------

/// A lowercase hexadecimal digit.
pub open spec fn is_hex_char(c: char) -> bool {
    ('0' <= c <= '9') || ('a' <= c <= 'f')
}

/// An ASCII letter or digit.
pub open spec fn is_alnum(c: char) -> bool {
    ('0' <= c <= '9') || ('a' <= c <= 'z') || ('A' <= c <= 'Z')
}

/// A full commit hash: 40 lowercase hexadecimal digits.
pub open spec fn is_full_rev(s: Seq<char>) -> bool {
    s.len() == 40 && forall|i: int| 0 <= i < s.len() ==> is_hex_char(#[trigger] s[i])
}

/// The end of the run of hexadecimal digits at `i`.
pub open spec fn run_end(s: Seq<char>, i: int) -> int
    decreases s.len() - i,
{
    if i < 0 || i >= s.len() || !is_hex_char(s[i]) { i } else { run_end(s, i + 1) }
}

/// Is the run `i..j` a pinned commit: 40 digits, and no letter or digit on
/// either side?
pub open spec fn is_pin(s: Seq<char>, i: int, j: int) -> bool {
    j - i == 40 && (i == 0 || !is_alnum(s[i - 1])) && (j == s.len() || !is_alnum(s[j]))
}

proof fn lemma_run_end(s: Seq<char>, i: int)
    requires
        0 <= i <= s.len(),
    ensures
        i <= run_end(s, i) <= s.len(),
        forall|k: int| i <= k < run_end(s, i) ==> is_hex_char(s[k]),
        run_end(s, i) < s.len() ==> !is_hex_char(s[run_end(s, i)]),
        i < s.len() && is_hex_char(s[i]) ==> run_end(s, i) > i,
    decreases s.len() - i,
{
    if i < s.len() && is_hex_char(s[i]) {
        lemma_run_end(s, i + 1);
    }
}

/// `s` from `i` on, with every pinned commit replaced by `rev`.
pub open spec fn replaced_from(s: Seq<char>, rev: Seq<char>, i: int) -> Seq<char>
    decreases s.len() - i,
{
    if i < 0 || i >= s.len() {
        Seq::<char>::empty()
    } else if !is_hex_char(s[i]) {
        seq![s[i]] + replaced_from(s, rev, i + 1)
    } else {
        let j = run_end(s, i);
        if j <= i || j > s.len() {
            Seq::<char>::empty()
        } else {
            (if is_pin(s, i, j) { rev } else { s.subrange(i, j) }) + replaced_from(s, rev, j)
        }
    }
}

/// `s` with every pinned commit replaced by `rev`.
pub open spec fn with_rev(s: Seq<char>, rev: Seq<char>) -> Seq<char> {
    replaced_from(s, rev, 0)
}

/// The pinned commits of `s` from `i` on, in order.
pub open spec fn pins_from(s: Seq<char>, i: int) -> Seq<Seq<char>>
    decreases s.len() - i,
{
    if i < 0 || i >= s.len() {
        Seq::<Seq<char>>::empty()
    } else if !is_hex_char(s[i]) {
        pins_from(s, i + 1)
    } else {
        let j = run_end(s, i);
        if j <= i || j > s.len() {
            Seq::<Seq<char>>::empty()
        } else if is_pin(s, i, j) {
            seq![s.subrange(i, j)] + pins_from(s, j)
        } else {
            pins_from(s, j)
        }
    }
}

/// The pinned commits of `s`, in order.
pub open spec fn pins_in(s: Seq<char>) -> Seq<Seq<char>> {
    pins_from(s, 0)
}

fn is_hex(c: char) -> (r: bool)
    ensures
        r == is_hex_char(c),
{
    ('0' <= c && c <= '9') || ('a' <= c && c <= 'f')
}

fn alnum(c: char) -> (r: bool)
    ensures
        r == is_alnum(c),
{
    ('0' <= c && c <= '9') || ('a' <= c && c <= 'z') || ('A' <= c && c <= 'Z')
}

/// A full commit hash?
pub fn is_rev(s: &str) -> (r: bool)
    ensures
        r == is_full_rev(s@),
{
    let chars = chars_of(s);
    if chars.len() != 40 {
        return false;
    }
    let mut i: usize = 0;
    while i < chars.len()
        invariant
            i <= chars@.len(),
            chars@ == s@,
            forall|k: int| 0 <= k < i ==> is_hex_char(#[trigger] s@[k]),
        decreases chars.len() - i,
    {
        if !is_hex(chars[i]) {
            assert(!is_hex_char(s@[i as int]));
            return false;
        }
        i += 1;
    }
    true
}

fn end_of_run(s: &[char], from: usize) -> (j: usize)
    requires
        from <= s@.len(),
    ensures
        j == run_end(s@, from as int),
        from <= j <= s@.len(),
{
    let mut j: usize = from;
    while j < s.len() && is_hex(s[j])
        invariant
            from <= j <= s@.len(),
            run_end(s@, from as int) == run_end(s@, j as int),
        decreases s.len() - j,
    {
        j += 1;
    }
    j
}

fn pinned(s: &[char], i: usize, j: usize) -> (r: bool)
    requires
        i <= j <= s@.len(),
    ensures
        r == is_pin(s@, i as int, j as int),
{
    j - i == 40 && (i == 0 || !alnum(s[i - 1])) && (j == s.len() || !alnum(s[j]))
}

/// Replace every pinned commit of `line` with `rev`: a run of exactly 40
/// hexadecimal digits with no letter or digit beside it, so that integrity
/// strings survive.
pub fn replace_bounded_revs(line: &str, rev: &str) -> (r: String)
    ensures
        r@ == with_rev(line@, rev@),
{
    let chars = chars_of(line);
    let ghost s = line@;
    let mut out = String::new();
    let mut i: usize = 0;
    assert(with_rev(s, rev@) =~= out@ + replaced_from(s, rev@, 0));
    while i < chars.len()
        invariant
            i <= chars@.len(),
            s == chars@,
            with_rev(s, rev@) == out@ + replaced_from(s, rev@, i as int),
        decreases chars.len() - i,
    {
        let ghost was = out@;
        if !is_hex(chars[i]) {
            out.push(chars[i]);
            assert(was + (seq![s[i as int]] + replaced_from(s, rev@, i + 1)) =~= out@
                + replaced_from(s, rev@, i + 1));
            i += 1;
        } else {
            let j = end_of_run(&chars, i);
            proof {
                lemma_run_end(s, i as int);
            }
            let ghost rest = replaced_from(s, rev@, j as int);
            if pinned(&chars, i, j) {
                out.append(rev);
                assert(was + (rev@ + rest) =~= out@ + rest);
            } else {
                out.append(text_of(&chars, i, j).as_str());
                assert(was + (s.subrange(i as int, j as int) + rest) =~= out@ + rest);
            }
            i = j;
        }
    }
    assert(out@ =~= out@ + replaced_from(s, rev@, i as int));
    out
}

/// `set` with the first `n` items.
pub open spec fn with_all(set: Seq<(Seq<char>, ())>, items: Seq<Seq<char>>, n: int) -> Seq<
    (Seq<char>, ()),
>
    decreases n,
{
    if n <= 0 {
        set
    } else {
        put(with_all(set, items, n - 1), items[n - 1], ())
    }
}

/// `set` with the pinned commits of a line.
pub open spec fn with_pins(set: Seq<(Seq<char>, ())>, line: Seq<char>) -> Seq<(Seq<char>, ())> {
    with_all(set, pins_in(line), pins_in(line).len() as int)
}

/// Collect the pinned commits of a line.
pub fn collect_revs(line: &str, out: &mut Table<()>)
    ensures
        final(out)@ == with_pins(old(out)@, line@),
{
    let chars = chars_of(line);
    let ghost s = line@;
    let ghost start = out@;
    let ghost all = pins_in(s);
    let ghost mut n: int = 0;
    let mut i: usize = 0;
    assert(all =~= all.take(0) + pins_from(s, 0));
    while i < chars.len()
        invariant
            i <= chars@.len(),
            s == chars@,
            all == pins_in(s),
            0 <= n <= all.len(),
            all == all.take(n) + pins_from(s, i as int),
            out@ == with_all(start, all, n),
        decreases chars.len() - i,
    {
        if !is_hex(chars[i]) {
            i += 1;
        } else {
            let j = end_of_run(&chars, i);
            proof {
                lemma_run_end(s, i as int);
            }
            if pinned(&chars, i, j) {
                let ghost rest = pins_from(s, j as int);
                let found = text_of(&chars, i, j);
                proof {
                    let here = pins_from(s, i as int);
                    assert(here == seq![found@] + rest);
                    assert((all.take(n) + here)[n] == found@);
                    assert(all[n] == found@);
                    assert(all =~= all.take(n + 1) + rest) by {
                        assert(all.take(n + 1) =~= all.take(n).push(found@));
                        assert(all.take(n) + (seq![found@] + rest) =~= all.take(n).push(found@)
                            + rest);
                    }
                    n = n + 1;
                }
                out.insert(found, ());
            }
            i = j;
        }
    }
    assert(all.len() == n) by {
        assert(pins_from(s, i as int).len() == 0);
        assert(all.len() == (all.take(n) + pins_from(s, i as int)).len());
    }
}

// ---------------------------------------------------------------------
// Line edits
// ---------------------------------------------------------------------

/// The lines of a text between line feeds; nothing after a final one.
pub open spec fn edit_lines(text: Seq<char>) -> Seq<Seq<char>> {
    let pieces = split(text, '\n');
    if pieces.last().len() == 0 { pieces.drop_last() } else { pieces }
}

/// A line after its edit, if it has one.
pub open spec fn edited(line: Seq<char>, edit: Option<Seq<char>>) -> Seq<char> {
    match edit {
        Some(new) => new,
        None => line,
    }
}

/// The first `n` lines after their edits, each with its line feed if the
/// text has one there.
pub open spec fn edited_text(text: Seq<char>, edits: Seq<Option<Seq<char>>>, n: int) -> Seq<char>
    decreases n,
{
    if n <= 0 {
        Seq::<char>::empty()
    } else {
        let line = edited(edit_lines(text)[n - 1], edits[n - 1]);
        edited_text(text, edits, n - 1) + if n < split(text, '\n').len() {
            line.push('\n')
        } else {
            line
        }
    }
}

/// Is `edit` what `f` gives for the line?
pub open spec fn is_edit<F: Fn(&str) -> Option<String>>(
    f: F,
    line: Seq<char>,
    edit: Option<Seq<char>>,
) -> bool {
    exists|s: &str, o: Option<String>|
        s@ == line && #[trigger] call_ensures(f, (s,), o) && opt_text(o) == edit
}

/// Are `edits` what `f` gives for the lines of `text`?
pub open spec fn are_edits<F: Fn(&str) -> Option<String>>(
    f: F,
    text: Seq<char>,
    edits: Seq<Option<Seq<char>>>,
) -> bool {
    edits.len() == edit_lines(text).len() && forall|i: int|
        0 <= i < edits.len() ==> is_edit(f, edit_lines(text)[i], #[trigger] edits[i])
}

/// Apply a per-line rewrite. Lines that it leaves alone and the shape of the
/// final line feed stay exactly as they are.
pub fn map_lines<F: Fn(&str) -> Option<String>>(text: &str, f: F) -> (r: String)
    requires
        forall|s: &str| call_requires(f, (s,)),
    ensures
        exists|edits: Seq<Option<Seq<char>>>| #[trigger]
            are_edits(f, text@, edits) && r@ == edited_text(text@, edits, edits.len() as int),
{
    let pieces = split_text(text, '\n');
    let ghost ps = split(text@, '\n');
    proof {
        lemma_split_nonempty(text@, '\n');
    }
    let last: usize = pieces.len() - 1;
    assert(ps[last as int] == pieces@[last as int]@);
    let n: usize = if pieces[last].as_str().is_empty() { last } else { pieces.len() };
    let ghost ls = edit_lines(text@);
    assert(ls.len() == n);
    let mut out = String::new();
    let ghost mut edits: Seq<Option<Seq<char>>> = Seq::empty();
    let mut i: usize = 0;
    assert(out@ =~= edited_text(text@, edits, 0));
    while i < n
        invariant
            i <= n <= pieces@.len(),
            n == ls.len(),
            views(pieces@) == ps,
            ps == split(text@, '\n'),
            ls == edit_lines(text@),
            forall|s: &str| call_requires(f, (s,)),
            edits.len() == i,
            forall|k: int| 0 <= k < i ==> is_edit(f, ls[k], #[trigger] edits[k]),
            out@ == edited_text(text@, edits, i as int),
        decreases n - i,
    {
        let line = pieces[i].as_str();
        assert(ls[i as int] == ps[i as int]);
        assert(ps[i as int] == line@);
        let edit = f(line);
        let ghost was = out@;
        let ghost before = edits;
        let ghost e = opt_text(edit);
        proof {
            assert(is_edit(f, ls[i as int], e));
            edits = edits.push(e);
            assert forall|k: int| 0 <= k < i + 1 implies is_edit(f, ls[k], #[trigger] edits[k]) by {
                if k < i {
                    assert(edits[k] == before[k]);
                }
            }
            lemma_edited_prefix(text@, before, edits, i as int);
        }
        match edit {
            Some(new) => out.append(new.as_str()),
            None => out.append(line),
        }
        if i + 1 < pieces.len() {
            out.push('\n');
        }
        assert(out@ =~= edited_text(text@, edits, i + 1));
        i += 1;
    }
    assert(are_edits(f, text@, edits));
    out
}

proof fn lemma_edited_prefix(
    text: Seq<char>,
    a: Seq<Option<Seq<char>>>,
    b: Seq<Option<Seq<char>>>,
    n: int,
)
    requires
        0 <= n <= a.len() <= b.len(),
        forall|k: int| 0 <= k < n ==> a[k] == b[k],
    ensures
        edited_text(text, a, n) == edited_text(text, b, n),
    decreases n,
{
    if n > 0 {
        lemma_edited_prefix(text, a, b, n - 1);
    }
}

/// The edit that sets pins, where it changes anything.
pub open spec fn rev_edit(line: Seq<char>, rev: Seq<char>) -> Option<Seq<char>> {
    let new = with_rev(line, rev);
    if new != line { Some(new) } else { None }
}

/// What a line names first: its text up to `=` or a space, after white space.
pub open spec fn line_name(line: Seq<char>) -> Seq<char> {
    let s = trim_start(line);
    s.take(name_end(s, 0))
}

/// The position of the first `=` or space at or after `i`, or the length.
pub open spec fn name_end(s: Seq<char>, i: int) -> int
    decreases s.len() - i,
{
    if i < 0 || i >= s.len() || s[i] == '=' || s[i] == ' ' { i } else { name_end(s, i + 1) }
}

/// Is the line a git dependency on a crate of the workspace?
pub open spec fn is_dependency_line(line: Seq<char>) -> bool {
    starts_with(line_name(line), CRATE_PREFIX@) && contains_text(line, "git"@)
}

/// The edit of a line of a `Cargo.toml`.
pub open spec fn cargo_edit(line: Seq<char>, rev: Seq<char>) -> Option<Seq<char>> {
    if is_dependency_line(line) { rev_edit(line, rev) } else { None }
}

/// Is the line one whose pin is now `rev`?
pub open spec fn is_cargo_site(line: Seq<char>, rev: Seq<char>) -> bool {
    is_dependency_line(line) && (with_rev(line, rev) != line || contains_text(
        line,
        "rev = \""@ + rev + "\""@,
    ))
}

/// The crates that the first `n` lines pin.
pub open spec fn cargo_sites(ls: Seq<Seq<char>>, rev: Seq<char>, n: int) -> Seq<Seq<char>>
    decreases n,
{
    if n <= 0 {
        Seq::<Seq<char>>::empty()
    } else {
        let init = cargo_sites(ls, rev, n - 1);
        if is_cargo_site(ls[n - 1], rev) { init.push(line_name(ls[n - 1])) } else { init }
    }
}

/// The edits of all lines, by what they are for one.
pub open spec fn edits_by(
    ls: Seq<Seq<char>>,
    edit: spec_fn(Seq<char>) -> Option<Seq<char>>,
) -> Seq<Option<Seq<char>>> {
    Seq::new(ls.len(), |i: int| edit(ls[i]))
}

/// A text with every line edited.
pub open spec fn edited_by(
    text: Seq<char>,
    edit: spec_fn(Seq<char>) -> Option<Seq<char>>,
) -> Seq<char> {
    let ls = edit_lines(text);
    edited_text(text, edits_by(ls, edit), ls.len() as int)
}

/// Where `f` gives one edit only, `map_lines` gives the text with it.
proof fn lemma_map_lines<F: Fn(&str) -> Option<String>>(
    f: F,
    text: Seq<char>,
    edits: Seq<Option<Seq<char>>>,
    edit: spec_fn(Seq<char>) -> Option<Seq<char>>,
)
    requires
        are_edits(f, text, edits),
        forall|s: &str, o: Option<String>| #[trigger]
            call_ensures(f, (s,), o) ==> opt_text(o) == edit(s@),
    ensures
        edited_text(text, edits, edits.len() as int) == edited_by(text, edit),
{
    let ls = edit_lines(text);
    let all = edits_by(ls, edit);
    assert forall|i: int| 0 <= i < edits.len() implies edits[i] == all[i] by {
        assert(is_edit(f, ls[i], edits[i]));
        let (s, o) = choose|s: &str, o: Option<String>|
            s@ == ls[i] && #[trigger] call_ensures(f, (s,), o) && opt_text(o) == edits[i];
    }
    assert(edits =~= all);
}

fn line_name_of(line: &str) -> (r: String)
    ensures
        r@ == line_name(line@),
{
    let chars = chars_of(line);
    let mut from: usize = 0;
    assert(chars@.skip(0) =~= chars@);
    while from < chars.len() && space(chars[from])
        invariant
            from <= chars@.len(),
            trim_start(chars@) == trim_start(chars@.skip(from as int)),
        decreases chars.len() - from,
    {
        assert(chars@.skip(from as int).drop_first() =~= chars@.skip(from + 1));
        from += 1;
    }
    let ghost s = chars@.skip(from as int);
    assert(trim_start(chars@) == s);
    let mut to: usize = from;
    while to < chars.len() && chars[to] != '=' && chars[to] != ' '
        invariant
            from <= to <= chars@.len(),
            s == chars@.skip(from as int),
            name_end(s, 0) == name_end(s, to - from),
        decreases chars.len() - to,
    {
        assert(s[to - from] == chars@[to as int]);
        to += 1;
    }
    if to < chars.len() {
        assert(s[to - from] == chars@[to as int]);
    }
    let r = text_of(&chars, from, to);
    assert(r@ =~= s.take(to - from));
    r
}

fn dependency_line(line: &str) -> (r: bool)
    ensures
        r == is_dependency_line(line@),
{
    has_prefix(line_name_of(line).as_str(), CRATE_PREFIX) && has_text(line, "git")
}

fn rev_edit_of(line: &str, rev: &str) -> (r: Option<String>)
    ensures
        opt_text(r) == rev_edit(line@, rev@),
{
    let new = replace_bounded_revs(line, rev);
    if same(new.as_str(), line) {
        None
    } else {
        Some(new)
    }
}

fn cargo_edit_of(line: &str, rev: &str) -> (r: Option<String>)
    ensures
        opt_text(r) == cargo_edit(line@, rev@),
{
    if dependency_line(line) {
        rev_edit_of(line, rev)
    } else {
        None
    }
}

fn edit_lines_of(text: &str) -> (r: Vec<String>)
    ensures
        views(r@) == edit_lines(text@),
{
    let mut pieces = split_text(text, '\n');
    let ghost ps = split(text@, '\n');
    proof {
        lemma_split_nonempty(text@, '\n');
    }
    let last: usize = pieces.len() - 1;
    assert(ps[last as int] == pieces@[last as int]@);
    if pieces[last].as_str().is_empty() {
        pieces.pop();
        assert(views(pieces@) =~= ps.drop_last());
    }
    pieces
}

/// Set the pins on git-dependency lines that name a crate of the workspace.
/// Gives the text and the crates whose pin is now `rev`; other lines stay.
pub fn bump_cargo_toml(text: &str, rev: &str) -> (r: (String, Vec<String>))
    ensures
        r.0@ == edited_by(text@, |line: Seq<char>| cargo_edit(line, rev@)),
        views(r.1@) == cargo_sites(
            edit_lines(text@),
            rev@,
            edit_lines(text@).len() as int,
        ),
{
    let f = |line: &str| -> (o: Option<String>)
        ensures
            opt_text(o) == cargo_edit(line@, rev@),
        { cargo_edit_of(line, rev) };
    let out = map_lines(text, f);
    proof {
        let edits = choose|edits: Seq<Option<Seq<char>>>| #[trigger]
            are_edits(f, text@, edits) && out@ == edited_text(text@, edits, edits.len() as int);
        lemma_map_lines(f, text@, edits, |line: Seq<char>| cargo_edit(line, rev@));
    }
    let ls = edit_lines_of(text);
    let ghost lv = views(ls@);
    let mut mark = owned("rev = \"");
    mark.append(rev);
    mark.append("\"");
    let mut crates: Vec<String> = Vec::new();
    let mut i: usize = 0;
    assert(views(crates@) =~= cargo_sites(lv, rev@, 0));
    while i < ls.len()
        invariant
            i <= ls@.len(),
            lv == views(ls@),
            mark@ == "rev = \""@ + rev@ + "\""@,
            views(crates@) == cargo_sites(lv, rev@, i as int),
        decreases ls.len() - i,
    {
        let line = ls[i].as_str();
        assert(lv[i as int] == line@);
        if dependency_line(line) && (rev_edit_of(line, rev).is_some() || has_text(
            line,
            mark.as_str(),
        )) {
            let ghost was = views(crates@);
            let name = line_name_of(line);
            let ghost nv = name@;
            crates.push(name);
            assert(views(crates@) =~= was.push(nv));
        }
        i += 1;
    }
    assert(lv.len() == ls@.len());
    (out, crates)
}

/// The edit of a line that `anchored` picks.
pub open spec fn anchored_edit(
    line: Seq<char>,
    rev: Seq<char>,
    anchored: spec_fn(Seq<char>) -> bool,
) -> Option<Seq<char>> {
    if anchored(line) { rev_edit(line, rev) } else { None }
}

/// How many of the first `n` lines that `anchored` picks hold `rev` now.
pub open spec fn anchored_sites(
    ls: Seq<Seq<char>>,
    rev: Seq<char>,
    anchored: spec_fn(Seq<char>) -> bool,
    n: int,
) -> nat
    decreases n,
{
    if n <= 0 {
        0
    } else {
        anchored_sites(ls, rev, anchored, n - 1) + if anchored(ls[n - 1]) && (with_rev(
            ls[n - 1],
            rev,
        ) != ls[n - 1] || contains_text(ls[n - 1], rev)) {
            1nat
        } else {
            0nat
        }
    }
}

/// Set the pins on lines that name `needle`. Gives the text and how many
/// such lines hold `rev` now.
pub fn bump_named_lines(text: &str, needle: &str, rev: &str) -> (r: (String, usize))
    ensures
        r.0@ == edited_by(
            text@,
            |line: Seq<char>| anchored_edit(line, rev@, |l: Seq<char>| contains_text(l, needle@)),
        ),
        r.1 == anchored_sites(
            edit_lines(text@),
            rev@,
            |l: Seq<char>| contains_text(l, needle@),
            edit_lines(text@).len() as int,
        ),
{
    let ghost anchored = |l: Seq<char>| contains_text(l, needle@);
    let f = |line: &str| -> (o: Option<String>)
        ensures
            opt_text(o) == (if contains_text(line@, needle@) {
                rev_edit(line@, rev@)
            } else {
                None
            }),
        {
            if has_text(line, needle) {
                rev_edit_of(line, rev)
            } else {
                None
            }
        };
    let out = map_lines(text, f);
    proof {
        let edits = choose|edits: Seq<Option<Seq<char>>>| #[trigger]
            are_edits(f, text@, edits) && out@ == edited_text(text@, edits, edits.len() as int);
        lemma_map_lines(
            f,
            text@,
            edits,
            |line: Seq<char>| anchored_edit(line, rev@, |l: Seq<char>| contains_text(l, needle@)),
        );
    }
    let ls = edit_lines_of(text);
    let ghost lv = views(ls@);
    let mut n: usize = 0;
    let mut i: usize = 0;
    while i < ls.len()
        invariant
            i <= ls@.len(),
            lv == views(ls@),
            n <= i,
            anchored == (|l: Seq<char>| contains_text(l, needle@)),
            n == anchored_sites(lv, rev@, anchored, i as int),
        decreases ls.len() - i,
    {
        let line = ls[i].as_str();
        assert(lv[i as int] == line@);
        if has_text(line, needle) && (rev_edit_of(line, rev).is_some() || has_text(line, rev)) {
            n += 1;
        }
        i += 1;
    }
    assert(lv.len() == ls@.len());
    (out, n)
}

/// Is the line a reference to an action of the repository?
pub open spec fn is_action_line(line: Seq<char>) -> bool {
    contains_text(line, ACTION_PATH_ANCHOR@) && contains_text(line, "@"@)
}

/// Set the pins on lines that refer to an action of the repository. Gives
/// the text and how many such lines hold `rev` now.
pub fn bump_action_refs(text: &str, rev: &str) -> (r: (String, usize))
    ensures
        r.0@ == edited_by(
            text@,
            |line: Seq<char>| anchored_edit(line, rev@, |l: Seq<char>| is_action_line(l)),
        ),
        r.1 == anchored_sites(
            edit_lines(text@),
            rev@,
            |l: Seq<char>| is_action_line(l),
            edit_lines(text@).len() as int,
        ),
{
    let ghost anchored = |l: Seq<char>| is_action_line(l);
    let f = |line: &str| -> (o: Option<String>)
        ensures
            opt_text(o) == (if is_action_line(line@) { rev_edit(line@, rev@) } else { None }),
        {
            if has_text(line, ACTION_PATH_ANCHOR) && has_text(line, "@") {
                rev_edit_of(line, rev)
            } else {
                None
            }
        };
    let out = map_lines(text, f);
    proof {
        let edits = choose|edits: Seq<Option<Seq<char>>>| #[trigger]
            are_edits(f, text@, edits) && out@ == edited_text(text@, edits, edits.len() as int);
        lemma_map_lines(
            f,
            text@,
            edits,
            |line: Seq<char>| anchored_edit(line, rev@, |l: Seq<char>| is_action_line(l)),
        );
    }
    let ls = edit_lines_of(text);
    let ghost lv = views(ls@);
    let mut n: usize = 0;
    let mut i: usize = 0;
    while i < ls.len()
        invariant
            i <= ls@.len(),
            lv == views(ls@),
            n <= i,
            anchored == (|l: Seq<char>| is_action_line(l)),
            n == anchored_sites(lv, rev@, anchored, i as int),
        decreases ls.len() - i,
    {
        let line = ls[i].as_str();
        assert(lv[i as int] == line@);
        if has_text(line, ACTION_PATH_ANCHOR) && has_text(line, "@") && (rev_edit_of(
            line,
            rev,
        ).is_some() || has_text(line, rev)) {
            n += 1;
        }
        i += 1;
    }
    assert(lv.len() == ls@.len());
    (out, n)
}

// ---------------------------------------------------------------------
// Pins in lockfiles
// ---------------------------------------------------------------------

/// How far a line is indented, in bytes.
pub open spec fn indent_of(line: Seq<char>) -> int {
    byte_len(line) - byte_len(trim_start(line))
}

/// `line` without leading white space.
fn trimmed_start(line: &str) -> (r: String)
    ensures
        r@ == trim_start(line@),
{
    let chars = chars_of(line);
    let mut from: usize = 0;
    assert(chars@.skip(0) =~= chars@);
    while from < chars.len() && space(chars[from])
        invariant
            from <= chars@.len(),
            trim_start(chars@) == trim_start(chars@.skip(from as int)),
        decreases chars.len() - from,
    {
        assert(chars@.skip(from as int).drop_first() =~= chars@.skip(from + 1));
        from += 1;
    }
    let r = text_of(&chars, from, chars.len());
    assert(r@ =~= chars@.skip(from as int));
    r
}

proof fn lemma_trim_start_shorter(s: Seq<char>)
    ensures
        byte_len(trim_start(s)) <= byte_len(s),
    decreases s.len(),
{
    if s.len() > 0 && is_space(s[0]) {
        lemma_trim_start_shorter(s.drop_first());
    }
}

/// How far a line is indented, in bytes.
pub fn indent(line: &str) -> (r: usize)
    ensures
        r == indent_of(line@),
{
    proof {
        lemma_trim_start_shorter(line@);
    }
    bytes_in(line) - bytes_in(trimmed_start(line).as_str())
}

/// `set` with the pins of the block below an anchor: of the lines from the
/// `k`-th on until one that is indented no further than the anchor; blank
/// lines do not count.
pub open spec fn with_block(
    set: Seq<(Seq<char>, ())>,
    ls: Seq<Seq<char>>,
    anchor: int,
    k: int,
) -> Seq<(Seq<char>, ())>
    decreases ls.len() - k,
{
    if k < 0 || k >= ls.len() {
        set
    } else if is_blank(ls[k]) {
        with_block(set, ls, anchor, k + 1)
    } else if indent_of(ls[k]) <= anchor {
        set
    } else {
        with_block(with_pins(set, ls[k]), ls, anchor, k + 1)
    }
}

/// The pins of the blocks that the first `n` lines begin.
pub open spec fn js_pins(ls: Seq<Seq<char>>, n: int) -> Seq<(Seq<char>, ())>
    decreases n,
{
    if n <= 0 {
        Seq::<(Seq<char>, ())>::empty()
    } else {
        let init = js_pins(ls, n - 1);
        if contains_text(ls[n - 1], JS_PACKAGE@) {
            with_block(with_pins(init, ls[n - 1]), ls, indent_of(ls[n - 1]), n)
        } else {
            init
        }
    }
}

/// The pinned commits of the JavaScript package in an npm or pnpm lockfile,
/// in order: those on a line that names the package and those in the block
/// that is indented below it.
pub fn js_lock_revs(text: &str) -> (r: Vec<String>)
    ensures
        views(r@) == keys(js_pins(lines(text@), lines(text@).len() as int)),
{
    let ls = lines_of(text);
    let ghost lv = views(ls@);
    let mut revs: Table<()> = Table::new();
    let mut i: usize = 0;
    while i < ls.len()
        invariant
            i <= ls@.len(),
            lv == views(ls@),
            revs@ == js_pins(lv, i as int),
        decreases ls.len() - i,
    {
        let line = ls[i].as_str();
        assert(lv[i as int] == line@);
        if has_text(line, JS_PACKAGE) {
            let anchor = indent(line);
            collect_revs(line, &mut revs);
            let ghost end = with_block(revs@, lv, anchor as int, i + 1);
            let mut k: usize = i + 1;
            let mut open = true;
            while open && k < ls.len()
                invariant
                    i < k <= ls@.len(),
                    lv == views(ls@),
                    open ==> with_block(revs@, lv, anchor as int, k as int) == end,
                    !open ==> revs@ == end,
                decreases ls.len() - k,
            {
                let l = ls[k].as_str();
                assert(lv[k as int] == l@);
                if !blank(l) {
                    if indent(l) <= anchor {
                        open = false;
                    } else {
                        collect_revs(l, &mut revs);
                    }
                }
                k += 1;
            }
            assert(revs@ == end);
        }
        i += 1;
    }
    assert(lv.len() == ls@.len());
    revs.to_keys()
}

/// The position of the first `#` or `&` at or after `i`, or the length.
pub open spec fn param_end(s: Seq<char>, i: int) -> int
    decreases s.len() - i,
{
    if i < 0 || i >= s.len() || s[i] == '#' || s[i] == '&' { i } else { param_end(s, i + 1) }
}

/// The `?rev=` parameter of a source, where it is a full commit hash.
pub open spec fn rev_of_param(source: Seq<char>) -> Option<Seq<char>> {
    let at = occurrence_from(source, "?rev="@, 0);
    if at < 0 {
        None
    } else {
        let tail = source.skip(at + 5);
        let rev = tail.take(param_end(tail, 0));
        if is_full_rev(rev) { Some(rev) } else { None }
    }
}

/// The `?rev=` parameter of a source URL, where it is a full commit hash.
pub fn rev_param(source: &str) -> (r: Option<String>)
    ensures
        opt_text(r) == rev_of_param(source@),
{
    let s = chars_of(source);
    let pat = chars_of("?rev=");
    proof {
        reveal_strlit("?rev=");
    }
    let mut i: usize = 0;
    while i < s.len() && !matches_at(&s, &pat, i)
        invariant
            i <= s@.len(),
            s@ == source@,
            pat@ == "?rev="@,
            occurrence_from(s@, pat@, 0) == occurrence_from(s@, pat@, i as int),
        decreases s.len() - i,
    {
        i += 1;
    }
    if !matches_at(&s, &pat, i) {
        assert(i == s@.len());
        assert(occurrence_from(s@, pat@, i + 1) == -1);
        return None;
    }
    assert(pat@.len() == 5);
    let from: usize = i + 5;
    let ghost tail = s@.skip(i + 5);
    let mut to: usize = from;
    while to < s.len() && s[to] != '#' && s[to] != '&'
        invariant
            from <= to <= s@.len(),
            tail == s@.skip(from as int),
            param_end(tail, 0) == param_end(tail, to - from),
        decreases s.len() - to,
    {
        assert(tail[to - from] == s@[to as int]);
        to += 1;
    }
    if to < s.len() {
        assert(tail[to - from] == s@[to as int]);
    }
    let rev = text_of(&s, from, to);
    assert(rev@ =~= tail.take(to - from));
    if is_rev(rev.as_str()) {
        Some(rev)
    } else {
        None
    }
}

/// The fragment of a source, where it is a full commit hash.
pub open spec fn rev_of_fragment(source: Seq<char>) -> Option<Seq<char>> {
    let at = last_index(source, '#');
    if at >= 0 && is_full_rev(source.skip(at + 1)) { Some(source.skip(at + 1)) } else { None }
}

/// The commit that a git source resolves to. The fragment is what was
/// resolved; the parameter may be abbreviated.
pub open spec fn source_rev(source: Seq<char>) -> Option<Seq<char>> {
    match rev_of_fragment(source) {
        Some(rev) => Some(rev),
        None => rev_of_param(source),
    }
}

fn source_rev_of(source: &str) -> (r: Option<String>)
    ensures
        opt_text(r) == source_rev(source@),
{
    let s = chars_of(source);
    proof {
        lemma_last_index(s@, '#');
    }
    let mut n: usize = s.len();
    assert(s@.take(n as int) =~= s@);
    while n > 0 && s[n - 1] != '#'
        invariant
            n <= s@.len(),
            s@ == source@,
            last_index(s@, '#') == last_index(s@.take(n as int), '#'),
        decreases n,
    {
        assert(s@.take(n as int).last() == s@[n - 1]);
        assert(s@.take(n as int).drop_last() =~= s@.take(n - 1));
        n -= 1;
    }
    if n > 0 {
        assert(s@.take(n as int).last() == s@[n - 1]);
        let fragment = text_of(&s, n, s.len());
        assert(fragment@ =~= source@.skip(n as int));
        if is_rev(fragment.as_str()) {
            return Some(fragment);
        }
    }
    rev_param(source)
}

/// What one package of a `Cargo.lock` adds to the pins, or why its pin
/// cannot be read.
pub open spec fn package_step(
    pins: Seq<(Seq<char>, Seq<char>)>,
    row: (Option<Seq<char>>, Option<Seq<char>>),
) -> Result<Seq<(Seq<char>, Seq<char>)>, Seq<char>> {
    match row {
        (Some(name), Some(source)) => if starts_with(name, CRATE_PREFIX@) && starts_with(
            source,
            "git+"@,
        ) {
            match source_rev(source) {
                Some(rev) => Ok(pins.push((name, rev))),
                None => Err(
                    name + ": git source without a resolvable commit: "@ + source,
                ),
            }
        } else {
            Ok(pins)
        },
        _ => Ok(pins),
    }
}

/// What the packages from the `i`-th on add.
pub open spec fn packages_from(
    pins: Seq<(Seq<char>, Seq<char>)>,
    rows: Seq<(Option<Seq<char>>, Option<Seq<char>>)>,
    i: int,
) -> Result<Seq<(Seq<char>, Seq<char>)>, Seq<char>>
    decreases rows.len() - i,
{
    if i < 0 || i >= rows.len() {
        Ok(pins)
    } else {
        match package_step(pins, rows[i]) {
            Ok(next) => packages_from(next, rows, i + 1),
            Err(e) => Err(e),
        }
    }
}

/// The view of a list of pins.
pub open spec fn pin_views(v: Seq<(String, String)>) -> Seq<(Seq<char>, Seq<char>)> {
    Seq::new(v.len(), |i: int| (v[i].0@, v[i].1@))
}

/// The view of found pins.
pub open spec fn pins_result(r: Result<Vec<(String, String)>, String>) -> Result<
    Seq<(Seq<char>, Seq<char>)>,
    Seq<char>,
> {
    match r {
        Ok(v) => Ok(pin_views(v@)),
        Err(e) => Err(e@),
    }
}

/// The pins among the packages (name and source) of a `Cargo.lock`.
pub fn package_revs(rows: &[(Option<String>, Option<String>)]) -> (r: Result<
    Vec<(String, String)>,
    String,
>)
    ensures
        pins_result(r) == packages_from(Seq::empty(), crate::tomlread::rows_view(rows@), 0),
{
    let ghost rv = crate::tomlread::rows_view(rows@);
    let mut out: Vec<(String, String)> = Vec::new();
    let mut i: usize = 0;
    assert(pin_views(out@) =~= Seq::<(Seq<char>, Seq<char>)>::empty());
    while i < rows.len()
        invariant
            i <= rows@.len(),
            rv == crate::tomlread::rows_view(rows@),
            packages_from(Seq::empty(), rv, 0) == packages_from(pin_views(out@), rv, i as int),
        decreases rows.len() - i,
    {
        let ghost was = pin_views(out@);
        assert(rv[i as int] == (opt_text(rows@[i as int].0), opt_text(rows@[i as int].1)));
        match (&rows[i].0, &rows[i].1) {
            (Some(name), Some(source)) => {
                if has_prefix(name.as_str(), CRATE_PREFIX) && has_prefix(source.as_str(), "git+") {
                    match source_rev_of(source.as_str()) {
                        Some(rev) => {
                            let ghost rvw = rev@;
                            out.push((name.clone(), rev));
                            assert(pin_views(out@) =~= was.push((name@, rvw)));
                        },
                        None => {
                            let mut e = name.clone();
                            e.append(": git source without a resolvable commit: ");
                            e.append(source.as_str());
                            return Err(e);
                        },
                    }
                }
            },
            _ => {},
        }
        i += 1;
    }
    Ok(out)
}

/// The pins of a `Cargo.lock`, given its packages as TOML has them.
pub open spec fn lock_pins(
    rows: Result<Option<Seq<(Option<Seq<char>>, Option<Seq<char>>)>>, Seq<char>>,
) -> Result<Seq<(Seq<char>, Seq<char>)>, Seq<char>> {
    match rows {
        Ok(Some(rs)) => packages_from(Seq::empty(), rs, 0),
        Ok(None) => Ok(Seq::empty()),
        Err(e) => Err("parsing Cargo.lock as TOML: "@ + e),
    }
}

/// The packages of the workspace with git sources in a `Cargo.lock`: crate
/// name and commit. A git source without a commit is an error.
pub fn cargo_lock_revs(text: &str) -> (r: Result<Vec<(String, String)>, String>)
    ensures
        pins_result(r) == lock_pins(
            crate::tomlread::toml_rows(text@, "package"@, "name"@, "source"@),
        ),
{
    match crate::tomlread::toml_string_rows(text, "package", "name", "source") {
        Ok(Some(rows)) => package_revs(&rows),
        Ok(None) => {
            let none: Vec<(String, String)> = Vec::new();
            assert(pin_views(none@) =~= Seq::empty());
            Ok(none)
        },
        Err(e) => {
            let mut m = owned("parsing Cargo.lock as TOML: ");
            m.append(e.as_str());
            Err(m)
        },
    }
}

// ---------------------------------------------------------------------
// Judging the pins
// ---------------------------------------------------------------------

/// An ASCII capital in lower case; any other character as it is.
pub open spec fn ascii_lower(c: char) -> char {
    if 'A' <= c <= 'Z' { ((c as int) + 32) as char } else { c }
}

/// A text with its ASCII capitals in lower case.
pub open spec fn ascii_lowered(s: Seq<char>) -> Seq<char> {
    Seq::new(s.len(), |i: int| ascii_lower(s[i]))
}

fn lower_char(c: char) -> (r: char)
    ensures
        r == ascii_lower(c),
{
    if 'A' <= c && c <= 'Z' {
        ((c as u8) + 32) as char
    } else {
        c
    }
}

/// A text with its ASCII capitals in lower case.
pub fn lowered(s: &str) -> (r: String)
    ensures
        r@ == ascii_lowered(s@),
{
    let chars = chars_of(s);
    let mut r = String::new();
    let mut i: usize = 0;
    while i < chars.len()
        invariant
            i <= chars@.len(),
            chars@ == s@,
            r@ == ascii_lowered(s@).take(i as int),
        decreases chars.len() - i,
    {
        r.push(lower_char(chars[i]));
        assert(ascii_lowered(s@).take(i + 1) =~= ascii_lowered(s@).take(i as int).push(
            ascii_lowered(s@)[i as int],
        ));
        i += 1;
    }
    assert(ascii_lowered(s@).take(i as int) =~= ascii_lowered(s@));
    r
}

/// Read a commit hash from an argument, in either case.
pub fn parse_rev(s: &str) -> (r: Result<String, String>)
    ensures
        match r {
            Ok(rev) => rev@ == ascii_lowered(s@) && is_full_rev(rev@),
            Err(e) => !is_full_rev(ascii_lowered(s@)) && e@
                == "rev must be a full commit hash (40 hex)"@,
        },
{
    let rev = lowered(s);
    if is_rev(rev.as_str()) {
        Ok(rev)
    } else {
        Err(owned("rev must be a full commit hash (40 hex)"))
    }
}

/// Pins with where each was found.
pub open spec fn located(
    path: Seq<char>,
    pins: Seq<(Seq<char>, Seq<char>)>,
) -> Seq<(Seq<char>, Seq<char>)> {
    Seq::new(pins.len(), |i: int| (path + ": "@ + pins[i].0, pins[i].1))
}

/// What a `Cargo.lock` pins, or why that is no answer.
pub open spec fn cargo_findings(
    path: Seq<char>,
    pins: Result<Seq<(Seq<char>, Seq<char>)>, Seq<char>>,
) -> Result<Seq<(Seq<char>, Seq<char>)>, Seq<char>> {
    match pins {
        Err(e) => Err(e),
        Ok(ps) => if ps.len() == 0 {
            Err(
                path + ": no git-sourced `"@ + CRATE_PREFIX@
                    + "-*` packages (nothing is rev-pinned — patched to a path?)"@,
            )
        } else {
            Ok(located(path, ps))
        },
    }
}

fn place(path: &str, name: &str) -> (r: String)
    ensures
        r@ == path@ + ": "@ + name@,
{
    let mut r = owned(path);
    r.append(": ");
    r.append(name);
    r
}

/// The findings for the pins of a `Cargo.lock`.
pub fn locate_cargo_pins(path: &str, pins: Result<Vec<(String, String)>, String>) -> (r: Result<
    Vec<(String, String)>,
    String,
>)
    ensures
        pins_result(r) == cargo_findings(path@, pins_result(pins)),
{
    let pins = match pins {
        Ok(p) => p,
        Err(e) => {
            return Err(e);
        },
    };
    let ghost ps = pin_views(pins@);
    assert(ps.len() == pins@.len());
    if pins.len() == 0 {
        let mut e = owned(path);
        e.append(": no git-sourced `");
        e.append(CRATE_PREFIX);
        e.append("-*` packages (nothing is rev-pinned — patched to a path?)");
        return Err(e);
    }
    let mut out: Vec<(String, String)> = Vec::new();
    for i in 0..pins.len()
        invariant
            out@.len() == i,
            ps == pin_views(pins@),
            forall|k: int|
                0 <= k < i ==> (#[trigger] out@[k]).0@ == path@ + ": "@ + pins@[k].0@ && out@[k].1@
                    == pins@[k].1@,
    {
        out.push((place(path, pins[i].0.as_str()), pins[i].1.clone()));
    }
    assert(pin_views(out@) =~= located(path@, ps));
    Ok(out)
}

/// What the pins of a `Cargo.lock` are and where they stand.
pub fn cargo_lock_pins(path: &str, text: &str) -> (r: Result<Vec<(String, String)>, String>)
    ensures
        pins_result(r) == cargo_findings(
            path@,
            lock_pins(crate::tomlread::toml_rows(text@, "package"@, "name"@, "source"@)),
        ),
{
    locate_cargo_pins(path, cargo_lock_revs(text))
}

/// What an npm or pnpm lockfile pins, or why that is no answer.
pub open spec fn js_findings(path: Seq<char>, text: Seq<char>) -> Result<
    Seq<(Seq<char>, Seq<char>)>,
    Seq<char>,
> {
    let revs = keys(js_pins(lines(text), lines(text).len() as int));
    if revs.len() == 0 {
        Err(path + ": no rev pin found for "@ + JS_PACKAGE@)
    } else {
        Ok(Seq::new(revs.len(), |i: int| (path + ": "@ + JS_PACKAGE@, revs[i])))
    }
}

/// What the pins of an npm or pnpm lockfile are and where they stand.
pub fn js_lock_pins(path: &str, text: &str) -> (r: Result<Vec<(String, String)>, String>)
    ensures
        pins_result(r) == js_findings(path@, text@),
{
    let revs = js_lock_revs(text);
    let ghost rv = views(revs@);
    assert(rv.len() == revs@.len());
    if revs.len() == 0 {
        let mut e = owned(path);
        e.append(": no rev pin found for ");
        e.append(JS_PACKAGE);
        return Err(e);
    }
    let mut out: Vec<(String, String)> = Vec::new();
    for i in 0..revs.len()
        invariant
            out@.len() == i,
            forall|k: int|
                0 <= k < i ==> (#[trigger] out@[k]).0@ == path@ + ": "@ + JS_PACKAGE@ && out@[k].1@
                    == revs@[k]@,
    {
        out.push((place(path, JS_PACKAGE), revs[i].clone()));
    }
    assert(pin_views(out@) =~= Seq::new(
        rv.len(),
        |i: int| (path@ + ": "@ + JS_PACKAGE@, rv[i]),
    ));
    Ok(out)
}

/// The distinct commits of the first `n` findings.
pub open spec fn distinct_revs(findings: Seq<(Seq<char>, Seq<char>)>, n: int) -> Seq<
    (Seq<char>, ()),
>
    decreases n,
{
    if n <= 0 {
        Seq::<(Seq<char>, ())>::empty()
    } else {
        put(distinct_revs(findings, n - 1), findings[n - 1].1, ())
    }
}

/// A finding as a line of the report on a skew.
pub open spec fn skew_lines(findings: Seq<(Seq<char>, Seq<char>)>) -> Seq<Seq<char>> {
    Seq::new(findings.len(), |i: int| "  "@ + findings[i].1 + "  "@ + findings[i].0)
}

/// What the findings come to.
#[derive(Debug, PartialEq, Eq)]
pub enum PinsOutcome {
    /// One commit everywhere: what to say.
    Agreed(String),
    /// Several: a line for each finding, and the error.
    Skewed { lines: Vec<String>, error: String },
}

/// A [`PinsOutcome`] over texts.
pub enum PinsView {
    Agreed(Seq<char>),
    Skewed(Seq<Seq<char>>, Seq<char>),
}

impl View for PinsOutcome {
    type V = PinsView;

    open spec fn view(&self) -> PinsView {
        match *self {
            PinsOutcome::Agreed(s) => PinsView::Agreed(s@),
            PinsOutcome::Skewed { lines, error } => PinsView::Skewed(views(lines@), error@),
        }
    }
}

/// What the findings come to.
pub open spec fn pins_outcome(findings: Seq<(Seq<char>, Seq<char>)>) -> PinsView {
    let revs = distinct_revs(findings, findings.len() as int);
    if revs.len() > 1 {
        PinsView::Skewed(
            skew_lines(findings),
            "pin skew: "@ + crate::text::decimal(revs.len()) + " distinct revs across "@
                + crate::text::decimal(findings.len()) + " pins"@,
        )
    } else {
        PinsView::Agreed(
            "ok: one rev everywhere: "@ + revs[0].0 + " ("@ + crate::text::decimal(
                findings.len(),
            ) + " pins)"@,
        )
    }
}

/// Judge the findings: do all places pin the same commit?
pub fn judge_pins(findings: &[(String, String)]) -> (r: PinsOutcome)
    requires
        findings@.len() > 0,
    ensures
        r@ == pins_outcome(pin_views(findings@)),
{
    let ghost fs = pin_views(findings@);
    let mut revs: Table<()> = Table::new();
    let mut i: usize = 0;
    while i < findings.len()
        invariant
            i <= findings@.len(),
            fs == pin_views(findings@),
            revs@ == distinct_revs(fs, i as int),
        decreases findings.len() - i,
    {
        assert(fs[i as int].1 == findings@[i as int].1@);
        revs.insert(findings[i].1.clone(), ());
        i += 1;
    }
    assert(fs.len() == findings@.len());
    proof {
        lemma_put_nonempty(
            distinct_revs(fs, fs.len() - 1),
            fs[fs.len() - 1].1,
        );
    }
    let n = revs.len();
    if n > 1 {
        let mut list: Vec<String> = Vec::new();
        for k in 0..findings.len()
            invariant
                list@.len() == k,
                forall|j: int|
                    0 <= j < k ==> (#[trigger] list@[j])@ == "  "@ + findings@[j].1@ + "  "@
                        + findings@[j].0@,
        {
            let mut line = owned("  ");
            line.append(findings[k].1.as_str());
            line.append("  ");
            line.append(findings[k].0.as_str());
            list.push(line);
        }
        assert(views(list@) =~= skew_lines(fs));
        let mut error = owned("pin skew: ");
        error.append(crate::text::decimal_text(n as u128).as_str());
        error.append(" distinct revs across ");
        error.append(crate::text::decimal_text(findings.len() as u128).as_str());
        error.append(" pins");
        PinsOutcome::Skewed { lines: list, error }
    } else {
        let mut ok = owned("ok: one rev everywhere: ");
        ok.append(revs.key_at(0));
        ok.append(" (");
        ok.append(crate::text::decimal_text(findings.len() as u128).as_str());
        ok.append(" pins)");
        PinsOutcome::Agreed(ok)
    }
}

proof fn lemma_put_nonempty(m: Seq<(Seq<char>, ())>, k: Seq<char>)
    ensures
        put(m, k, ()).len() > 0,
{
}

// ---------------------------------------------------------------------
// The bump
// ---------------------------------------------------------------------

/// What a bumped file is to hold, what to say of it, and for a `Cargo.toml`
/// which crates it pins.
#[derive(Debug, PartialEq, Eq)]
pub struct Bumped {
    pub text: String,
    pub report: String,
    pub crates: Vec<String>,
}

/// What to say of a bumped file.
pub open spec fn report_text(path: Seq<char>, what: Seq<char>, noop: bool) -> Seq<char> {
    if noop {
        path + ": "@ + what + " already at the requested rev"@
    } else {
        path + ": bumped "@ + what
    }
}

/// What to say of a bumped file.
pub fn report(path: &str, what: &str, noop: bool) -> (r: String)
    ensures
        r@ == report_text(path@, what@, noop),
{
    let mut r = owned(path);
    if noop {
        r.append(": ");
        r.append(what);
        r.append(" already at the requested rev");
    } else {
        r.append(": bumped ");
        r.append(what);
    }
    r
}

/// The text of a `Cargo.toml` after a bump.
pub open spec fn cargo_bumped(text: Seq<char>, rev: Seq<char>) -> Seq<char> {
    edited_by(text, |line: Seq<char>| cargo_edit(line, rev))
}

/// The crates that a `Cargo.toml` pins to `rev` after a bump.
pub open spec fn cargo_crates(text: Seq<char>, rev: Seq<char>) -> Seq<Seq<char>> {
    cargo_sites(edit_lines(text), rev, edit_lines(text).len() as int)
}

/// Bump a `Cargo.toml`; one without a pinned dependency is an error.
pub fn bump_cargo_file(path: &str, text: &str, rev: &str) -> (r: Result<Bumped, String>)
    ensures
        match r {
            Ok(b) => cargo_crates(text@, rev@).len() > 0 && b.text@ == cargo_bumped(text@, rev@)
                && views(b.crates@) == cargo_crates(text@, rev@) && b.report@ == report_text(
                path@,
                join(cargo_crates(text@, rev@), ", "@),
                text@ == cargo_bumped(text@, rev@),
            ),
            Err(e) => cargo_crates(text@, rev@).len() == 0 && e@ == path@ + ": no git-pinned `"@
                + CRATE_PREFIX@ + "-*` dependency lines found"@,
        },
{
    let (new, crates) = bump_cargo_toml(text, rev);
    assert(views(crates@).len() == crates@.len());
    if crates.len() == 0 {
        let mut e = owned(path);
        e.append(": no git-pinned `");
        e.append(CRATE_PREFIX);
        e.append("-*` dependency lines found");
        return Err(e);
    }
    let said = report(
        path,
        crate::text::join_texts(&crates, ", ").as_str(),
        same(text, new.as_str()),
    );
    Ok(Bumped { text: new, report: said, crates })
}

/// The text of a `package.json` after a bump.
pub open spec fn package_bumped(text: Seq<char>, rev: Seq<char>) -> Seq<char> {
    edited_by(
        text,
        |line: Seq<char>|
            anchored_edit(line, rev, |l: Seq<char>| contains_text(l, JS_PACKAGE@)),
    )
}

/// How many lines of a `package.json` hold `rev` after a bump.
pub open spec fn package_sites(text: Seq<char>, rev: Seq<char>) -> nat {
    anchored_sites(
        edit_lines(text),
        rev,
        |l: Seq<char>| contains_text(l, JS_PACKAGE@),
        edit_lines(text).len() as int,
    )
}

/// Bump a `package.json`; one without a pin is an error.
pub fn bump_package_file(path: &str, text: &str, rev: &str) -> (r: Result<Bumped, String>)
    ensures
        match r {
            Ok(b) => package_sites(text@, rev@) > 0 && b.text@ == package_bumped(text@, rev@)
                && b.crates@.len() == 0 && b.report@ == report_text(
                path@,
                JS_PACKAGE@,
                text@ == package_bumped(text@, rev@),
            ),
            Err(e) => package_sites(text@, rev@) == 0 && e@ == path@ + ": no rev-pinned "@
                + JS_PACKAGE@ + " line found"@,
        },
{
    let (new, n) = bump_named_lines(text, JS_PACKAGE, rev);
    if n == 0 {
        let mut e = owned(path);
        e.append(": no rev-pinned ");
        e.append(JS_PACKAGE);
        e.append(" line found");
        return Err(e);
    }
    let said = report(path, JS_PACKAGE, same(text, new.as_str()));
    Ok(Bumped { text: new, report: said, crates: Vec::new() })
}

/// The text of a workflow after a bump.
pub open spec fn workflow_bumped(text: Seq<char>, rev: Seq<char>) -> Seq<char> {
    edited_by(
        text,
        |line: Seq<char>| anchored_edit(line, rev, |l: Seq<char>| is_action_line(l)),
    )
}

/// How many lines of a workflow hold `rev` after a bump.
pub open spec fn workflow_sites(text: Seq<char>, rev: Seq<char>) -> nat {
    anchored_sites(
        edit_lines(text),
        rev,
        |l: Seq<char>| is_action_line(l),
        edit_lines(text).len() as int,
    )
}

/// Bump a workflow; one without a reference to an action is an error.
pub fn bump_workflow_file(path: &str, text: &str, rev: &str) -> (r: Result<Bumped, String>)
    ensures
        match r {
            Ok(b) => workflow_sites(text@, rev@) > 0 && b.text@ == workflow_bumped(text@, rev@)
                && b.crates@.len() == 0 && b.report@ == report_text(
                path@,
                crate::text::decimal(workflow_sites(text@, rev@)) + " action ref(s)"@,
                text@ == workflow_bumped(text@, rev@),
            ),
            Err(e) => workflow_sites(text@, rev@) == 0 && e@ == path@ + ": no `"@
                + ACTION_PATH_ANCHOR@ + "<action>@<rev>` refs found"@,
        },
{
    let (new, n) = bump_action_refs(text, rev);
    if n == 0 {
        let mut e = owned(path);
        e.append(": no `");
        e.append(ACTION_PATH_ANCHOR);
        e.append("<action>@<rev>` refs found");
        return Err(e);
    }
    let mut what = crate::text::decimal_text(n as u128);
    what.append(" action ref(s)");
    let said = report(path, what.as_str(), same(text, new.as_str()));
    Ok(Bumped { text: new, report: said, crates: Vec::new() })
}

/// `-p` before every crate.
pub open spec fn package_flags(crates: Seq<Seq<char>>) -> Seq<Seq<char>> {
    Seq::new(crates.len(), |i: int| "-p "@ + crates[i])
}

/// What is left to do after a bump.
pub open spec fn next_steps_text(
    crates: Seq<Seq<char>>,
    touched_js: bool,
    rev: Seq<char>,
) -> Seq<Seq<char>> {
    let head = seq!["next steps (lockfiles are regenerated by their owners, not edited):"@];
    let cargo = if crates.len() > 0 {
        head.push("  cargo update "@ + join(package_flags(crates), " "@))
    } else {
        head
    };
    let js = if touched_js {
        cargo.push("  npm install   (or: pnpm install) in each edited package directory"@)
    } else {
        cargo
    };
    js.push("  component-test pins --cargo-lock ... [--js-lock ...] --expect "@ + rev)
}

fn push_line(list: &mut Vec<String>, s: String)
    ensures
        views(final(list)@) == views(old(list)@).push(s@),
{
    let ghost was = views(list@);
    let ghost sv = s@;
    list.push(s);
    assert(views(list@) =~= was.push(sv));
}

/// What is left to do after a bump: the crates each once, in order.
pub fn next_steps(crates: &[String], touched_js: bool, rev: &str) -> (r: Vec<String>)
    ensures
        views(r@) == next_steps_text(
            keys(with_all(Seq::empty(), views(crates@), crates@.len() as int)),
            touched_js,
            rev@,
        ),
{
    let ghost cs = views(crates@);
    let mut set: Table<()> = Table::new();
    let mut i: usize = 0;
    while i < crates.len()
        invariant
            i <= crates@.len(),
            cs == views(crates@),
            set@ == with_all(Seq::empty(), cs, i as int),
        decreases crates.len() - i,
    {
        assert(cs[i as int] == crates@[i as int]@);
        set.insert(crates[i].clone(), ());
        i += 1;
    }
    let names = set.to_keys();
    let ghost ns = views(names@);
    let mut out: Vec<String> = Vec::new();
    push_line(
        &mut out,
        owned("next steps (lockfiles are regenerated by their owners, not edited):"),
    );
    assert(views(out@) =~= seq![
        "next steps (lockfiles are regenerated by their owners, not edited):"@,
    ]);
    assert(ns.len() == names@.len());
    if names.len() > 0 {
        let mut flags: Vec<String> = Vec::new();
        let mut k: usize = 0;
        assert(views(flags@) =~= package_flags(ns).take(0));
        while k < names.len()
            invariant
                k <= names@.len(),
                ns == views(names@),
                views(flags@) == package_flags(ns).take(k as int),
            decreases names.len() - k,
        {
            let mut flag = owned("-p ");
            flag.append(names[k].as_str());
            assert(package_flags(ns).take(k + 1) =~= package_flags(ns).take(k as int).push(
                package_flags(ns)[k as int],
            ));
            push_line(&mut flags, flag);
            k += 1;
        }
        assert(package_flags(ns).take(k as int) =~= package_flags(ns));
        let mut line = owned("  cargo update ");
        line.append(crate::text::join_texts(&flags, " ").as_str());
        push_line(&mut out, line);
    }
    if touched_js {
        push_line(
            &mut out,
            owned("  npm install   (or: pnpm install) in each edited package directory"),
        );
    }
    let mut last = owned("  component-test pins --cargo-lock ... [--js-lock ...] --expect ");
    last.append(rev);
    push_line(&mut out, last);
    out
}

// ---------------------------------------------------------------------
// Laws
// ---------------------------------------------------------------------

proof fn lemma_edit_nothing(text: Seq<char>, edits: Seq<Option<Seq<char>>>, n: int)
    requires
        0 <= n <= edit_lines(text).len() <= edits.len(),
        forall|i: int| 0 <= i < n ==> edits[i] is None,
    ensures
        edited_text(text, edits, n) == crate::text::concat(
            Seq::new(
                n as nat,
                |i: int|
                    if i + 1 < split(text, '\n').len() {
                        split(text, '\n')[i].push('\n')
                    } else {
                        split(text, '\n')[i]
                    },
            ),
        ),
    decreases n,
{
    let ps = split(text, '\n');
    lemma_split_nonempty(text, '\n');
    let all = Seq::new(
        n as nat,
        |i: int| if i + 1 < ps.len() { ps[i].push('\n') } else { ps[i] },
    );
    if n > 0 {
        lemma_edit_nothing(text, edits, n - 1);
        assert(all.drop_last() =~= Seq::new(
            (n - 1) as nat,
            |i: int| if i + 1 < ps.len() { ps[i].push('\n') } else { ps[i] },
        ));
        assert(edit_lines(text)[n - 1] == ps[n - 1]);
    }
}

/// The pieces of a split, each but the last with the separator, make the
/// text again.
proof fn lemma_split_rebuild(s: Seq<char>, sep: char)
    ensures
        crate::text::concat(
            Seq::new(
                split(s, sep).len(),
                |i: int|
                    if i + 1 < split(s, sep).len() {
                        split(s, sep)[i].push(sep)
                    } else {
                        split(s, sep)[i]
                    },
            ),
        ) == s,
    decreases s.len(),
{
    let ps = split(s, sep);
    let all = Seq::new(ps.len(), |i: int| if i + 1 < ps.len() { ps[i].push(sep) } else { ps[i] });
    if s.len() == 0 {
        assert(all =~= seq![Seq::<char>::empty()]);
        assert(all.drop_last() =~= Seq::<Seq<char>>::empty());
        assert(crate::text::concat(all.drop_last()) =~= Seq::<char>::empty());
        assert(all.last() =~= Seq::<char>::empty());
        assert(crate::text::concat(all) =~= s);
    } else {
        let t = s.drop_last();
        let qs = split(t, sep);
        let most = Seq::new(
            qs.len(),
            |i: int| if i + 1 < qs.len() { qs[i].push(sep) } else { qs[i] },
        );
        lemma_split_nonempty(t, sep);
        lemma_split_rebuild(t, sep);
        assert(crate::text::concat(most) == t);
        let head = most.drop_last();
        assert(crate::text::concat(most) == crate::text::concat(head) + most.last());
        assert(most.last() == qs.last());
        if s.last() == sep {
            assert(all.drop_last() =~= head.push(qs.last().push(sep)));
            assert(all.last() =~= Seq::<char>::empty());
            let mid = head.push(qs.last().push(sep));
            assert(mid.drop_last() =~= head);
            assert(mid.last() == qs.last().push(sep));
            assert(crate::text::concat(mid) == crate::text::concat(head) + qs.last().push(sep));
            assert(crate::text::concat(all) == crate::text::concat(mid) + all.last());
            assert(t.push(sep) =~= s);
            assert(crate::text::concat(head) + qs.last().push(sep) =~= t.push(sep));
            assert(crate::text::concat(all) =~= s);
        } else {
            assert(all.drop_last() =~= head);
            assert(all.last() == qs.last().push(s.last()));
            assert(crate::text::concat(all) == crate::text::concat(head) + all.last());
            assert(t.push(s.last()) =~= s);
            assert(crate::text::concat(head) + qs.last().push(s.last()) =~= t.push(s.last()));
            assert(crate::text::concat(all) =~= s);
        }
    }
}

/// A rewrite that leaves every line alone leaves the text alone, final line
/// feed or not.
pub proof fn law_map_lines_identity(text: Seq<char>)
    ensures
        edited_by(text, |line: Seq<char>| None) == text,
{
    let ls = edit_lines(text);
    let ps = split(text, '\n');
    lemma_split_nonempty(text, '\n');
    let none = |line: Seq<char>| None::<Seq<char>>;
    let edits = edits_by(ls, none);
    lemma_edit_nothing(text, edits, ls.len() as int);
    lemma_split_rebuild(text, '\n');
    let all = Seq::new(
        ps.len(),
        |i: int| if i + 1 < ps.len() { ps[i].push('\n') } else { ps[i] },
    );
    let most = Seq::new(
        ls.len(),
        |i: int| if i + 1 < ps.len() { ps[i].push('\n') } else { ps[i] },
    );
    if ps.last().len() == 0 {
        assert(all.drop_last() =~= most);
        assert(all.last() =~= Seq::<char>::empty());
        assert(crate::text::concat(all) =~= crate::text::concat(most));
    } else {
        assert(all =~= most);
    }
}

proof fn lemma_same_run(t: Seq<char>, k: int, n: int)
    requires
        0 <= k,
        0 <= n,
        k + n <= t.len(),
        forall|x: int| 0 <= x < n ==> is_hex_char(#[trigger] t[k + x]),
        k + n < t.len() ==> !is_hex_char(t[k + n]),
    ensures
        run_end(t, k) == k + n,
    decreases n,
{
    if n > 0 {
        assert(is_hex_char(t[k + 0]));
        assert forall|x: int| 0 <= x < n - 1 implies is_hex_char(#[trigger] t[k + 1 + x]) by {
            assert(is_hex_char(t[k + (x + 1)]));
        }
        lemma_same_run(t, k + 1, n - 1);
    }
}

/// What stands behind a place in a rewritten text begins as the given text
/// does there, unless a pin does.
proof fn lemma_replaced_head(s: Seq<char>, rev: Seq<char>, j: int)
    requires
        0 <= j <= s.len(),
        j < s.len() ==> !is_hex_char(s[j]),
    ensures
        j == s.len() ==> replaced_from(s, rev, j).len() == 0,
        j < s.len() ==> replaced_from(s, rev, j).len() > 0 && replaced_from(s, rev, j)[0] == s[j],
{
}

proof fn lemma_pins_after(s: Seq<char>, rev: Seq<char>, t: Seq<char>, i: int, k: int)
    requires
        is_full_rev(rev),
        0 <= i <= s.len(),
        0 <= k <= t.len(),
        t.skip(k) == replaced_from(s, rev, i),
        i == 0 <==> k == 0,
        0 < i < s.len() && is_hex_char(s[i]) ==> t[k - 1] == s[i - 1],
    ensures
        pins_from(t, k) == Seq::new(pins_from(s, i).len(), |x: int| rev),
    decreases s.len() - i,
{
    if i == s.len() {
        assert(t.skip(k).len() == 0);
        assert(pins_from(t, k) =~= Seq::new(pins_from(s, i).len(), |x: int| rev));
    } else if !is_hex_char(s[i]) {
        let rest = replaced_from(s, rev, i + 1);
        assert(t.skip(k) == seq![s[i]] + rest);
        assert(t.skip(k)[0] == s[i]);
        assert(t[k] == s[i]);
        assert(t.skip(k + 1) =~= rest) by {
            assert(t.skip(k).skip(1) =~= t.skip(k + 1));
            assert((seq![s[i]] + rest).skip(1) =~= rest);
        }
        lemma_pins_after(s, rev, t, i + 1, k + 1);
    } else {
        let j = run_end(s, i);
        lemma_run_end(s, i);
        let piece = if is_pin(s, i, j) {
            rev
        } else {
            s.subrange(i, j)
        };
        let n = piece.len() as int;
        let rest = replaced_from(s, rev, j);
        assert(t.skip(k) == piece + rest);
        assert(t.len() == k + n + rest.len());
        assert forall|x: int| 0 <= x < n implies #[trigger] t[k + x] == piece[x] by {
            assert(t.skip(k)[x] == piece[x]);
        }
        assert forall|x: int| 0 <= x < n implies is_hex_char(#[trigger] t[k + x]) by {
            if !is_pin(s, i, j) {
                assert(piece[x] == s[i + x]);
            }
        }
        lemma_replaced_head(s, rev, j);
        if rest.len() > 0 {
            assert(t.skip(k)[n] == rest[0]);
            assert(t[k + n] == s[j]);
        }
        lemma_same_run(t, k, n);
        assert(t.skip(k + n) =~= rest) by {
            assert(t.skip(k).skip(n) =~= t.skip(k + n));
            assert((piece + rest).skip(n) =~= rest);
        }
        assert(n > 0);
        assert(is_hex_char(t[k + 0]));
        assert(i > 0 ==> t[k - 1] == s[i - 1]);
        assert(is_pin(t, k, k + n) == is_pin(s, i, j));
        lemma_pins_after(s, rev, t, j, k + n);
        if is_pin(s, i, j) {
            assert(t.subrange(k, k + n) =~= rev);
            assert(pins_from(t, k) =~= Seq::new(pins_from(s, i).len(), |x: int| rev));
        }
    }
}

/// After setting the pins of a line to `rev`, its pins are as many as before
/// and every one of them is `rev`: what was bumped is judged pinned.
pub proof fn law_bumped_reads_pinned(line: Seq<char>, rev: Seq<char>)
    requires
        is_full_rev(rev),
    ensures
        pins_in(with_rev(line, rev)) == Seq::new(pins_in(line).len(), |i: int| rev),
{
    let t = with_rev(line, rev);
    assert(t.skip(0) =~= t);
    lemma_pins_after(line, rev, t, 0, 0);
}

proof fn lemma_no_pins(s: Seq<char>, rev: Seq<char>, i: int)
    requires
        0 <= i <= s.len(),
        pins_from(s, i).len() == 0,
    ensures
        replaced_from(s, rev, i) == s.skip(i),
    decreases s.len() - i,
{
    if i == s.len() {
        assert(s.skip(i) =~= Seq::<char>::empty());
    } else if !is_hex_char(s[i]) {
        lemma_no_pins(s, rev, i + 1);
        assert(seq![s[i]] + s.skip(i + 1) =~= s.skip(i));
    } else {
        lemma_run_end(s, i);
        let j = run_end(s, i);
        assert(!is_pin(s, i, j));
        lemma_no_pins(s, rev, j);
        assert(s.subrange(i, j) + s.skip(j) =~= s.skip(i));
    }
}

/// A line without a pin stays as it is.
pub proof fn law_unpinned_line_stays(line: Seq<char>, rev: Seq<char>)
    requires
        pins_in(line).len() == 0,
    ensures
        with_rev(line, rev) == line,
{
    lemma_no_pins(line, rev, 0);
    assert(line.skip(0) =~= line);
}

// ---------------------------------------------------------------------
// Laws: what is read and replaced, against the text
// ---------------------------------------------------------------------

/// Forty hexadecimal digits stand at `i`, with no letter or digit on either
/// side.
pub open spec fn stands_pinned(s: Seq<char>, i: int) -> bool {
    &&& 0 <= i && i + 40 <= s.len()
    &&& is_full_rev(s.subrange(i, i + 40))
    &&& i == 0 || !is_alnum(s[i - 1])
    &&& i + 40 == s.len() || !is_alnum(s[i + 40])
}

/// The places from `i` on at which a hash stands.
pub open spec fn places_from(s: Seq<char>, i: int) -> Seq<int> {
    Seq::new((s.len() - i) as nat, |k: int| i + k).filter(|k: int| stands_pinned(s, k))
}

proof fn lemma_places_step(s: Seq<char>, i: int)
    requires
        0 <= i < s.len(),
    ensures
        places_from(s, i) == (if stands_pinned(s, i) { seq![i] } else { seq![] }) + places_from(
            s,
            i + 1,
        ),
{
    let p = |k: int| stands_pinned(s, k);
    let here = Seq::new((s.len() - i) as nat, |k: int| i + k);
    let rest = Seq::new((s.len() - i - 1) as nat, |k: int| i + 1 + k);
    assert(here =~= seq![i] + rest);
    Seq::filter_distributes_over_add(seq![i], rest, p);
    reveal(Seq::filter);
    assert(seq![i].drop_last() =~= Seq::<int>::empty());
    assert(seq![i].drop_last().filter(p) =~= Seq::<int>::empty());
    assert(seq![i].filter(p) =~= if stands_pinned(s, i) { seq![i] } else { seq![] });
}

proof fn lemma_no_place_inside(s: Seq<char>, i: int, k: int, j: int)
    requires
        0 <= i < k <= j <= s.len(),
        forall|x: int| i <= x < j ==> is_hex_char(s[x]),
    ensures
        places_from(s, k) == places_from(s, j),
    decreases j - k,
{
    if k < j {
        lemma_places_step(s, k);
        assert(is_hex_char(s[k - 1]));
        lemma_no_place_inside(s, i, k + 1, j);
        assert(places_from(s, k) =~= places_from(s, k + 1));
    }
}

proof fn lemma_is_pin(s: Seq<char>, i: int)
    requires
        0 <= i < s.len(),
        is_hex_char(s[i]),
    ensures
        is_pin(s, i, run_end(s, i)) <==> stands_pinned(s, i),
{
    lemma_run_end(s, i);
    let j = run_end(s, i);
    if is_pin(s, i, j) {
        assert forall|x: int| 0 <= x < 40 implies is_hex_char(
            #[trigger] s.subrange(i, i + 40)[x],
        ) by {
            assert(is_hex_char(s[i + x]));
        }
    }
    if stands_pinned(s, i) {
        let h = s.subrange(i, i + 40);
        assert forall|x: int| 0 <= x < 40 implies is_hex_char(#[trigger] s[i + x]) by {
            assert(h[x] == s[i + x]);
        }
        lemma_same_run(s, i, 40);
    }
}

proof fn lemma_pins_are_places(s: Seq<char>, i: int)
    requires
        0 <= i <= s.len(),
    ensures
        pins_from(s, i) == places_from(s, i).map_values(|k: int| s.subrange(k, k + 40)),
    decreases s.len() - i,
{
    let f = |k: int| s.subrange(k, k + 40);
    if i == s.len() {
        reveal(Seq::filter);
        assert(Seq::new((s.len() - i) as nat, |k: int| i + k) =~= Seq::<int>::empty());
        assert(places_from(s, i).map_values(f) =~= Seq::empty());
    } else if !is_hex_char(s[i]) {
        lemma_places_step(s, i);
        lemma_pins_are_places(s, i + 1);
        assert(!stands_pinned(s, i)) by {
            if stands_pinned(s, i) {
                assert(s.subrange(i, i + 40)[0] == s[i]);
            }
        }
        assert(places_from(s, i) =~= places_from(s, i + 1));
    } else {
        lemma_run_end(s, i);
        lemma_is_pin(s, i);
        let j = run_end(s, i);
        lemma_pins_are_places(s, j);
        lemma_places_step(s, i);
        lemma_no_place_inside(s, i, i + 1, j);
        if is_pin(s, i, j) {
            assert(places_from(s, i) == seq![i] + places_from(s, j));
            assert(places_from(s, i).map_values(f) =~= seq![f(i)] + places_from(s, j).map_values(f));
        } else {
            assert(places_from(s, i) =~= places_from(s, j));
        }
    }
}

/// The pins of a line are the hashes that stand in it, from left to right.
pub proof fn law_pins_in(s: Seq<char>)
    ensures
        pins_in(s) == Seq::new(s.len(), |k: int| k).filter(
            |k: int| stands_pinned(s, k),
        ).map_values(|k: int| s.subrange(k, k + 40)),
{
    lemma_pins_are_places(s, 0);
    assert(Seq::new((s.len() - 0) as nat, |k: int| 0 + k) =~= Seq::new(s.len(), |k: int| k));
}

proof fn lemma_replaced_before(s: Seq<char>, rev: Seq<char>, i: int, k: int)
    requires
        0 <= k <= i <= s.len(),
        i == 0 || !is_alnum(s[i - 1]),
    ensures
        replaced_from(s, rev, k) == replaced_from(s.take(i), rev, k) + replaced_from(s, rev, i),
    decreases i - k,
{
    let t = s.take(i);
    if k == i {
        assert(replaced_from(t, rev, k) =~= Seq::<char>::empty());
        assert(replaced_from(s, rev, k) =~= replaced_from(t, rev, k) + replaced_from(s, rev, i));
    } else if !is_hex_char(s[k]) {
        lemma_replaced_before(s, rev, i, k + 1);
        assert(t[k] == s[k]);
        assert(replaced_from(s, rev, k) =~= replaced_from(t, rev, k) + replaced_from(s, rev, i));
    } else {
        lemma_run_end(s, k);
        let j = run_end(s, k);
        assert(j <= i) by {
            if j > i {
                assert(is_hex_char(s[i - 1]));
            }
        }
        assert(j < i);
        assert forall|x: int| 0 <= x < j - k implies is_hex_char(#[trigger] t[k + x]) by {
            assert(t[k + x] == s[k + x]);
        }
        assert(t[j] == s[j]);
        lemma_same_run(t, k, j - k);
        lemma_replaced_before(s, rev, i, j);
        assert(t.subrange(k, j) =~= s.subrange(k, j));
        assert(k > 0 ==> t[k - 1] == s[k - 1]);
        assert(replaced_from(s, rev, k) =~= replaced_from(t, rev, k) + replaced_from(s, rev, i));
    }
}

proof fn lemma_replaced_after(s: Seq<char>, rev: Seq<char>, m: int, k: int)
    requires
        0 <= m,
        0 <= k,
        m + k <= s.len(),
        m == s.len() || !is_alnum(s[m]),
    ensures
        replaced_from(s, rev, m + k) == replaced_from(s.skip(m), rev, k),
    decreases s.len() - m - k,
{
    let t = s.skip(m);
    if m + k < s.len() {
        assert(t[k] == s[m + k]);
        if !is_hex_char(s[m + k]) {
            lemma_replaced_after(s, rev, m, k + 1);
        } else {
            lemma_run_end(s, m + k);
            let j = run_end(s, m + k);
            assert forall|x: int| 0 <= x < j - m - k implies is_hex_char(#[trigger] t[k + x]) by {
                assert(t[k + x] == s[m + k + x]);
            }
            if j < s.len() {
                assert(t[j - m] == s[j]);
            }
            lemma_same_run(t, k, j - m - k);
            lemma_replaced_after(s, rev, m, j - m);
            assert(t.subrange(k, j - m) =~= s.subrange(m + k, j));
            assert(k > 0);
            assert(t[k - 1] == s[m + k - 1]);
        }
    }
}

/// A hash that stands in a line is replaced, whatever stands around it; what
/// is before it and after it is replaced as if it stood alone. With
/// `law_unpinned_line_stays` this says what becomes of every line.
pub proof fn law_each_pin_is_replaced(s: Seq<char>, rev: Seq<char>, i: int)
    requires
        stands_pinned(s, i),
    ensures
        with_rev(s, rev) == with_rev(s.take(i), rev) + rev + with_rev(s.skip(i + 40), rev),
{
    assert(s.subrange(i, i + 40)[0] == s[i]);
    lemma_is_pin(s, i);
    lemma_run_end(s, i);
    lemma_replaced_before(s, rev, i, 0);
    lemma_replaced_after(s, rev, i + 40, 0);
    let (a, b) = (with_rev(s.take(i), rev), with_rev(s.skip(i + 40), rev));
    assert(replaced_from(s, rev, i) == rev + b);
    assert(a + (rev + b) =~= a + rev + b);
}

/// The pieces between line feeds with the edit applied to each line; an empty
/// piece at the end is no line.
pub open spec fn edited_pieces(
    text: Seq<char>,
    edit: spec_fn(Seq<char>) -> Option<Seq<char>>,
) -> Seq<Seq<char>> {
    let ps = split(text, '\n');
    Seq::new(
        ps.len(),
        |i: int|
            if (i == ps.len() - 1 && ps[i].len() == 0) || edit(ps[i]) is None {
                ps[i]
            } else {
                edit(ps[i])->0
            },
    )
}

proof fn lemma_edited_pieces(
    text: Seq<char>,
    edit: spec_fn(Seq<char>) -> Option<Seq<char>>,
    n: int,
)
    requires
        0 <= n <= edit_lines(text).len(),
    ensures
        ({
            let t = edited_text(text, edits_by(edit_lines(text), edit), n);
            let ps = edited_pieces(text, edit);
            if n < ps.len() {
                t == if n == 0 { Seq::empty() } else { join(ps.take(n), "\n"@).push('\n') }
            } else {
                t == join(ps, "\n"@)
            }
        }),
    decreases n,
{
    reveal_strlit("\n");
    lemma_split_nonempty(text, '\n');
    let ls = edit_lines(text);
    let ps = edited_pieces(text, edit);
    let edits = edits_by(ls, edit);
    assert("\n"@ =~= seq!['\n']);
    if n > 0 {
        lemma_edited_pieces(text, edit, n - 1);
        assert(ls[n - 1] == split(text, '\n')[n - 1]);
        assert(edits[n - 1] == edit(ls[n - 1]));
        let line = edited(ls[n - 1], edits[n - 1]);
        assert(ps[n - 1] == line);
        assert(ps.take(n).drop_last() =~= ps.take(n - 1));
        assert(ps.take(n).last() == line);
        let before = edited_text(text, edits, n - 1);
        if n == 1 {
            assert(join(ps.take(n), "\n"@) == line);
            assert(before + line =~= line);
            assert(before + line.push('\n') =~= line.push('\n'));
        } else {
            assert(join(ps.take(n), "\n"@) =~= before + line);
            assert(before + line.push('\n') =~= (before + line).push('\n'));
        }
        if n == ps.len() {
            assert(ps.take(n) =~= ps);
        }
    }
}

/// Editing keeps the lines apart as they were: between the same line feeds
/// stand the same lines, each as the edit leaves it.
pub proof fn law_edited_by(text: Seq<char>, edit: spec_fn(Seq<char>) -> Option<Seq<char>>)
    ensures
        edited_by(text, edit) == join(edited_pieces(text, edit), "\n"@),
{
    lemma_split_nonempty(text, '\n');
    reveal_strlit("\n");
    let ls = edit_lines(text);
    let ps = edited_pieces(text, edit);
    lemma_edited_pieces(text, edit, ls.len() as int);
    let n = ls.len() as int;
    if n < ps.len() {
        assert(ps.drop_last() =~= ps.take(n));
        assert(ps.last() == split(text, '\n').last());
        if n == 0 {
            assert(join(ps, "\n"@) =~= ps[0]);
            assert(edited_by(text, edit) =~= join(ps, "\n"@));
        } else {
            assert(join(ps, "\n"@) =~= join(ps.take(n), "\n"@) + "\n"@);
            assert("\n"@ =~= seq!['\n']);
            assert(edited_by(text, edit) =~= join(ps, "\n"@));
        }
    }
}

/// A line's name is what it begins with, spaces aside, up to the first equals
/// sign or space.
pub proof fn law_line_name(line: Seq<char>)
    ensures
        ({
            let s = trim_start(line);
            let name = line_name(line);
            &&& !name.contains('=') && !name.contains(' ')
            &&& s.take(name.len() as int) == name && name.len() <= s.len()
            &&& name.len() < s.len() ==> s[name.len() as int] == '=' || s[name.len() as int]
                == ' '
        }),
{
    let s = trim_start(line);
    lemma_name_end(s, 0);
    let name = line_name(line);
    if name.contains('=') {
        let i = choose|i: int| 0 <= i < name.len() && name[i] == '=';
        assert(s[i] == '=');
    }
    if name.contains(' ') {
        let i = choose|i: int| 0 <= i < name.len() && name[i] == ' ';
        assert(s[i] == ' ');
    }
}

proof fn lemma_name_end(s: Seq<char>, i: int)
    requires
        0 <= i <= s.len(),
    ensures
        i <= name_end(s, i) <= s.len(),
        forall|k: int| i <= k < name_end(s, i) ==> s[k] != '=' && s[k] != ' ',
        name_end(s, i) < s.len() ==> s[name_end(s, i)] == '=' || s[name_end(s, i)] == ' ',
    decreases s.len() - i,
{
    if i < s.len() && s[i] != '=' && s[i] != ' ' {
        lemma_name_end(s, i + 1);
    }
}

/// A line that takes one of the workspace's crates from a repository.
pub open spec fn takes_crate(line: Seq<char>) -> bool {
    starts_with(line_name(line), "component-test"@) && contains_text(line, "git"@)
}

/// The text of a manifest with the hashes replaced on the lines that take a
/// crate of the workspace, and on no others.
pub proof fn law_cargo_bumped(text: Seq<char>, rev: Seq<char>)
    ensures
        ({
            let ps = split(text, '\n');
            cargo_bumped(text, rev) == join(
                Seq::new(
                    ps.len(),
                    |i: int| if takes_crate(ps[i]) { with_rev(ps[i], rev) } else { ps[i] },
                ),
                "\n"@,
            )
        }),
        cargo_crates(text, rev) == edit_lines(text).filter(
            |l: Seq<char>|
                takes_crate(l) && (with_rev(l, rev) != l || contains_text(
                    l,
                    "rev = \""@ + rev + "\""@,
                )),
        ).map_values(|l: Seq<char>| line_name(l)),
{
    let edit = |line: Seq<char>| cargo_edit(line, rev);
    law_edited_by(text, edit);
    let ps = split(text, '\n');
    let want = Seq::new(
        ps.len(),
        |i: int| if takes_crate(ps[i]) { with_rev(ps[i], rev) } else { ps[i] },
    );
    assert forall|i: int| 0 <= i < ps.len() implies edited_pieces(text, edit)[i]
        == #[trigger] want[i] by {
        if ps[i].len() == 0 {
            assert(with_rev(ps[i], rev) =~= ps[i]);
        }
    }
    assert(edited_pieces(text, edit) =~= want);
    lemma_cargo_sites(edit_lines(text), rev, edit_lines(text).len() as int);
    assert(edit_lines(text).take(edit_lines(text).len() as int) =~= edit_lines(text));
}

proof fn lemma_cargo_sites(ls: Seq<Seq<char>>, rev: Seq<char>, n: int)
    requires
        0 <= n <= ls.len(),
    ensures
        cargo_sites(ls, rev, n) == ls.take(n).filter(
            |l: Seq<char>|
                takes_crate(l) && (with_rev(l, rev) != l || contains_text(
                    l,
                    "rev = \""@ + rev + "\""@,
                )),
        ).map_values(|l: Seq<char>| line_name(l)),
    decreases n,
{
    reveal(Seq::filter);
    let p = |l: Seq<char>|
        takes_crate(l) && (with_rev(l, rev) != l || contains_text(l, "rev = \""@ + rev + "\""@));
    let f = |l: Seq<char>| line_name(l);
    if n > 0 {
        lemma_cargo_sites(ls, rev, n - 1);
        assert(ls.take(n).drop_last() =~= ls.take(n - 1));
        let init = ls.take(n - 1).filter(p);
        assert(p(ls[n - 1]) == is_cargo_site(ls[n - 1], rev));
        if p(ls[n - 1]) {
            assert(init.push(ls[n - 1]).map_values(f) =~= init.map_values(f).push(f(ls[n - 1])));
        }
    } else {
        assert(ls.take(n).filter(p).map_values(f) =~= Seq::empty());
    }
}

proof fn lemma_anchored_sites(
    ls: Seq<Seq<char>>,
    rev: Seq<char>,
    anchored: spec_fn(Seq<char>) -> bool,
    n: int,
)
    requires
        0 <= n <= ls.len(),
    ensures
        anchored_sites(ls, rev, anchored, n) == ls.take(n).filter(
            |l: Seq<char>| anchored(l) && (with_rev(l, rev) != l || contains_text(l, rev)),
        ).len(),
    decreases n,
{
    reveal(Seq::filter);
    if n > 0 {
        lemma_anchored_sites(ls, rev, anchored, n - 1);
        assert(ls.take(n).drop_last() =~= ls.take(n - 1));
    }
}

proof fn lemma_anchored_bumped(
    text: Seq<char>,
    rev: Seq<char>,
    anchored: spec_fn(Seq<char>) -> bool,
)
    ensures
        ({
            let ps = split(text, '\n');
            edited_by(text, |line: Seq<char>| anchored_edit(line, rev, anchored)) == join(
                Seq::new(
                    ps.len(),
                    |i: int| if anchored(ps[i]) { with_rev(ps[i], rev) } else { ps[i] },
                ),
                "\n"@,
            )
        }),
        anchored_sites(edit_lines(text), rev, anchored, edit_lines(text).len() as int)
            == edit_lines(text).filter(
            |l: Seq<char>| anchored(l) && (with_rev(l, rev) != l || contains_text(l, rev)),
        ).len(),
{
    let edit = |line: Seq<char>| anchored_edit(line, rev, anchored);
    law_edited_by(text, edit);
    let ps = split(text, '\n');
    let want = Seq::new(
        ps.len(),
        |i: int| if anchored(ps[i]) { with_rev(ps[i], rev) } else { ps[i] },
    );
    assert forall|i: int| 0 <= i < ps.len() implies edited_pieces(text, edit)[i]
        == #[trigger] want[i] by {
        if ps[i].len() == 0 {
            assert(with_rev(ps[i], rev) =~= ps[i]);
        }
    }
    assert(edited_pieces(text, edit) =~= want);
    lemma_anchored_sites(edit_lines(text), rev, anchored, edit_lines(text).len() as int);
    assert(edit_lines(text).take(edit_lines(text).len() as int) =~= edit_lines(text));
}

/// A line of a package file that names the JavaScript package.
pub open spec fn names_package(line: Seq<char>) -> bool {
    contains_text(line, "@polymorph/component-test-js"@)
}

/// A line of a workflow that refers to an action at some ref.
pub open spec fn refers_to_action(line: Seq<char>) -> bool {
    contains_text(line, "polymorph-test/actions/"@) && contains_text(line, "@"@)
}

/// A package file has the hashes replaced on the lines that name the package,
/// and on no others; a line counts where it had one, or has the new one.
pub proof fn law_package_bumped(text: Seq<char>, rev: Seq<char>)
    ensures
        ({
            let ps = split(text, '\n');
            package_bumped(text, rev) == join(
                Seq::new(
                    ps.len(),
                    |i: int| if names_package(ps[i]) { with_rev(ps[i], rev) } else { ps[i] },
                ),
                "\n"@,
            )
        }),
        package_sites(text, rev) == edit_lines(text).filter(
            |l: Seq<char>| names_package(l) && (with_rev(l, rev) != l || contains_text(l, rev)),
        ).len(),
{
    let anchored = |l: Seq<char>| contains_text(l, JS_PACKAGE@);
    lemma_anchored_bumped(text, rev, anchored);
    let ps = split(text, '\n');
    assert(Seq::new(
        ps.len(),
        |i: int| if names_package(ps[i]) { with_rev(ps[i], rev) } else { ps[i] },
    ) =~= Seq::new(ps.len(), |i: int| if anchored(ps[i]) { with_rev(ps[i], rev) } else { ps[i] }));
    let p = |l: Seq<char>| names_package(l) && (with_rev(l, rev) != l || contains_text(l, rev));
    let q = |l: Seq<char>| anchored(l) && (with_rev(l, rev) != l || contains_text(l, rev));
    assert(p =~= q);
    assert((|line: Seq<char>|
        anchored_edit(line, rev, |l: Seq<char>| contains_text(l, JS_PACKAGE@))) =~= (|
        line: Seq<char>,
    | anchored_edit(line, rev, anchored)));
}

/// A workflow has the hashes replaced on the lines that refer to an action,
/// and on no others; a line counts where it had one, or has the new one.
pub proof fn law_workflow_bumped(text: Seq<char>, rev: Seq<char>)
    ensures
        ({
            let ps = split(text, '\n');
            workflow_bumped(text, rev) == join(
                Seq::new(
                    ps.len(),
                    |i: int| if refers_to_action(ps[i]) { with_rev(ps[i], rev) } else { ps[i] },
                ),
                "\n"@,
            )
        }),
        workflow_sites(text, rev) == edit_lines(text).filter(
            |l: Seq<char>| refers_to_action(l) && (with_rev(l, rev) != l || contains_text(l, rev)),
        ).len(),
{
    let anchored = |l: Seq<char>| is_action_line(l);
    lemma_anchored_bumped(text, rev, anchored);
    let ps = split(text, '\n');
    assert(Seq::new(
        ps.len(),
        |i: int| if refers_to_action(ps[i]) { with_rev(ps[i], rev) } else { ps[i] },
    ) =~= Seq::new(ps.len(), |i: int| if anchored(ps[i]) { with_rev(ps[i], rev) } else { ps[i] }));
    let p = |l: Seq<char>| refers_to_action(l) && (with_rev(l, rev) != l || contains_text(l, rev));
    let q = |l: Seq<char>| anchored(l) && (with_rev(l, rev) != l || contains_text(l, rev));
    assert(p =~= q);
    assert((|line: Seq<char>| anchored_edit(line, rev, |l: Seq<char>| is_action_line(l))) =~= (|
        line: Seq<char>,
    | anchored_edit(line, rev, anchored)));
}

proof fn lemma_with_all(set: Seq<(Seq<char>, ())>, items: Seq<Seq<char>>, n: int)
    requires
        0 <= n <= items.len(),
    ensures
        is_sorted(set) ==> is_sorted(with_all(set, items, n)),
        forall|k: Seq<char>| #[trigger]
            has_key(with_all(set, items, n), k) <==> has_key(set, k) || items.take(n).contains(k),
    decreases n,
{
    if n > 0 {
        let init = with_all(set, items, n - 1);
        lemma_with_all(set, items, n - 1);
        if is_sorted(set) {
            law_put_sorted(init, items[n - 1], ());
        }
        assert forall|k: Seq<char>| #[trigger]
            has_key(with_all(set, items, n), k) <==> has_key(set, k) || items.take(n).contains(
                k,
            ) by {
            law_lookup_put(init, items[n - 1], (), k);
            let (some, all) = (items.take(n - 1), items.take(n));
            assert(has_key(init, k) <==> has_key(set, k) || some.contains(k));
            assert(all =~= some.push(items[n - 1]));
            if some.contains(k) {
                let x = choose|x: int| 0 <= x < some.len() && some[x] == k;
                assert(all[x] == k);
            }
            if all.contains(k) {
                let x = choose|x: int| 0 <= x < all.len() && all[x] == k;
                if x < n - 1 {
                    assert(some[x] == k);
                }
            }
            assert(all[n - 1] == items[n - 1]);
        }
    } else {
        assert(items.take(n) =~= Seq::empty());
    }
}

/// The hashes of a line join a set; nothing else does, and nothing leaves it.
pub proof fn law_with_pins(set: Seq<(Seq<char>, ())>, line: Seq<char>)
    ensures
        is_sorted(set) ==> is_sorted(with_pins(set, line)),
        forall|k: Seq<char>| #[trigger]
            has_key(with_pins(set, line), k) <==> has_key(set, k) || pins_in(line).contains(k),
{
    let ps = pins_in(line);
    lemma_with_all(set, ps, ps.len() as int);
    assert(ps.take(ps.len() as int) =~= ps);
}

/// Does line `m` belong to the block that line `k` opens? Everything between
/// them, and `m` itself, is blank or indented more than `k`.
pub open spec fn is_under(ls: Seq<Seq<char>>, k: int, m: int) -> bool {
    &&& 0 <= k < m < ls.len()
    &&& !is_blank(ls[m])
    &&& forall|x: int|
        k < x <= m ==> is_blank(#[trigger] ls[x]) || indent_of(ls[x]) > indent_of(ls[k])
}

/// Does a line in the block of `k`, from line `from` on, hold the hash?
pub open spec fn pins_under(ls: Seq<Seq<char>>, k: int, from: int, rev: Seq<char>) -> bool {
    exists|m: int| from <= m && #[trigger] is_under(ls, k, m) && pins_in(ls[m]).contains(rev)
}

proof fn lemma_with_block(set: Seq<(Seq<char>, ())>, ls: Seq<Seq<char>>, k: int, from: int)
    requires
        0 <= k < from <= ls.len(),
        forall|x: int|
            k < x < from ==> is_blank(#[trigger] ls[x]) || indent_of(ls[x]) > indent_of(ls[k]),
    ensures
        is_sorted(set) ==> is_sorted(with_block(set, ls, indent_of(ls[k]), from)),
        forall|rev: Seq<char>| #[trigger]
            has_key(with_block(set, ls, indent_of(ls[k]), from), rev) <==> has_key(set, rev)
                || pins_under(ls, k, from, rev),
    decreases ls.len() - from,
{
    let anchor = indent_of(ls[k]);
    if from >= ls.len() {
    } else if is_blank(ls[from]) {
        lemma_with_block(set, ls, k, from + 1);
        assert forall|rev: Seq<char>| pins_under(ls, k, from, rev) == #[trigger] pins_under(
            ls,
            k,
            from + 1,
            rev,
        ) by {
            if pins_under(ls, k, from, rev) {
                let m = choose|m: int|
                    from <= m && #[trigger] is_under(ls, k, m) && pins_in(ls[m]).contains(rev);
                assert(m != from);
            }
        }
        assert forall|rev: Seq<char>| #[trigger]
            has_key(with_block(set, ls, anchor, from), rev) <==> has_key(set, rev) || pins_under(
                ls,
                k,
                from,
                rev,
            ) by {
            assert(pins_under(ls, k, from, rev) == pins_under(ls, k, from + 1, rev));
            assert(has_key(with_block(set, ls, anchor, from + 1), rev) <==> has_key(set, rev)
                || pins_under(ls, k, from + 1, rev));
        }
    } else if indent_of(ls[from]) <= anchor {
        assert forall|rev: Seq<char>| !#[trigger] pins_under(ls, k, from, rev) by {
            if pins_under(ls, k, from, rev) {
                let m = choose|m: int|
                    from <= m && #[trigger] is_under(ls, k, m) && pins_in(ls[m]).contains(rev);
                assert(k < from <= m);
                assert(is_blank(ls[from]) || indent_of(ls[from]) > indent_of(ls[k]));
            }
        }
    } else {
        let next = with_pins(set, ls[from]);
        law_with_pins(set, ls[from]);
        lemma_with_block(next, ls, k, from + 1);
        assert(is_under(ls, k, from));
        assert forall|rev: Seq<char>| #[trigger]
            has_key(with_block(set, ls, anchor, from), rev) <==> has_key(set, rev) || pins_under(
                ls,
                k,
                from,
                rev,
            ) by {
            assert(has_key(with_block(next, ls, anchor, from + 1), rev) <==> has_key(next, rev)
                || pins_under(ls, k, from + 1, rev));
            assert(has_key(next, rev) <==> has_key(set, rev) || pins_in(ls[from]).contains(rev));
            if pins_under(ls, k, from, rev) {
                let m = choose|m: int|
                    from <= m && #[trigger] is_under(ls, k, m) && pins_in(ls[m]).contains(rev);
                if m > from {
                    assert(from + 1 <= m && is_under(ls, k, m));
                }
            }
            if pins_under(ls, k, from + 1, rev) {
                let m = choose|m: int|
                    from + 1 <= m && #[trigger] is_under(ls, k, m) && pins_in(ls[m]).contains(rev);
                assert(from <= m && is_under(ls, k, m));
            }
        }
    }
}

/// Does the lockfile pin the package to this hash? A line names the package,
/// and the line or one of its block holds the hash.
pub open spec fn pins_package(ls: Seq<Seq<char>>, k: int, rev: Seq<char>) -> bool {
    &&& 0 <= k < ls.len()
    &&& contains_text(ls[k], "@polymorph/component-test-js"@)
    &&& pins_in(ls[k]).contains(rev) || pins_under(ls, k, k + 1, rev)
}

proof fn lemma_js_pins(ls: Seq<Seq<char>>, n: int)
    requires
        0 <= n <= ls.len(),
    ensures
        is_sorted(js_pins(ls, n)),
        forall|rev: Seq<char>| #[trigger]
            has_key(js_pins(ls, n), rev) <==> exists|k: int|
                k < n && #[trigger] pins_package(ls, k, rev),
    decreases n,
{
    if n > 0 {
        let init = js_pins(ls, n - 1);
        lemma_js_pins(ls, n - 1);
        let line = ls[n - 1];
        if contains_text(line, JS_PACKAGE@) {
            law_with_pins(init, line);
            lemma_with_block(with_pins(init, line), ls, n - 1, n);
        }
        assert forall|rev: Seq<char>| #[trigger]
            has_key(js_pins(ls, n), rev) <==> exists|k: int|
                k < n && #[trigger] pins_package(ls, k, rev) by {
            assert(has_key(js_pins(ls, n - 1), rev) <==> exists|k: int|
                k < n - 1 && #[trigger] pins_package(ls, k, rev));
            if contains_text(line, JS_PACKAGE@) {
                assert(has_key(with_pins(init, line), rev) <==> has_key(init, rev) || pins_in(
                    line,
                ).contains(rev));
                assert(has_key(js_pins(ls, n), rev) <==> has_key(with_pins(init, line), rev)
                    || pins_under(ls, n - 1, n, rev));
            }
            if has_key(js_pins(ls, n), rev) && !has_key(init, rev) {
                assert(pins_package(ls, n - 1, rev));
            }
            if exists|k: int| k < n && #[trigger] pins_package(ls, k, rev) {
                let k = choose|k: int| k < n && #[trigger] pins_package(ls, k, rev);
                if k < n - 1 {
                    assert(k < n - 1 && pins_package(ls, k, rev));
                }
            }
        }
    }
}

/// The hashes of a JavaScript lockfile are those that it pins the package to,
/// each once and in order.
pub proof fn law_js_lock(text: Seq<char>)
    ensures
        ({
            let ls = lines(text);
            let revs = keys(js_pins(ls, ls.len() as int));
            &&& forall|rev: Seq<char>| #[trigger]
                revs.contains(rev) <==> exists|k: int| #[trigger] pins_package(ls, k, rev)
            &&& forall|i: int, j: int|
                0 <= i < j < revs.len() ==> text_lt(#[trigger] revs[i], #[trigger] revs[j])
        }),
{
    let ls = lines(text);
    let n = ls.len() as int;
    let found = js_pins(ls, n);
    lemma_js_pins(ls, n);
    assert forall|rev: Seq<char>| #[trigger]
        keys(found).contains(rev) <==> exists|k: int| #[trigger] pins_package(ls, k, rev) by {
        crate::tags::lemma_keys(found, rev);
        assert(has_key(found, rev) <==> exists|k: int|
            k < n && #[trigger] pins_package(ls, k, rev));
        if exists|k: int| #[trigger] pins_package(ls, k, rev) {
            let k = choose|k: int| #[trigger] pins_package(ls, k, rev);
            assert(k < n && pins_package(ls, k, rev));
        }
    }
    assert forall|i: int, j: int| 0 <= i < j < keys(found).len() implies text_lt(
        #[trigger] keys(found)[i],
        #[trigger] keys(found)[j],
    ) by {
        assert(text_lt(found[i].0, found[j].0));
    }
}

/// The commit of a source is what follows its last number sign, where that is
/// a full hash.
pub proof fn law_rev_of_fragment(source: Seq<char>, rev: Seq<char>)
    ensures
        rev_of_fragment(source) == Some(rev) <==> is_full_rev(rev) && exists|a: Seq<char>|
            source == #[trigger] (a + seq!['#'] + rev),
        rev_of_fragment(source) is Some ==> is_full_rev(rev_of_fragment(source)->0),
{
    lemma_last_index(source, '#');
    let at = last_index(source, '#');
    if rev_of_fragment(source) == Some(rev) {
        assert(source =~= source.take(at) + seq!['#'] + rev);
    }
    if is_full_rev(rev) && exists|a: Seq<char>| source == #[trigger] (a + seq!['#'] + rev) {
        let a = choose|a: Seq<char>| source == #[trigger] (a + seq!['#'] + rev);
        assert(source[a.len() as int] == '#');
        assert(source.contains('#'));
        if at > a.len() {
            assert(rev[at - a.len() - 1] == source[at]);
            assert(is_hex_char(rev[at - a.len() - 1]));
        }
        assert(source.skip(at + 1) =~= rev);
    }
}

/// The commit of a parameter is what follows the first `?rev=`, up to the end,
/// a number sign or an ampersand, where that is a full hash.
pub proof fn law_rev_of_param(source: Seq<char>, before: Seq<char>, rev: Seq<char>, after: Seq<char>)
    requires
        source == before + "?rev="@ + rev + after,
        forall|i: int| 0 <= i < before.len() ==> !#[trigger] occurs_at(source, "?rev="@, i),
        !rev.contains('#') && !rev.contains('&'),
        after.len() == 0 || after[0] == '#' || after[0] == '&',
    ensures
        rev_of_param(source) == if is_full_rev(rev) { Some(rev) } else { None },
{
    reveal_strlit("?rev=");
    let n = before.len() as int;
    assert(source.subrange(n, n + 5) =~= "?rev="@);
    assert(occurs_at(source, "?rev="@, n));
    law_first_occurrence(source, "?rev="@, 0);
    let at = occurrence_from(source, "?rev="@, 0);
    assert(at == n) by {
        if at < n {
            assert(occurs_at(source, "?rev="@, at));
        }
    }
    let tail = source.skip(n + 5);
    assert(tail =~= rev + after);
    assert forall|i: int| 0 <= i < rev.len() implies #[trigger] tail[i] != '#' && tail[i]
        != '&' by {
        assert(tail[i] == rev[i]);
        assert(rev.contains(rev[i]));
    }
    lemma_param_end(tail, 0);
    let e = param_end(tail, 0);
    assert(e == rev.len()) by {
        if e > rev.len() {
            assert(tail[rev.len() as int] == after[0]);
        }
    }
    assert(tail.take(e) =~= rev);
}

/// A source without the parameter gives no commit by it.
pub proof fn law_no_param(source: Seq<char>)
    requires
        !contains_text(source, "?rev="@),
    ensures
        rev_of_param(source) is None,
{
    law_first_occurrence(source, "?rev="@, 0);
    let at = occurrence_from(source, "?rev="@, 0);
    if at != -1 {
        assert(occurs_at(source, "?rev="@, at));
    }
}

proof fn lemma_param_end(s: Seq<char>, i: int)
    requires
        0 <= i <= s.len(),
    ensures
        i <= param_end(s, i) <= s.len(),
        forall|k: int| i <= k < param_end(s, i) ==> s[k] != '#' && s[k] != '&',
        param_end(s, i) < s.len() ==> s[param_end(s, i)] == '#' || s[param_end(s, i)] == '&',
    decreases s.len() - i,
{
    if i < s.len() && s[i] != '#' && s[i] != '&' {
        lemma_param_end(s, i + 1);
    }
}

/// A commit in the fragment goes before one in the parameters.
pub proof fn law_source_rev(source: Seq<char>)
    ensures
        rev_of_fragment(source) is Some ==> source_rev(source) == rev_of_fragment(source),
        rev_of_fragment(source) is None ==> source_rev(source) == rev_of_param(source),
{
}

/// A row of a lockfile: the name of a package and its source.
pub type Row = (Option<Seq<char>>, Option<Seq<char>>);

/// A row for a crate of the workspace that comes from a repository.
pub open spec fn is_pinned_row(row: Row) -> bool {
    row.0 is Some && row.1 is Some && starts_with(row.0->0, "component-test"@) && starts_with(
        row.1->0,
        "git+"@,
    )
}

proof fn lemma_packages(pins: Seq<(Seq<char>, Seq<char>)>, rows: Seq<Row>, i: int)
    requires
        0 <= i <= rows.len(),
    ensures
        match packages_from(pins, rows, i) {
            Ok(ps) => (forall|k: int|
                i <= k < rows.len() && is_pinned_row(#[trigger] rows[k]) ==> source_rev(
                    rows[k].1->0,
                ) is Some) && ps == pins + rows.skip(i).filter(
                |r: Row| is_pinned_row(r),
            ).map_values(|r: Row| (r.0->0, source_rev(r.1->0)->0)),
            Err(e) => exists|k: int|
                i <= k < rows.len() && is_pinned_row(#[trigger] rows[k]) && source_rev(rows[k].1->0)
                    is None && e == rows[k].0->0
                    + ": git source without a resolvable commit: "@ + rows[k].1->0 && forall|x: int|
                    i <= x < k && is_pinned_row(#[trigger] rows[x]) ==> source_rev(rows[x].1->0)
                        is Some,
        },
    decreases rows.len() - i,
{
    reveal(Seq::filter);
    let p = |r: Row| is_pinned_row(r);
    let f = |r: Row| (r.0->0, source_rev(r.1->0)->0);
    if i == rows.len() {
        assert(rows.skip(i) =~= Seq::empty());
        assert(pins + rows.skip(i).filter(p).map_values(f) =~= pins);
    } else {
        let row = rows[i];
        let rest = rows.skip(i + 1);
        assert(rows.skip(i) =~= seq![row] + rest);
        Seq::filter_distributes_over_add(seq![row], rest, p);
        assert(seq![row].drop_last() =~= Seq::<Row>::empty());
        assert(seq![row].drop_last().filter(p) =~= Seq::<Row>::empty());
        assert(seq![row].filter(p) =~= if p(row) { seq![row] } else { seq![] });
        assert(is_pinned_row(row) == (match row {
            (Some(name), Some(source)) => starts_with(name, CRATE_PREFIX@) && starts_with(
                source,
                "git+"@,
            ),
            _ => false,
        }));
        match package_step(pins, row) {
            Ok(next) => {
                lemma_packages(next, rows, i + 1);
                let tail = rest.filter(p).map_values(f);
                if is_pinned_row(row) {
                    assert(rows.skip(i).filter(p).map_values(f) =~= seq![f(row)] + tail);
                    assert(next + tail =~= pins + (seq![f(row)] + tail));
                } else {
                    assert(rows.skip(i).filter(p) =~= rest.filter(p));
                }
            },
            Err(e) => {
                assert(is_pinned_row(rows[i]));
            },
        }
    }
}

/// A lockfile's pins are its rows for crates of the workspace that come from a
/// repository, in order, each with its commit. One without a commit is an
/// error, of which the first is told.
pub proof fn law_package_revs(rows: Seq<Row>)
    ensures
        match packages_from(Seq::empty(), rows, 0) {
            Ok(ps) => (forall|k: int|
                0 <= k < rows.len() && is_pinned_row(#[trigger] rows[k]) ==> source_rev(
                    rows[k].1->0,
                ) is Some) && ps == rows.filter(|r: Row| is_pinned_row(r)).map_values(
                |r: Row| (r.0->0, source_rev(r.1->0)->0),
            ),
            Err(e) => exists|k: int|
                0 <= k < rows.len() && is_pinned_row(#[trigger] rows[k]) && source_rev(rows[k].1->0)
                    is None && e == rows[k].0->0
                    + ": git source without a resolvable commit: "@ + rows[k].1->0 && forall|x: int|
                    0 <= x < k && is_pinned_row(#[trigger] rows[x]) ==> source_rev(rows[x].1->0)
                        is Some,
        },
{
    lemma_packages(Seq::empty(), rows, 0);
    assert(rows.skip(0) =~= rows);
    let ps = rows.filter(|r: Row| is_pinned_row(r)).map_values(
        |r: Row| (r.0->0, source_rev(r.1->0)->0),
    );
    assert(Seq::<(Seq<char>, Seq<char>)>::empty() + ps =~= ps);
}

proof fn lemma_distinct_revs(findings: Seq<(Seq<char>, Seq<char>)>, n: int)
    requires
        0 <= n <= findings.len(),
    ensures
        is_sorted(distinct_revs(findings, n)),
        keys(distinct_revs(findings, n)).to_set() == findings.take(n).map_values(
            |f: (Seq<char>, Seq<char>)| f.1,
        ).to_set(),
    decreases n,
{
    let g = |f: (Seq<char>, Seq<char>)| f.1;
    let set = distinct_revs(findings, n);
    let all = findings.take(n).map_values(g);
    if n > 0 {
        let init = distinct_revs(findings, n - 1);
        let some = findings.take(n - 1).map_values(g);
        lemma_distinct_revs(findings, n - 1);
        law_put_sorted(init, findings[n - 1].1, ());
        assert(all =~= some.push(findings[n - 1].1));
        assert forall|k: Seq<char>| keys(set).to_set().contains(k) == all.to_set().contains(k) by {
            crate::tags::lemma_keys(set, k);
            crate::tags::lemma_keys(init, k);
            law_lookup_put(init, findings[n - 1].1, (), k);
            assert(keys(init).to_set().contains(k) == some.to_set().contains(k));
            assert(some.push(findings[n - 1].1).contains(k) <==> some.contains(k) || k
                == findings[n - 1].1) by {
                let m = some.push(findings[n - 1].1);
                assert(m[m.len() - 1] == findings[n - 1].1);
                if some.contains(k) {
                    let x = choose|x: int| 0 <= x < some.len() && some[x] == k;
                    assert(m[x] == k);
                }
                if m.contains(k) {
                    let x = choose|x: int| 0 <= x < m.len() && m[x] == k;
                    if x < some.len() {
                        assert(some[x] == k);
                    }
                }
            }
        }
        assert(keys(set).to_set() =~= all.to_set());
    } else {
        assert(keys(set).to_set() =~= all.to_set());
    }
}

/// Pins agree exactly where all of them name one commit. Where they do not,
/// every pin is listed with its commit, and the number of commits is told.
pub proof fn law_judged_pins(findings: Seq<(Seq<char>, Seq<char>)>)
    requires
        findings.len() > 0,
    ensures
        ({
            let revs = findings.map_values(|f: (Seq<char>, Seq<char>)| f.1).to_set();
            if forall|i: int|
                0 <= i < findings.len() ==> (#[trigger] findings[i]).1 == findings[0].1 {
                pins_outcome(findings) == PinsView::Agreed(
                    "ok: one rev everywhere: "@ + findings[0].1 + " ("@ + crate::text::decimal(
                        findings.len(),
                    ) + " pins)"@,
                )
            } else {
                pins_outcome(findings) == PinsView::Skewed(
                    findings.map_values(
                        |f: (Seq<char>, Seq<char>)| "  "@ + f.1 + "  "@ + f.0,
                    ),
                    "pin skew: "@ + crate::text::decimal(revs.len())
                        + " distinct revs across "@ + crate::text::decimal(findings.len())
                        + " pins"@,
                )
            }
        }),
{
    let n = findings.len() as int;
    let g = |f: (Seq<char>, Seq<char>)| f.1;
    let set = distinct_revs(findings, n);
    let all = findings.map_values(g);
    lemma_distinct_revs(findings, n);
    assert(findings.take(n) =~= findings);
    let ks = keys(set);
    assert(ks.no_duplicates()) by {
        assert forall|i: int, j: int| 0 <= i < ks.len() && 0 <= j < ks.len() && i != j implies ks[i]
            != ks[j] by {
            crate::text::lemma_text_lt_irreflexive(ks[i]);
            if i < j {
                assert(text_lt(set[i].0, set[j].0));
            } else {
                assert(text_lt(set[j].0, set[i].0));
            }
        }
    }
    ks.unique_seq_to_set();
    assert(all.to_set() == ks.to_set());
    let first = findings[0].1;
    assert(all[0] == first);
    assert(all.to_set().contains(first));
    assert(ks.contains(first));
    if forall|i: int| 0 <= i < findings.len() ==> (#[trigger] findings[i]).1 == first {
        assert(set.len() == 1) by {
            if set.len() > 1 {
                assert(ks.to_set().contains(ks[0]));
                assert(ks.to_set().contains(ks[1]));
                assert(all.contains(ks[0]) && all.contains(ks[1]));
                let x = choose|x: int| 0 <= x < all.len() && all[x] == ks[0];
                let y = choose|y: int| 0 <= y < all.len() && all[y] == ks[1];
                assert(findings[x].1 == first && findings[y].1 == first);
            }
        }
        let x = choose|x: int| 0 <= x < ks.len() && ks[x] == first;
        assert(x == 0);
    } else {
        let i = choose|i: int|
            0 <= i < findings.len() && !((#[trigger] findings[i]).1 == findings[0].1);
        assert(all[i] == findings[i].1);
        assert(all.to_set().contains(findings[i].1));
        assert(ks.contains(findings[i].1));
        assert(set.len() > 1) by {
            let x = choose|x: int| 0 <= x < ks.len() && ks[x] == first;
            let y = choose|y: int| 0 <= y < ks.len() && ks[y] == findings[i].1;
            assert(x != y);
        }
        assert(skew_lines(findings) =~= findings.map_values(
            |f: (Seq<char>, Seq<char>)| "  "@ + f.1 + "  "@ + f.0,
        ));
    }
}

} // verus!
