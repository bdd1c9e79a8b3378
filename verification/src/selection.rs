//! Which cases a stream is folded against.

use vstd::prelude::*;

use crate::json::{json_member, json_string_member};
use crate::lockfile::{cases_apart, entry_names, lemma_names_case, names_case, LockView, Lockfile};
use crate::text::{among, lines, lines_of, views};

verus! {

/// The case names of the first `n` lines that are not in `start` already,
/// each once, in order, after `start`.
pub open spec fn observed(start: Seq<Seq<char>>, ls: Seq<Seq<char>>, n: int) -> Seq<Seq<char>>
    decreases n,
{
    if n <= 1 {
        start
    } else {
        let init = observed(start, ls, n - 1);
        match json_member(ls[n - 1], "case"@) {
            Ok(Some(name)) => if init.contains(name) { init } else { init.push(name) },
            _ => init,
        }
    }
}

/// The names that a lockfile selects.
pub open spec fn locked(l: Option<LockView>) -> Seq<Seq<char>> {
    match l {
        Some(l) => entry_names(l.case),
        None => Seq::empty(),
    }
}

/// The names that a stream is folded against: those of the lockfile, then
/// those that the stream reports after its first line.
pub open spec fn selection(l: Option<LockView>, stream: Seq<char>) -> Seq<Seq<char>> {
    let ls = lines(stream);
    observed(locked(l), ls, ls.len() as int)
}

/// The view of an optional lockfile.
pub open spec fn opt_lock(l: Option<&Lockfile>) -> Option<LockView> {
    match l {
        Some(l) => Some(l@),
        None => None,
    }
}

/// The fold selection: lockfile case names and every case name observed in
/// the stream. The leaves of generated rows exist only at run time, so the
/// stream alone can tell them.
pub fn selected_names(lockfile: Option<&Lockfile>, stream: &str) -> (r: Vec<String>)
    ensures
        views(r@) == selection(opt_lock(lockfile), stream@),
{
    let mut selected = match lockfile {
        Some(l) => l.case_names(),
        None => Vec::new(),
    };
    let ghost start = locked(opt_lock(lockfile));
    assert(views(selected@) =~= start);
    let all = lines_of(stream);
    let ghost ls = views(all@);
    let mut i: usize = 1;
    while i < all.len()
        invariant
            1 <= i,
            i <= all@.len() || i == 1,
            ls == views(all@),
            views(selected@) == observed(start, ls, i as int),
        decreases all.len() - i,
    {
        assert(ls[i as int] == all@[i as int]@);
        match json_string_member(all[i].as_str(), "case") {
            Ok(Some(name)) => {
                if !among(&selected, name.as_str()) {
                    let ghost was = views(selected@);
                    let ghost n = name@;
                    selected.push(name);
                    assert(views(selected@) =~= was.push(n));
                }
            },
            _ => {},
        }
        i += 1;
    }
    selected
}

proof fn lemma_observed_keeps(start: Seq<Seq<char>>, ls: Seq<Seq<char>>, n: int)
    ensures
        start.is_prefix_of(observed(start, ls, n)),
    decreases n,
{
    if n > 1 {
        lemma_observed_keeps(start, ls, n - 1);
        let init = observed(start, ls, n - 1);
        let all = observed(start, ls, n);
        assert(all.take(start.len() as int) =~= init.take(start.len() as int));
        assert(start =~= init.take(start.len() as int));
    } else {
        assert(start.take(start.len() as int) =~= start);
    }
}

/// Every case of the lockfile is selected, in its order, before anything
/// that only the stream names.
pub proof fn law_lockfile_is_selected(l: LockView, stream: Seq<char>)
    ensures
        entry_names(l.case).is_prefix_of(selection(Some(l), stream)),
{
    lemma_observed_keeps(entry_names(l.case), lines(stream), lines(stream).len() as int);
}

proof fn lemma_observed_has(start: Seq<Seq<char>>, ls: Seq<Seq<char>>, n: int, i: int)
    requires
        1 <= i < n <= ls.len(),
        json_member(ls[i], "case"@) is Ok,
        json_member(ls[i], "case"@)->Ok_0 is Some,
    ensures
        observed(start, ls, n).contains(json_member(ls[i], "case"@)->Ok_0->0),
    decreases n,
{
    let name = json_member(ls[i], "case"@)->Ok_0->0;
    let init = observed(start, ls, n - 1);
    let all = observed(start, ls, n);
    if i == n - 1 {
        if !init.contains(name) {
            assert(all[init.len() as int] == name);
        }
    } else {
        lemma_observed_has(start, ls, n - 1, i);
        let k = choose|k: int| 0 <= k < init.len() && init[k] == name;
        assert(all[k] == name);
    }
}

/// Every case that the stream reports is selected.
pub proof fn law_reported_is_selected(l: Option<LockView>, stream: Seq<char>, i: int)
    requires
        1 <= i < lines(stream).len(),
        json_member(lines(stream)[i], "case"@) is Ok,
        json_member(lines(stream)[i], "case"@)->Ok_0 is Some,
    ensures
        selection(l, stream).contains(json_member(lines(stream)[i], "case"@)->Ok_0->0),
{
    lemma_observed_has(locked(l), lines(stream), lines(stream).len() as int, i);
}

proof fn lemma_observed_only(start: Seq<Seq<char>>, ls: Seq<Seq<char>>, n: int)
    requires
        n <= ls.len(),
    ensures
        start.no_duplicates() ==> observed(start, ls, n).no_duplicates(),
        forall|s: Seq<char>| #[trigger]
            observed(start, ls, n).contains(s) ==> start.contains(s) || exists|i: int|
                1 <= i < n && json_member(#[trigger] ls[i], "case"@) == Ok::<
                    Option<Seq<char>>,
                    Seq<char>,
                >(Some(s)),
    decreases n,
{
    if n > 1 {
        lemma_observed_only(start, ls, n - 1);
        let init = observed(start, ls, n - 1);
        let all = observed(start, ls, n);
        assert forall|s: Seq<char>| #[trigger] all.contains(s) implies start.contains(s) || exists|
            i: int,
        |
            1 <= i < n && json_member(#[trigger] ls[i], "case"@) == Ok::<
                Option<Seq<char>>,
                Seq<char>,
            >(Some(s)) by {
            if init.contains(s) {
                if !start.contains(s) {
                    let i = choose|i: int|
                        1 <= i < n - 1 && json_member(#[trigger] ls[i], "case"@) == Ok::<
                            Option<Seq<char>>,
                            Seq<char>,
                        >(Some(s));
                    assert(json_member(ls[i], "case"@) == Ok::<Option<Seq<char>>, Seq<char>>(Some(s)));
                }
            } else {
                let k = choose|k: int| 0 <= k < all.len() && all[k] == s;
                assert(k == init.len()) by {
                    if k < init.len() {
                        assert(init[k] == s);
                    }
                }
                assert(json_member(ls[n - 1], "case"@) == Ok::<Option<Seq<char>>, Seq<char>>(Some(s)));
            }
        }
        if start.no_duplicates() {
            assert forall|a: int, b: int|
                0 <= a < all.len() && 0 <= b < all.len() && a != b implies all[a] != all[b] by {
                if a < init.len() && b < init.len() {
                    assert(init[a] != init[b]);
                } else if a < init.len() {
                    assert(init.contains(init[a]));
                } else if b < init.len() {
                    assert(init.contains(init[b]));
                }
            }
        }
    }
}

/// What is selected are the cases of the lockfile and those that the lines
/// after the envelope name, and no other; none is selected twice.
pub proof fn law_nothing_else_is_selected(l: Option<LockView>, stream: Seq<char>)
    ensures
        forall|s: Seq<char>| #[trigger]
            selection(l, stream).contains(s) <==> (l is Some && names_case(l->0.case, s)) || exists|
                i: int,
            |
                1 <= i < lines(stream).len() && json_member(
                    #[trigger] lines(stream)[i],
                    "case"@,
                ) == Ok::<Option<Seq<char>>, Seq<char>>(Some(s)),
        l is None || cases_apart(l->0.case) ==> selection(l, stream).no_duplicates(),
{
    let ls = lines(stream);
    let n = ls.len() as int;
    lemma_observed_only(locked(l), ls, n);
    lemma_observed_keeps(locked(l), ls, n);
    assert forall|s: Seq<char>| #[trigger]
        selection(l, stream).contains(s) <==> (l is Some && names_case(l->0.case, s)) || exists|
            i: int,
        |
            1 <= i < ls.len() && json_member(#[trigger] ls[i], "case"@) == Ok::<
                Option<Seq<char>>,
                Seq<char>,
            >(Some(s)) by {
        if l is Some {
            lemma_names_case(l->0.case, s);
            if locked(l).contains(s) {
                let k = choose|k: int| 0 <= k < locked(l).len() && locked(l)[k] == s;
                assert(selection(l, stream).take(locked(l).len() as int)[k] == s);
                assert(selection(l, stream)[k] == s);
            }
        }
        if exists|i: int|
            1 <= i < ls.len() && json_member(#[trigger] ls[i], "case"@) == Ok::<
                Option<Seq<char>>,
                Seq<char>,
            >(Some(s)) {
            let i = choose|i: int|
                1 <= i < ls.len() && json_member(#[trigger] ls[i], "case"@) == Ok::<
                    Option<Seq<char>>,
                    Seq<char>,
                >(Some(s));
            law_reported_is_selected(l, stream, i);
        }
    }
    if l is Some && cases_apart(l->0.case) {
        let names = locked(l);
        assert forall|i: int, j: int|
            0 <= i < names.len() && 0 <= j < names.len() && i != j implies names[i]
            != names[j] by {
            if i < j {
                assert(l->0.case[i].name.text() != l->0.case[j].name.text());
            } else {
                assert(l->0.case[j].name.text() != l->0.case[i].name.text());
            }
        }
    }
}

} // verus!
