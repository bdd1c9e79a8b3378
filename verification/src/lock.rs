//! Writing and checking a suite's lockfile.

use vstd::prelude::*;

use crate::digest::{hex, sha256_digest, sha256_hex};
use crate::inventory::{
    found_inventory, inventory, no_section_text, wasm_payloads, InventoryView,
};
use crate::lockfile::{
    below, closest_row, coverage_fault, entry_names, entry_views, find_row, hangs_from,
    law_coverage_fault, law_lock_fault, law_longest_prefix, law_name_belongs_to_closest_row,
    leaf_below, lemma_names_case, lock_fault, lock_is_sound, may_be_reported, must_be_reported,
    names_case, row_of, row_views, rows_apart, CaseEntry, GeneratedEntry, LockView, Lockfile,
    RowView, SuiteRef, LOCKFILE_VERSION,
};
use crate::name::{is_case_name, same_name};
use crate::schedule::opt_str;
use crate::tags::same_tags;
use crate::text::{among, decimal, decimal_text, lines, lines_of, owned, same, trim, trimmed, views};

verus! {

// ---------------------------------------------------------------------
// The lockfile of an artifact
// ---------------------------------------------------------------------

/// The lockfile of an inventory.
pub open spec fn lock_of(name: Seq<char>, sha256: Seq<char>, i: InventoryView) -> LockView {
    LockView {
        version: LOCKFILE_VERSION@,
        suite_name: name,
        artifact_sha256: Some(sha256),
        case: i.cases,
        generated: i.generated,
    }
}

/// The lockfile of a suite artifact: its inventory, and its digest.
pub fn lock_suite(name: &str, wasm: &[u8]) -> (r: Result<Lockfile, String>)
    ensures
        match found_inventory(wasm_payloads(wasm@)) {
            Ok(Some(i)) => r is Ok && r->Ok_0@ == lock_of(name@, hex(sha256_digest(wasm@)), i),
            Ok(None) => r is Err && r->Err_0@ == no_section_text(),
            Err(e) => r is Err && r->Err_0@ == e,
        },
{
    match inventory(wasm) {
        Ok(inv) => Ok(
            Lockfile::with_generated(
                SuiteRef { name: owned(name), artifact_sha256: Some(sha256_hex(wasm)) },
                inv.cases,
                inv.generated,
            ),
        ),
        Err(e) => Err(e),
    }
}

// ---------------------------------------------------------------------
// Pinning leaves
// ---------------------------------------------------------------------

/// The lines of an enumeration: one case name each, trimmed, none empty.
pub open spec fn enumerated(ls: Seq<Seq<char>>) -> Seq<Seq<char>>
    decreases ls.len(),
{
    if ls.len() == 0 {
        Seq::<Seq<char>>::empty()
    } else {
        let init = enumerated(ls.drop_last());
        if trim(ls.last()).len() == 0 { init } else { init.push(trim(ls.last())) }
    }
}

/// What one enumerated name does: nothing for a case of the lockfile, one
/// more leaf for the row that it belongs to.
pub open spec fn leaf_step(l: LockView, assigned: Seq<Seq<Seq<char>>>, name: Seq<char>) -> Result<
    Seq<Seq<Seq<char>>>,
    Seq<char>,
> {
    let row = row_of(l.generated, name);
    if entry_names(l.case).contains(name) {
        Ok(assigned)
    } else if row < 0 {
        Err(
            "leaves entry `"@ + name
                + "` matches no static case or generated prefix (inventory drift between the enumeration and the artifact?)"@,
        )
    } else {
        Ok(assigned.update(row, assigned[row].push(below(name, l.generated[row].prefix))))
    }
}

/// What the enumerated names from the `i`-th on do.
pub open spec fn leaves_from(
    l: LockView,
    assigned: Seq<Seq<Seq<char>>>,
    names: Seq<Seq<char>>,
    i: int,
) -> Result<Seq<Seq<Seq<char>>>, Seq<char>>
    decreases names.len() - i,
{
    if i < 0 || i >= names.len() {
        Ok(assigned)
    } else {
        match leaf_step(l, assigned, names[i]) {
            Ok(next) => leaves_from(l, next, names, i + 1),
            Err(e) => Err(e),
        }
    }
}

/// No leaves for any row.
pub open spec fn no_leaves(l: LockView) -> Seq<Seq<Seq<char>>> {
    Seq::new(l.generated.len(), |i: int| Seq::<Seq<char>>::empty())
}

/// The first row from the `i`-th on without a leaf, or the number of rows.
pub open spec fn first_bare(assigned: Seq<Seq<Seq<char>>>, i: int) -> int
    decreases assigned.len() - i,
{
    if i < 0 || i >= assigned.len() || assigned[i].len() == 0 { i } else {
        first_bare(assigned, i + 1)
    }
}

/// The rows with their leaves.
pub open spec fn with_leaves(rows: Seq<RowView>, assigned: Seq<Seq<Seq<char>>>) -> Seq<RowView> {
    Seq::new(rows.len(), |i: int| RowView { cases: assigned[i], ..rows[i] })
}

/// The lockfile with the leaves of its rows pinned by an enumeration.
pub open spec fn pinned_lock(l: LockView, text: Seq<char>) -> Result<LockView, Seq<char>> {
    match leaves_from(l, no_leaves(l), enumerated(lines(text)), 0) {
        Err(e) => Err(e),
        Ok(assigned) => {
            let bare = first_bare(assigned, 0);
            if bare < assigned.len() {
                Err(
                    "generated `"@ + l.generated[bare].prefix
                        + "` has no enumerated leaves — the enumeration and the artifact disagree"@,
                )
            } else {
                Ok(LockView { generated: with_leaves(l.generated, assigned), ..l })
            }
        },
    }
}

fn enumerated_of(text: &str) -> (r: Vec<String>)
    ensures
        views(r@) == enumerated(lines(text@)),
{
    let all = lines_of(text);
    let ghost ls = views(all@);
    let mut r: Vec<String> = Vec::new();
    let mut i: usize = 0;
    assert(views(r@) =~= enumerated(ls.take(0)));
    while i < all.len()
        invariant
            i <= all@.len(),
            ls == views(all@),
            views(r@) == enumerated(ls.take(i as int)),
        decreases all.len() - i,
    {
        assert(ls.take(i + 1).drop_last() =~= ls.take(i as int));
        assert(ls.take(i + 1).last() == all@[i as int]@);
        let line = trimmed(all[i].as_str());
        if !line.as_str().is_empty() {
            let ghost was = views(r@);
            let ghost lv = line@;
            r.push(line);
            assert(views(r@) =~= was.push(lv));
        }
        i += 1;
    }
    assert(ls.take(i as int) =~= ls);
    r
}

spec fn nested(v: Seq<Vec<String>>) -> Seq<Seq<Seq<char>>> {
    Seq::new(v.len(), |i: int| views(v[i]@))
}

fn push_leaf(assigned: &mut Vec<Vec<String>>, row: usize, leaf: String)
    requires
        row < old(assigned)@.len(),
    ensures
        nested(final(assigned)@) == nested(old(assigned)@).update(
            row as int,
            nested(old(assigned)@)[row as int].push(leaf@),
        ),
{
    let ghost was = nested(assigned@);
    let ghost lv = leaf@;
    let mut mine: Vec<String> = Vec::new();
    std::mem::swap(&mut mine, &mut assigned[row]);
    let ghost m = views(mine@);
    assert(m == was[row as int]);
    mine.push(leaf);
    assert(views(mine@) =~= m.push(lv));
    assigned.set(row, mine);
    assert(nested(assigned@) =~= was.update(row as int, was[row as int].push(lv)));
}

/// The lockfile with the leaves of every generated row pinned by an
/// enumeration: one full case name per line. A name that belongs nowhere is
/// drift between the enumeration and the artifact, and so is a row without
/// a leaf.
pub fn pin_leaves(lockfile: Lockfile, text: &str) -> (r: Result<Lockfile, String>)
    ensures
        match r {
            Ok(l) => pinned_lock(lockfile@, text@) == Ok::<LockView, Seq<char>>(l@),
            Err(e) => pinned_lock(lockfile@, text@) == Err::<LockView, Seq<char>>(e@),
        },
{
    let ghost l = lockfile@;
    let names = enumerated_of(text);
    let ghost ns = views(names@);
    let statics = lockfile.case_names();
    let mut assigned: Vec<Vec<String>> = Vec::new();
    let mut k: usize = 0;
    while k < lockfile.generated.len()
        invariant
            k <= lockfile.generated@.len(),
            nested(assigned@) == Seq::new(k as nat, |i: int| Seq::<Seq<char>>::empty()),
        decreases lockfile.generated.len() - k,
    {
        let ghost was = nested(assigned@);
        let empty: Vec<String> = Vec::new();
        assert(views(empty@) =~= Seq::<Seq<char>>::empty());
        assigned.push(empty);
        assert(nested(assigned@) =~= was.push(Seq::<Seq<char>>::empty()));
        assert(nested(assigned@) =~= Seq::new(
            (k + 1) as nat,
            |i: int| Seq::<Seq<char>>::empty(),
        ));
        k += 1;
    }
    assert(l.generated.len() == lockfile.generated@.len());
    assert(nested(assigned@) =~= no_leaves(l));
    let mut i: usize = 0;
    while i < names.len()
        invariant
            i <= names@.len(),
            l == lockfile@,
            ns == views(names@),
            ns == enumerated(lines(text@)),
            views(statics@) == entry_names(l.case),
            assigned@.len() == l.generated.len(),
            leaves_from(l, no_leaves(l), ns, 0) == leaves_from(l, nested(assigned@), ns, i as int),
        decreases names.len() - i,
    {
        let name = names[i].as_str();
        assert(ns[i as int] == name@);
        if !among(&statics, name) {
            match find_row(&lockfile.generated, name) {
                None => {
                    let mut e = owned("leaves entry `");
                    e.append(name);
                    e.append(
                        "` matches no static case or generated prefix (inventory drift between the enumeration and the artifact?)",
                    );
                    return Err(e);
                },
                Some(row) => {
                    proof {
                        law_longest_prefix(l.generated, name@, l.generated.len() as int);
                        assert(l.generated[row as int] == lockfile.generated@[row as int]@);
                    }
                    let leaf = leaf_below(name, lockfile.generated[row].prefix.as_str());
                    push_leaf(&mut assigned, row, leaf);
                    assert(nested(assigned@).len() == assigned@.len());
                },
            }
        }
        i += 1;
    }
    let ghost done = nested(assigned@);
    assert(done.len() == assigned@.len());
    let mut b: usize = 0;
    while b < assigned.len()
        invariant
            b <= assigned@.len(),
            l == lockfile@,
            ns == enumerated(lines(text@)),
            done == nested(assigned@),
            assigned@.len() == l.generated.len(),
            leaves_from(l, no_leaves(l), ns, 0) == Ok::<Seq<Seq<Seq<char>>>, Seq<char>>(done),
            first_bare(done, 0) == first_bare(done, b as int),
        decreases assigned.len() - b,
    {
        assert(done[b as int] == views(assigned@[b as int]@));
        if assigned[b].len() == 0 {
            assert(done[b as int].len() == 0);
            assert(l.generated[b as int] == lockfile.generated@[b as int]@);
            let mut e = owned("generated `");
            e.append(lockfile.generated[b].prefix.as_str());
            e.append("` has no enumerated leaves — the enumeration and the artifact disagree");
            return Err(e);
        }
        b += 1;
    }
    let mut generated: Vec<GeneratedEntry> = Vec::new();
    let mut g: usize = 0;
    while g < lockfile.generated.len()
        invariant
            g <= lockfile.generated@.len(),
            l == lockfile@,
            done == nested(assigned@),
            assigned@.len() == l.generated.len(),
            row_views(generated@) == with_leaves(l.generated, done).take(g as int),
        decreases lockfile.generated.len() - g,
    {
        let old_row = &lockfile.generated[g];
        assert(l.generated[g as int] == old_row@);
        let row = GeneratedEntry {
            prefix: old_row.prefix.clone(),
            tags: crate::tags::clone_tags(&old_row.tags),
            cases: crate::text::clone_texts(&assigned[g]),
        };
        let ghost rv = row@;
        assert(rv =~= with_leaves(l.generated, done)[g as int]);
        let ghost was = row_views(generated@);
        generated.push(row);
        assert(row_views(generated@) =~= was.push(rv));
        assert(with_leaves(l.generated, done).take(g + 1) =~= with_leaves(
            l.generated,
            done,
        ).take(g as int).push(rv));
        g += 1;
    }
    assert(with_leaves(l.generated, done).take(g as int) =~= with_leaves(l.generated, done));
    Ok(
        Lockfile {
            version: lockfile.version,
            suite: lockfile.suite,
            case: lockfile.case,
            generated,
        },
    )
}

// ---------------------------------------------------------------------
// The drift gate
// ---------------------------------------------------------------------

/// Do the rows agree, leaves aside?
pub open spec fn same_static_rows(a: Seq<RowView>, b: Seq<RowView>) -> bool {
    a.len() == b.len() && forall|i: int|
        0 <= i < a.len() ==> (#[trigger] a[i]).prefix == b[i].prefix && a[i].tags == b[i].tags
}

/// Do the leaves of the rows agree?
pub open spec fn same_leaves(a: Seq<RowView>, b: Seq<RowView>) -> bool {
    forall|i: int|
        0 <= i < a.len() && i < b.len() ==> (#[trigger] a[i]).cases == b[i].cases
}

/// Does a lockfile match the inventory? Leaves count where an enumeration
/// was given.
pub open spec fn matches_inventory(existing: LockView, now: LockView, with_leaves: bool) -> bool {
    &&& existing.case == now.case
    &&& same_static_rows(existing.generated, now.generated)
    &&& with_leaves ==> same_leaves(existing.generated, now.generated)
}

/// Does the lockfile pin leaves?
pub open spec fn pins_leaves(l: LockView) -> bool {
    exists|i: int| 0 <= i < l.generated.len() && (#[trigger] l.generated[i]).cases.len() > 0
}

/// What a check that found no drift says.
pub open spec fn check_lines(
    path: Seq<char>,
    existing: LockView,
    now: LockView,
    with_leaves: bool,
) -> Seq<Seq<char>> {
    let ok = "ok: "@ + decimal(now.case.len()) + " cases match "@ + path;
    if !with_leaves && pins_leaves(existing) {
        seq![
            "note: "@ + path
                + " pins generated leaves; static check only (pass --leaves for the full comparison)"@,
            ok,
        ]
    } else {
        seq![ok]
    }
}

/// The error of a check that found drift.
pub open spec fn drift_text(path: Seq<char>) -> Seq<char> {
    "lockfile drift: `"@ + path
        + "` does not match the suite's inventory (regenerate with `component-test lock` and review the diff)"@
}

fn same_cases(a: &[CaseEntry], b: &[CaseEntry]) -> (r: bool)
    ensures
        r == (entry_views(a@) == entry_views(b@)),
{
    if a.len() != b.len() {
        assert(entry_views(a@).len() != entry_views(b@).len());
        return false;
    }
    for i in 0..a.len()
        invariant
            a@.len() == b@.len(),
            forall|k: int| 0 <= k < i ==> (#[trigger] a@[k])@ == b@[k]@,
    {
        if !same_name(&a[i].name, &b[i].name) || !same_tags(&a[i].tags, &b[i].tags) {
            assert(entry_views(a@)[i as int] != entry_views(b@)[i as int]);
            return false;
        }
        assert(a@[i as int]@ =~= b@[i as int]@);
    }
    assert(entry_views(a@) =~= entry_views(b@));
    true
}

fn same_texts(a: &[String], b: &[String]) -> (r: bool)
    ensures
        r == (views(a@) == views(b@)),
{
    if a.len() != b.len() {
        assert(views(a@).len() != views(b@).len());
        return false;
    }
    for i in 0..a.len()
        invariant
            a@.len() == b@.len(),
            forall|k: int| 0 <= k < i ==> (#[trigger] a@[k])@ == b@[k]@,
    {
        if !same(a[i].as_str(), b[i].as_str()) {
            assert(views(a@)[i as int] != views(b@)[i as int]);
            return false;
        }
    }
    assert(views(a@) =~= views(b@));
    true
}

fn static_rows_agree(a: &[GeneratedEntry], b: &[GeneratedEntry]) -> (r: bool)
    ensures
        r == same_static_rows(row_views(a@), row_views(b@)),
{
    let ghost av = row_views(a@);
    let ghost bv = row_views(b@);
    if a.len() != b.len() {
        return false;
    }
    for i in 0..a.len()
        invariant
            a@.len() == b@.len(),
            av == row_views(a@),
            bv == row_views(b@),
            forall|k: int|
                0 <= k < i ==> (#[trigger] av[k]).prefix == bv[k].prefix && av[k].tags
                    == bv[k].tags,
    {
        assert(av[i as int] == a@[i as int]@ && bv[i as int] == b@[i as int]@);
        if !same(a[i].prefix.as_str(), b[i].prefix.as_str()) || !same_tags(&a[i].tags, &b[i].tags) {
            return false;
        }
    }
    true
}

fn leaves_agree(a: &[GeneratedEntry], b: &[GeneratedEntry]) -> (r: bool)
    ensures
        r == same_leaves(row_views(a@), row_views(b@)),
{
    let ghost av = row_views(a@);
    let ghost bv = row_views(b@);
    let mut i: usize = 0;
    while i < a.len() && i < b.len()
        invariant
            i <= a@.len(),
            i <= b@.len(),
            av == row_views(a@),
            bv == row_views(b@),
            forall|k: int| 0 <= k < i ==> (#[trigger] av[k]).cases == bv[k].cases,
        decreases a.len() - i,
    {
        assert(av[i as int] == a@[i as int]@ && bv[i as int] == b@[i as int]@);
        if !same_texts(&a[i].cases, &b[i].cases) {
            return false;
        }
        i += 1;
    }
    true
}

fn leaves_pinned(rows: &[GeneratedEntry]) -> (r: bool)
    ensures
        r == exists|i: int|
            0 <= i < rows@.len() && (#[trigger] row_views(rows@)[i]).cases.len() > 0,
{
    let ghost rv = row_views(rows@);
    for i in 0..rows.len()
        invariant
            rv == row_views(rows@),
            forall|k: int| 0 <= k < i ==> (#[trigger] rv[k]).cases.len() == 0,
    {
        assert(rv[i as int].cases.len() == rows@[i as int].cases@.len());
        if rows[i].cases.len() > 0 {
            return true;
        }
    }
    false
}

/// Check an existing lockfile against the inventory of today: names and
/// tags (the artifact's digest may differ), and leaves where an enumeration
/// was given. Gives what to say, or the drift.
pub fn check_lock(path: &str, existing: &Lockfile, now: &Lockfile, with_leaves: bool) -> (r: Result<
    Vec<String>,
    String,
>)
    ensures
        match r {
            Ok(said) => matches_inventory(existing@, now@, with_leaves) && views(said@)
                == check_lines(path@, existing@, now@, with_leaves),
            Err(e) => !matches_inventory(existing@, now@, with_leaves) && e@ == drift_text(path@),
        },
{
    if !same_cases(&existing.case, &now.case) || !static_rows_agree(
        &existing.generated,
        &now.generated,
    ) || (with_leaves && !leaves_agree(&existing.generated, &now.generated)) {
        let mut e = owned("lockfile drift: `");
        e.append(path);
        e.append(
            "` does not match the suite's inventory (regenerate with `component-test lock` and review the diff)",
        );
        return Err(e);
    }
    let mut said: Vec<String> = Vec::new();
    if !with_leaves && leaves_pinned(&existing.generated) {
        assert(pins_leaves(existing@));
        let mut note = owned("note: ");
        note.append(path);
        note.append(
            " pins generated leaves; static check only (pass --leaves for the full comparison)",
        );
        said.push(note);
    } else {
        assert(with_leaves || !pins_leaves(existing@));
    }
    let mut ok = owned("ok: ");
    ok.append(decimal_text(now.case.len() as u128).as_str());
    ok.append(" cases match ");
    ok.append(path);
    said.push(ok);
    assert(now@.case.len() == now.case@.len());
    assert(views(said@) =~= check_lines(path@, existing@, now@, with_leaves));
    Ok(said)
}

/// The lockfile of a suite artifact, leaves pinned where an enumeration is
/// given, or why there is none: the artifact, the enumeration, or a fault of
/// the lockfile itself.
pub open spec fn suite_lock(name: Seq<char>, wasm: Seq<u8>, leaves: Option<Seq<char>>) -> Result<
    LockView,
    Seq<char>,
> {
    let base = match found_inventory(wasm_payloads(wasm)) {
        Ok(Some(i)) => Ok(lock_of(name, hex(sha256_digest(wasm)), i)),
        Ok(None) => Err(no_section_text()),
        Err(e) => Err(e),
    };
    let whole = match base {
        Err(e) => Err(e),
        Ok(l) => match leaves {
            Some(text) => pinned_lock(l, text),
            None => Ok(l),
        },
    };
    match whole {
        Err(e) => Err(e),
        Ok(l) => match lock_fault(l) {
            Some(f) => Err(f),
            None => Ok(l),
        },
    }
}

/// The lockfile of a suite artifact, leaves pinned where an enumeration is
/// given.
pub fn lock(name: &str, wasm: &[u8], leaves: Option<&str>) -> (r: Result<Lockfile, String>)
    ensures
        match r {
            Ok(l) => suite_lock(name@, wasm@, opt_str(leaves)) == Ok::<LockView, Seq<char>>(l@),
            Err(e) => suite_lock(name@, wasm@, opt_str(leaves)) == Err::<LockView, Seq<char>>(e@),
        },
{
    let base = match lock_suite(name, wasm) {
        Ok(l) => l,
        Err(e) => return Err(e),
    };
    let whole = match leaves {
        Some(text) => match pin_leaves(base, text) {
            Ok(l) => l,
            Err(e) => return Err(e),
        },
        None => base,
    };
    match whole.validate() {
        Ok(_) => Ok(whole),
        Err(e) => Err(e),
    }
}

/// The drift gate: the existing lockfile has to be sound and to match the
/// inventory of today.
pub fn gate(path: &str, existing: &Lockfile, now: &Lockfile, with_leaves: bool) -> (r: Result<
    Vec<String>,
    String,
>)
    ensures
        match r {
            Ok(said) => lock_fault(existing@) is None && matches_inventory(
                existing@,
                now@,
                with_leaves,
            ) && views(said@) == check_lines(path@, existing@, now@, with_leaves),
            Err(e) => match lock_fault(existing@) {
                Some(f) => e@ == f,
                None => !matches_inventory(existing@, now@, with_leaves) && e@ == drift_text(path@),
            },
        },
{
    match existing.validate() {
        Ok(_) => check_lock(path, existing, now, with_leaves),
        Err(e) => Err(e),
    }
}

/// What to say after writing a lockfile.
pub fn written_line(path: &str, lockfile: &Lockfile) -> (r: String)
    ensures
        r@ == "wrote "@ + decimal(lockfile@.case.len()) + " cases to "@ + path@,
{
    let mut r = owned("wrote ");
    r.append(decimal_text(lockfile.case.len() as u128).as_str());
    r.append(" cases to ");
    r.append(path);
    assert(lockfile@.case.len() == lockfile.case@.len());
    r
}

// ---------------------------------------------------------------------
// Laws
// ---------------------------------------------------------------------

/// An inventory matches its own lockfile, with leaves and without.
pub proof fn law_lock_matches_itself(l: LockView, with_leaves: bool)
    ensures
        matches_inventory(l, l, with_leaves),
{
}

/// The digest of the artifact takes no part in the check.
pub proof fn law_digest_is_not_identity(
    a: LockView,
    b: LockView,
    sha256: Option<Seq<char>>,
    with_leaves: bool,
)
    ensures
        matches_inventory(LockView { artifact_sha256: sha256, ..a }, b, with_leaves)
            == matches_inventory(a, b, with_leaves),
{
}

proof fn lemma_first_bare(assigned: Seq<Seq<Seq<char>>>, i: int)
    requires
        0 <= i <= assigned.len(),
        first_bare(assigned, i) >= assigned.len(),
    ensures
        forall|k: int| i <= k < assigned.len() ==> (#[trigger] assigned[k]).len() > 0,
    decreases assigned.len() - i,
{
    if i < assigned.len() {
        lemma_first_bare(assigned, i + 1);
    }
}

proof fn lemma_leaves_len(l: LockView, assigned: Seq<Seq<Seq<char>>>, names: Seq<Seq<char>>, i: int)
    requires
        assigned.len() == l.generated.len(),
        leaves_from(l, assigned, names, i) is Ok,
    ensures
        leaves_from(l, assigned, names, i)->Ok_0.len() == l.generated.len(),
    decreases names.len() - i,
{
    if 0 <= i < names.len() {
        law_longest_prefix(l.generated, names[i], l.generated.len() as int);
        lemma_leaves_len(l, leaf_step(l, assigned, names[i])->Ok_0, names, i + 1);
    }
}

/// Pinning leaves none of the rows bare, and changes nothing but leaves.
pub proof fn law_pinned_rows_have_leaves(l: LockView, text: Seq<char>)
    requires
        pinned_lock(l, text) is Ok,
    ensures
        ({
            let p = pinned_lock(l, text)->Ok_0;
            &&& p.case == l.case
            &&& same_static_rows(p.generated, l.generated)
            &&& forall|i: int|
                0 <= i < p.generated.len() ==> (#[trigger] p.generated[i]).cases.len() > 0
        }),
{
    let names = enumerated(lines(text));
    let assigned = leaves_from(l, no_leaves(l), names, 0)->Ok_0;
    lemma_leaves_len(l, no_leaves(l), names, 0);
    lemma_first_bare(assigned, 0);
}

/// Pinning leaves does not count as drift where leaves are not compared.
pub proof fn law_pinning_is_no_static_drift(l: LockView, text: Seq<char>)
    requires
        pinned_lock(l, text) is Ok,
    ensures
        matches_inventory(pinned_lock(l, text)->Ok_0, l, false),
{
    law_pinned_rows_have_leaves(l, text);
}

proof fn lemma_enumerated(ls: Seq<Seq<char>>)
    ensures
        enumerated(ls) == ls.map_values(|x: Seq<char>| trim(x)).filter(|x: Seq<char>| x.len() > 0),
    decreases ls.len(),
{
    reveal(Seq::filter);
    let all = ls.map_values(|x: Seq<char>| trim(x));
    if ls.len() > 0 {
        lemma_enumerated(ls.drop_last());
        assert(all.drop_last() =~= ls.drop_last().map_values(|x: Seq<char>| trim(x)));
        assert(all.last() == trim(ls.last()));
    }
    assert(enumerated(ls) =~= all.filter(|x: Seq<char>| x.len() > 0));
}

/// The names that an enumeration gives: its lines, trimmed, those that are not
/// empty.
pub open spec fn names_in(text: Seq<char>) -> Seq<Seq<char>> {
    lines(text).map_values(|x: Seq<char>| trim(x)).filter(|x: Seq<char>| x.len() > 0)
}

/// Is a name a leaf of the `r`-th row: no case of the lockfile, and that row
/// the closest one that it hangs from?
pub open spec fn is_leaf_of(l: LockView, r: int, name: Seq<char>) -> bool {
    !names_case(l.case, name) && closest_row(l.generated, name, r)
}

/// Is one of the names a leaf of the `r`-th row?
pub open spec fn gets_a_leaf(l: LockView, r: int, names: Seq<Seq<char>>) -> bool {
    exists|k: int| 0 <= k < names.len() && is_leaf_of(l, r, #[trigger] names[k])
}

/// Of some names, the leaves of the `r`-th row, in order, without the prefix
/// and its slash.
pub open spec fn leaves_among(l: LockView, r: int, names: Seq<Seq<char>>) -> Seq<Seq<char>> {
    names.filter(|n: Seq<char>| is_leaf_of(l, r, n)).map_values(
        |n: Seq<char>| n.skip(l.generated[r].prefix.len() as int + 1),
    )
}

proof fn lemma_leaves_among(l: LockView, r: int, x: Seq<char>, rest: Seq<Seq<char>>)
    ensures
        leaves_among(l, r, seq![x] + rest) == (if is_leaf_of(l, r, x) {
            seq![x.skip(l.generated[r].prefix.len() as int + 1)]
        } else {
            Seq::empty()
        }) + leaves_among(l, r, rest),
{
    rest.lemma_filter_prepend(x, |n: Seq<char>| is_leaf_of(l, r, n));
    assert(leaves_among(l, r, seq![x] + rest) =~= (if is_leaf_of(l, r, x) {
        seq![x.skip(l.generated[r].prefix.len() as int + 1)]
    } else {
        Seq::empty()
    }) + leaves_among(l, r, rest));
}

proof fn lemma_leaves_from(l: LockView, assigned: Seq<Seq<Seq<char>>>, names: Seq<Seq<char>>, i: int)
    requires
        rows_apart(l.generated),
        0 <= i <= names.len(),
        assigned.len() == l.generated.len(),
    ensures
        leaves_from(l, assigned, names, i) is Ok <==> forall|k: int|
            i <= k < names.len() ==> names_case(l.case, #[trigger] names[k]) || row_of(
                l.generated,
                names[k],
            ) >= 0,
        leaves_from(l, assigned, names, i) is Ok ==> {
            let done = leaves_from(l, assigned, names, i)->Ok_0;
            &&& done.len() == l.generated.len()
            &&& forall|r: int|
                0 <= r < done.len() ==> #[trigger] done[r] == assigned[r] + leaves_among(
                    l,
                    r,
                    names.skip(i),
                )
        },
    decreases names.len() - i,
{
    if i < names.len() {
        let name = names[i];
        lemma_names_case(l.case, name);
        law_longest_prefix(l.generated, name, l.generated.len() as int);
        law_name_belongs_to_closest_row(l.generated, name);
        assert(names.skip(i) =~= seq![name] + names.skip(i + 1));
        match leaf_step(l, assigned, name) {
            Ok(next) => {
                lemma_leaves_from(l, next, names, i + 1);
                if leaves_from(l, assigned, names, i) is Ok {
                    let done = leaves_from(l, assigned, names, i)->Ok_0;
                    assert forall|r: int| 0 <= r < done.len() implies #[trigger] done[r]
                        == assigned[r] + leaves_among(l, r, names.skip(i)) by {
                        lemma_leaves_among(l, r, name, names.skip(i + 1));
                        let row = row_of(l.generated, name);
                        assert(is_leaf_of(l, r, name) <==> !names_case(l.case, name) && r == row);
                        assert(done[r] =~= assigned[r] + leaves_among(l, r, names.skip(i)));
                    }
                }
            },
            Err(_) => {},
        }
    } else {
        if leaves_from(l, assigned, names, i) is Ok {
            assert forall|r: int| 0 <= r < assigned.len() implies #[trigger] assigned[r]
                == assigned[r] + leaves_among(l, r, names.skip(i)) by {
                reveal(Seq::filter);
                assert(names.skip(i) =~= Seq::<Seq<char>>::empty());
                assert(leaves_among(l, r, names.skip(i)) =~= Seq::<Seq<char>>::empty());
                assert(assigned[r] =~= assigned[r] + leaves_among(l, r, names.skip(i)));
            }
        }
    }
}

proof fn lemma_some_bare(assigned: Seq<Seq<Seq<char>>>, i: int)
    requires
        0 <= i <= assigned.len(),
    ensures
        i <= first_bare(assigned, i) <= assigned.len(),
        first_bare(assigned, i) < assigned.len() <==> exists|k: int|
            i <= k < assigned.len() && (#[trigger] assigned[k]).len() == 0,
    decreases assigned.len() - i,
{
    if i < assigned.len() && assigned[i].len() > 0 {
        lemma_some_bare(assigned, i + 1);
    }
}

/// An enumeration pins leaves exactly where each of its names is a case or
/// hangs from a row, and each row gets one at least. A row then has for leaves
/// the enumerated names of which it is the closest row, in order and without
/// its prefix, but no case. Nothing else changes.
pub proof fn law_pinned_leaves(l: LockView, text: Seq<char>)
    requires
        rows_apart(l.generated),
    ensures
        pinned_lock(l, text) is Ok <==> {
            &&& forall|k: int|
                0 <= k < names_in(text).len() ==> names_case(l.case, #[trigger] names_in(text)[k])
                    || exists|r: int|
                    0 <= r < l.generated.len() && hangs_from(
                        names_in(text)[k],
                        (#[trigger] l.generated[r]).prefix,
                    )
            &&& forall|r: int|
                0 <= r < l.generated.len() ==> #[trigger] gets_a_leaf(l, r, names_in(text))
        },
        pinned_lock(l, text) is Ok ==> {
            let p = pinned_lock(l, text)->Ok_0;
            &&& p.generated.len() == l.generated.len()
            &&& forall|r: int|
                0 <= r < l.generated.len() ==> (#[trigger] p.generated[r]).cases == leaves_among(
                    l,
                    r,
                    names_in(text),
                ) && p.generated[r].prefix == l.generated[r].prefix && p.generated[r].tags
                    == l.generated[r].tags
            &&& p == LockView { generated: p.generated, ..l }
        },
{
    lemma_enumerated(lines(text));
    let names = names_in(text);
    assert(names == enumerated(lines(text)));
    lemma_leaves_from(l, no_leaves(l), names, 0);
    assert(names.skip(0) =~= names);
    let placed = leaves_from(l, no_leaves(l), names, 0);
    assert forall|k: int| 0 <= k < names.len() implies (row_of(l.generated, #[trigger] names[k]) >= 0
        <==> exists|r: int|
        0 <= r < l.generated.len() && hangs_from(names[k], (#[trigger] l.generated[r]).prefix)) by {
        law_name_belongs_to_closest_row(l.generated, names[k]);
    }
    if placed is Ok {
        let done = placed->Ok_0;
        lemma_some_bare(done, 0);
        assert forall|r: int| 0 <= r < done.len() implies #[trigger] done[r] == leaves_among(
            l,
            r,
            names,
        ) by {
            assert(done[r] == no_leaves(l)[r] + leaves_among(l, r, names));
            assert(done[r] =~= leaves_among(l, r, names));
        }
        assert forall|r: int| 0 <= r < done.len() implies ((#[trigger] done[r]).len() > 0
            <==> gets_a_leaf(l, r, names)) by {
            let pred = |n: Seq<char>| is_leaf_of(l, r, n);
            let kept = names.filter(pred);
            assert(done[r].len() == kept.len());
            if gets_a_leaf(l, r, names) {
                let k = choose|k: int| 0 <= k < names.len() && is_leaf_of(l, r, #[trigger] names[k]);
                names.lemma_filter_contains(pred, k);
            }
            if kept.len() > 0 {
                names.lemma_filter_pred(pred, 0);
                names.lemma_filter_contains_rev(pred, kept[0]);
                let k = choose|k: int| 0 <= k < names.len() && names[k] == kept[0];
                assert(is_leaf_of(l, r, names[k]));
            }
        }
        if pinned_lock(l, text) is Ok {
            let p = pinned_lock(l, text)->Ok_0;
            assert forall|r: int| 0 <= r < l.generated.len() implies #[trigger] gets_a_leaf(
                l,
                r,
                names,
            ) by {
                assert(done[r].len() > 0);
            }
        } else {
            let b = choose|k: int| 0 <= k < done.len() && (#[trigger] done[k]).len() == 0;
            assert(!gets_a_leaf(l, b, names));
        }
    }
}

/// A run that reports what was enumerated covers the lockfile that the
/// enumeration pinned: where the names are proper and different, and every
/// case of the lockfile is among them.
pub proof fn law_enumeration_covers_its_lock(l: LockView, text: Seq<char>)
    requires
        rows_apart(l.generated),
        pinned_lock(l, text) is Ok,
        names_in(text).no_duplicates(),
        forall|k: int|
            0 <= k < names_in(text).len() ==> is_case_name(#[trigger] names_in(text)[k]),
        forall|i: int|
            0 <= i < l.case.len() ==> names_in(text).contains((#[trigger] l.case[i]).name.text()),
    ensures
        coverage_fault(pinned_lock(l, text)->Ok_0, names_in(text)) is None,
{
    let names = names_in(text);
    let p = pinned_lock(l, text)->Ok_0;
    law_pinned_leaves(l, text);
    assert forall|i: int, j: int| 0 <= i < j < p.generated.len() implies (
    #[trigger] p.generated[i]).prefix != (#[trigger] p.generated[j]).prefix by {
        assert(l.generated[i].prefix != l.generated[j].prefix);
    }
    assert forall|n: Seq<char>, r: int| #[trigger]
        closest_row(l.generated, n, r) <==> closest_row(p.generated, n, r) by {
        if closest_row(l.generated, n, r) {
            assert forall|i: int|
                0 <= i < p.generated.len() && i != r && hangs_from(
                    n,
                    (#[trigger] p.generated[i]).prefix,
                ) implies p.generated[i].prefix.len() < p.generated[r].prefix.len() by {
                assert(hangs_from(n, l.generated[i].prefix));
            }
        }
        if closest_row(p.generated, n, r) {
            assert forall|i: int|
                0 <= i < l.generated.len() && i != r && hangs_from(
                    n,
                    (#[trigger] l.generated[i]).prefix,
                ) implies l.generated[i].prefix.len() < l.generated[r].prefix.len() by {
                assert(hangs_from(n, p.generated[i].prefix));
            }
        }
    }
    assert forall|k: int| 0 <= k < names.len() implies may_be_reported(p, #[trigger] names[k]) by {
        let n = names[k];
        if !names_case(l.case, n) {
            law_name_belongs_to_closest_row(l.generated, n);
            let r = row_of(l.generated, n);
            law_longest_prefix(l.generated, n, l.generated.len() as int);
            assert(closest_row(p.generated, n, r));
            let pred = |m: Seq<char>| is_leaf_of(l, r, m);
            names.lemma_filter_contains(pred, k);
            let kept = names.filter(pred);
            let x = choose|x: int| 0 <= x < kept.len() && kept[x] == n;
            assert(p.generated[r].cases[x] == n.skip(p.generated[r].prefix.len() as int + 1));
        }
    }
    assert forall|name: Seq<char>| #[trigger] must_be_reported(p, name) implies names.contains(
        name,
    ) by {
        if !names_case(p.case, name) {
            let (r, k) = choose|r: int, k: int|
                0 <= r < p.generated.len() && 0 <= k < p.generated[r].cases.len() && name
                    == p.generated[r].prefix.push('/') + #[trigger] p.generated[r].cases[k];
            let pred = |m: Seq<char>| is_leaf_of(l, r, m);
            let kept = names.filter(pred);
            names.lemma_filter_pred(pred, k);
            names.lemma_filter_contains_rev(pred, kept[k]);
            let full = kept[k];
            let prefix = l.generated[r].prefix;
            assert(is_leaf_of(l, r, full));
            assert(p.generated[r].cases == leaves_among(l, r, names));
            assert(p.generated[r].cases[k] == full.skip(prefix.len() as int + 1));
            assert(full =~= prefix.push('/') + full.skip(prefix.len() as int + 1)) by {
                assert forall|x: int| 0 <= x < prefix.len() implies full[x] == prefix[x] by {
                    assert(full.take(prefix.len() as int)[x] == prefix[x]);
                }
            }
            assert(name == full);
        } else {
            let i = choose|i: int|
                0 <= i < p.case.len() && (#[trigger] p.case[i]).name.text() == name;
            assert(names.contains(l.case[i].name.text()));
        }
    }
    law_coverage_fault(p, names);
}

/// The lockfile of an artifact is its inventory, cases and rows as they are,
/// with the leaves that the enumeration pins, and it is sound.
pub proof fn law_lock_is_the_inventory(
    name: Seq<char>,
    wasm: Seq<u8>,
    leaves: Option<Seq<char>>,
)
    requires
        suite_lock(name, wasm, leaves) is Ok,
    ensures
        ({
            let l = suite_lock(name, wasm, leaves)->Ok_0;
            let found = found_inventory(wasm_payloads(wasm));
            &&& found is Ok && found->Ok_0 is Some
            &&& lock_is_sound(l)
            &&& l.suite_name == name
            &&& l.artifact_sha256 == Some(hex(sha256_digest(wasm)))
            &&& l.case == found->Ok_0->0.cases
            &&& leaves is None ==> l.generated == found->Ok_0->0.generated
            &&& leaves is Some ==> {
                let base = LockView { generated: found->Ok_0->0.generated, ..l };
                &&& l.generated.len() == base.generated.len()
                &&& forall|r: int|
                    0 <= r < l.generated.len() ==> (#[trigger] l.generated[r]).prefix
                        == base.generated[r].prefix && l.generated[r].tags
                        == base.generated[r].tags && l.generated[r].cases == leaves_among(
                        base,
                        r,
                        names_in(leaves->0),
                    )
            }
        }),
{
    let l = suite_lock(name, wasm, leaves)->Ok_0;
    law_lock_fault(l);
    let i = found_inventory(wasm_payloads(wasm))->Ok_0->0;
    let base = lock_of(name, hex(sha256_digest(wasm)), i);
    match leaves {
        Some(text) => {
            law_pinned_rows_have_leaves(base, text);
            assert forall|a: int, b: int| 0 <= a < b < base.generated.len() implies (
            #[trigger] base.generated[a]).prefix != (#[trigger] base.generated[b]).prefix by {
                assert(l.generated[a].prefix != l.generated[b].prefix);
            }
            law_pinned_leaves(base, text);
            let again = LockView { generated: i.generated, ..l };
            assert(again == base);
        },
        None => {},
    }
}

/// A lockfile is up to date exactly where it is sound and its cases,
/// and the prefixes and marks of its rows, are those of the inventory of
/// today, and their leaves too where those are compared.
pub proof fn law_lock_is_current(existing: LockView, now: LockView, with_leaves: bool)
    ensures
        (lock_fault(existing) is None && matches_inventory(existing, now, with_leaves)) <==> {
            &&& lock_is_sound(existing)
            &&& existing.case.len() == now.case.len()
            &&& forall|i: int|
                0 <= i < now.case.len() ==> (#[trigger] existing.case[i]).name == now.case[i].name
                    && existing.case[i].tags == now.case[i].tags
            &&& existing.generated.len() == now.generated.len()
            &&& forall|i: int|
                0 <= i < now.generated.len() ==> (#[trigger] existing.generated[i]).prefix
                    == now.generated[i].prefix && existing.generated[i].tags
                    == now.generated[i].tags && (with_leaves ==> existing.generated[i].cases
                    == now.generated[i].cases)
        },
{
    law_lock_fault(existing);
    if existing.case.len() == now.case.len() && forall|i: int|
        0 <= i < now.case.len() ==> (#[trigger] existing.case[i]).name == now.case[i].name
            && existing.case[i].tags == now.case[i].tags {
        assert forall|i: int| 0 <= i < now.case.len() implies existing.case[i] == now.case[i] by {
            assert(existing.case[i].name == now.case[i].name);
        }
        assert(existing.case =~= now.case);
    }
}

} // verus!
