//! Which cases of a suite run on a target, and on which worker.

use vstd::prelude::*;

use crate::debug::{debug_texts, debug_texts_text};
use crate::feature::{
    applies_to, excluding, excluding_from, law_applies_or_excluded, mark_text, MarkView,
};
use crate::inventory::{Inventory, InventoryView};
use crate::lockfile::{
    absent, cases_apart, closest_row, entry_names, find_row, hangs_from, law_longest_prefix,
    law_name_belongs_to_closest_row, lemma_absent_none, lemma_contains_sum, lemma_names_case,
    names_case, records, row_of, rows_apart,
};
use crate::order::{law_sorted, sort_texts, texts_in_order};
use crate::tags::{
    excluding_tag, law_unpaired, tag_views, unpaired, unpaired_positive_features, Tag,
};
use crate::text::{among, contains_text, has_text, lemma_texts_of_strings, owned, same, views};

verus! {

// ---------------------------------------------------------------------
// The marks of a case
// ---------------------------------------------------------------------

/// The last of the first `n` names that is `name`, or -1.
pub open spec fn last_named(names: Seq<Seq<char>>, name: Seq<char>, n: int) -> int
    decreases n,
{
    if n <= 0 {
        -1
    } else if names[n - 1] == name {
        n - 1
    } else {
        last_named(names, name, n - 1)
    }
}

/// The marks that the inventory records for a name: those of its case, or
/// those of the row with the longest prefix that it stands under.
pub open spec fn recorded_marks(i: InventoryView, name: Seq<char>) -> Option<Seq<MarkView>> {
    let exact = last_named(entry_names(i.cases), name, i.cases.len() as int);
    let row = row_of(i.generated, name);
    if exact >= 0 {
        Some(i.cases[exact].tags)
    } else if row >= 0 {
        Some(i.generated[row].tags)
    } else {
        None
    }
}

/// An inventory and the names of its cases.
struct Recorded<'a> {
    inventory: &'a Inventory,
    names: Vec<String>,
}

impl<'a> Recorded<'a> {
    spec fn wf(&self) -> bool {
        views(self.names@) == entry_names(self.inventory@.cases)
    }

    fn new(inventory: &'a Inventory) -> (r: Self)
        ensures
            r.wf(),
            r.inventory@ == inventory@,
    {
        let mut names: Vec<String> = Vec::new();
        for i in 0..inventory.cases.len()
            invariant
                names@.len() == i,
                forall|k: int|
                    0 <= k < i ==> (#[trigger] names@[k])@ == inventory.cases@[k]@.name.text(),
        {
            names.push(inventory.cases[i].name.as_str());
        }
        assert(views(names@) =~= entry_names(inventory@.cases));
        Recorded { inventory, names }
    }

    fn tags(&self, name: &str) -> (r: Option<&'a [Tag]>)
        requires
            self.wf(),
        ensures
            match r {
                Some(t) => recorded_marks(self.inventory@, name@) == Some(tag_views(t@)),
                None => recorded_marks(self.inventory@, name@) is None,
            },
    {
        let ghost ns = views(self.names@);
        let ghost inv = self.inventory@;
        let mut n: usize = self.names.len();
        assert(ns.len() == inv.cases.len());
        while n > 0
            invariant
                n <= self.names@.len(),
                ns == views(self.names@),
                inv == self.inventory@,
                ns == entry_names(inv.cases),
                ns.len() == inv.cases.len(),
                inv.cases.len() == self.inventory.cases@.len(),
                last_named(ns, name@, ns.len() as int) == last_named(ns, name@, n as int),
            decreases n,
        {
            assert(ns[n - 1] == self.names@[n - 1]@);
            if same(self.names[n - 1].as_str(), name) {
                assert(inv.cases[n - 1] == self.inventory.cases@[n - 1]@);
                return Some(self.inventory.cases[n - 1].tags.as_slice());
            }
            n -= 1;
        }
        match find_row(&self.inventory.generated, name) {
            Some(i) => {
                assert(inv.generated[i as int] == self.inventory.generated@[i as int]@);
                Some(self.inventory.generated[i].tags.as_slice())
            },
            None => None,
        }
    }
}

// ---------------------------------------------------------------------
// Drift
// ---------------------------------------------------------------------

/// The enumerated names that the inventory does not record.
pub open spec fn unrecorded(i: InventoryView, names: Seq<Seq<char>>) -> Seq<Seq<char>>
    decreases names.len(),
{
    if names.len() == 0 {
        Seq::<Seq<char>>::empty()
    } else {
        let init = unrecorded(i, names.drop_last());
        if recorded_marks(i, names.last()) is None { init.push(names.last()) } else { init }
    }
}

/// The marks of the first `n` enumerated names, one name after the other.
pub open spec fn materialized(i: InventoryView, names: Seq<Seq<char>>, n: int) -> Seq<MarkView>
    decreases n,
{
    if n <= 0 {
        Seq::<MarkView>::empty()
    } else {
        let init = materialized(i, names, n - 1);
        match recorded_marks(i, names[n - 1]) {
            Some(ms) => init + ms,
            None => init,
        }
    }
}

/// What is wrong between an inventory and the enumerated names: a case on
/// one side only, or a feature whose declining twin never materialized.
pub open spec fn drift_fault(i: InventoryView, names: Seq<Seq<char>>) -> Option<Seq<char>> {
    let missing = texts_in_order(absent(entry_names(i.cases), names));
    let extra = texts_in_order(unrecorded(i, names));
    let lone = unpaired(materialized(i, names, names.len() as int));
    if missing.len() > 0 || extra.len() > 0 {
        Some(
            "inventory drift: tags section and all() disagree (section-only: "@ + debug_texts(
                missing,
            ) + "; all()-only: "@ + debug_texts(extra) + ")"@,
        )
    } else if lone.len() > 0 {
        Some(
            "decline-pair check: feature(s) "@ + debug_texts(lone)
                + " have materialized positively-tagged cases but no materialized `!feature` case (a zero-row generator cannot satisfy the lint)"@,
        )
    } else {
        None
    }
}

fn absent_names(wanted: &[String], names: &[String]) -> (r: Vec<String>)
    ensures
        views(r@) == absent(views(wanted@), views(names@)),
{
    let ghost ws = views(wanted@);
    let ghost ns = views(names@);
    let mut r: Vec<String> = Vec::new();
    let mut i: usize = 0;
    assert(views(r@) =~= absent(ws.take(0), ns));
    while i < wanted.len()
        invariant
            i <= wanted@.len(),
            ws == views(wanted@),
            ns == views(names@),
            views(r@) == absent(ws.take(i as int), ns),
        decreases wanted.len() - i,
    {
        assert(ws.take(i + 1).drop_last() =~= ws.take(i as int));
        assert(ws.take(i + 1).last() == wanted@[i as int]@);
        if !among(names, wanted[i].as_str()) {
            let ghost was = views(r@);
            r.push(wanted[i].clone());
            assert(views(r@) =~= was.push(ws[i as int]));
        }
        i += 1;
    }
    assert(ws.take(i as int) =~= ws);
    r
}

fn unrecorded_names(recorded: &Recorded, names: &[String]) -> (r: Vec<String>)
    requires
        recorded.wf(),
    ensures
        views(r@) == unrecorded(recorded.inventory@, views(names@)),
{
    let ghost inv = recorded.inventory@;
    let ghost ns = views(names@);
    let mut r: Vec<String> = Vec::new();
    let mut i: usize = 0;
    assert(views(r@) =~= unrecorded(inv, ns.take(0)));
    while i < names.len()
        invariant
            i <= names@.len(),
            recorded.wf(),
            inv == recorded.inventory@,
            ns == views(names@),
            views(r@) == unrecorded(inv, ns.take(i as int)),
        decreases names.len() - i,
    {
        assert(ns.take(i + 1).drop_last() =~= ns.take(i as int));
        assert(ns.take(i + 1).last() == names@[i as int]@);
        if recorded.tags(names[i].as_str()).is_none() {
            let ghost was = views(r@);
            r.push(names[i].clone());
            assert(views(r@) =~= was.push(ns[i as int]));
        }
        i += 1;
    }
    assert(ns.take(i as int) =~= ns);
    r
}

fn push_tags(out: &mut Vec<Tag>, tags: &[Tag])
    ensures
        tag_views(final(out)@) == tag_views(old(out)@) + tag_views(tags@),
{
    let ghost start = tag_views(out@);
    let ghost ms = tag_views(tags@);
    assert(start + ms.take(0) =~= start);
    let mut i: usize = 0;
    while i < tags.len()
        invariant
            i <= tags@.len(),
            ms == tag_views(tags@),
            tag_views(out@) == start + ms.take(i as int),
        decreases tags.len() - i,
    {
        let tag = tags[i].clone();
        let ghost was = tag_views(out@);
        out.push(tag);
        assert(tag_views(out@) =~= was.push(ms[i as int]));
        assert(start + ms.take(i + 1) =~= (start + ms.take(i as int)).push(ms[i as int]));
        i += 1;
    }
    assert(ms.take(i as int) =~= ms);
}

fn materialized_tags(recorded: &Recorded, names: &[String]) -> (r: Vec<Tag>)
    requires
        recorded.wf(),
    ensures
        tag_views(r@) == materialized(
            recorded.inventory@,
            views(names@),
            names@.len() as int,
        ),
{
    let ghost inv = recorded.inventory@;
    let ghost ns = views(names@);
    let mut r: Vec<Tag> = Vec::new();
    let mut i: usize = 0;
    assert(tag_views(r@) =~= materialized(inv, ns, 0));
    while i < names.len()
        invariant
            i <= names@.len(),
            recorded.wf(),
            inv == recorded.inventory@,
            ns == views(names@),
            tag_views(r@) == materialized(inv, ns, i as int),
        decreases names.len() - i,
    {
        assert(ns[i as int] == names@[i as int]@);
        match recorded.tags(names[i].as_str()) {
            Some(tags) => push_tags(&mut r, tags),
            None => {},
        }
        i += 1;
    }
    r
}

fn drift(recorded: &Recorded, names: &[String]) -> (r: Option<String>)
    requires
        recorded.wf(),
    ensures
        match r {
            Some(e) => drift_fault(recorded.inventory@, views(names@)) == Some(e@),
            None => drift_fault(recorded.inventory@, views(names@)) is None,
        },
{
    let missing = sort_texts(&absent_names(&recorded.names, names));
    let extra = sort_texts(&unrecorded_names(recorded, names));
    assert(views(missing@).len() == missing@.len());
    assert(views(extra@).len() == extra@.len());
    if missing.len() > 0 || extra.len() > 0 {
        let mut e = owned("inventory drift: tags section and all() disagree (section-only: ");
        e.append(debug_texts_text(&missing).as_str());
        e.append("; all()-only: ");
        e.append(debug_texts_text(&extra).as_str());
        e.append(")");
        return Some(e);
    }
    let lone = unpaired_positive_features(&materialized_tags(recorded, names));
    assert(views(lone@).len() == lone@.len());
    if lone.len() > 0 {
        let mut e = owned("decline-pair check: feature(s) ");
        e.append(debug_texts_text(&lone).as_str());
        e.append(
            " have materialized positively-tagged cases but no materialized `!feature` case (a zero-row generator cannot satisfy the lint)",
        );
        return Some(e);
    }
    None
}

// ---------------------------------------------------------------------
// The plan
// ---------------------------------------------------------------------

/// One entry of a plan: a case, and the mark that excludes it if one does.
#[derive(Debug, PartialEq, Eq)]
pub struct Planned {
    /// Where the enumeration has the case.
    pub index: usize,
    pub name: String,
    /// The mark that keeps the case from the target; it runs without one.
    pub excluded: Option<String>,
}

/// A [`Planned`] over texts.
#[verifier::ext_equal]
pub struct PlanView {
    pub index: int,
    pub name: Seq<char>,
    pub excluded: Option<Seq<char>>,
}

impl View for Planned {
    type V = PlanView;

    open spec fn view(&self) -> PlanView {
        PlanView {
            index: self.index as int,
            name: self.name@,
            excluded: match self.excluded {
                Some(m) => Some(m@),
                None => None,
            },
        }
    }
}

/// The views of a plan.
pub open spec fn plan_views(v: Seq<Planned>) -> Seq<PlanView> {
    Seq::new(v.len(), |i: int| v[i]@)
}

/// Is the case selected? Without a filter all are.
pub open spec fn is_selected(only: Option<Seq<char>>, name: Seq<char>) -> bool {
    match only {
        Some(o) => contains_text(name, o),
        None => true,
    }
}

/// The mark that keeps a case from a target that lacks `missing`, if one
/// does. Without an inventory nothing is kept from it.
pub open spec fn exclusion(i: Option<InventoryView>, name: Seq<char>, missing: Seq<Seq<char>>) -> Option<
    Seq<char>,
> {
    match i {
        None => None,
        Some(i) => match recorded_marks(i, name) {
            None => None,
            Some(ms) => match excluding(ms, missing) {
                None => None,
                Some(m) => Some(mark_text(m)),
            },
        },
    }
}

/// The plan for the first `n` names: the selected ones, in census order.
pub open spec fn planned(
    i: Option<InventoryView>,
    names: Seq<Seq<char>>,
    missing: Seq<Seq<char>>,
    only: Option<Seq<char>>,
    n: int,
) -> Seq<PlanView>
    decreases n,
{
    if n <= 0 {
        Seq::<PlanView>::empty()
    } else {
        let init = planned(i, names, missing, only, n - 1);
        let name = names[n - 1];
        if is_selected(only, name) {
            init.push(PlanView { index: n - 1, name, excluded: exclusion(i, name, missing) })
        } else {
            init
        }
    }
}

/// The plan of a run, or why there is none: nothing enumerated, drift, or
/// nothing selected.
pub open spec fn run_plan(
    i: Option<InventoryView>,
    names: Seq<Seq<char>>,
    missing: Seq<Seq<char>>,
    only: Option<Seq<char>>,
) -> Result<Seq<PlanView>, Seq<char>> {
    let plan = planned(i, names, missing, only, names.len() as int);
    let drifted = match i {
        Some(i) => drift_fault(i, names),
        None => None,
    };
    if names.len() == 0 {
        Err("suite enumerated zero cases (empty selection is a run error)"@)
    } else if drifted is Some {
        Err(drifted->0)
    } else if plan.len() == 0 {
        Err(
            "--only `"@ + (match only {
                Some(o) => o,
                None => Seq::empty(),
            }) + "` matches no cases (empty selection is a run error)"@,
        )
    } else {
        Ok(plan)
    }
}

/// The view of an optional inventory.
pub open spec fn opt_inventory(i: Option<&Inventory>) -> Option<InventoryView> {
    match i {
        Some(i) => Some(i@),
        None => None,
    }
}

/// The view of an optional text.
pub open spec fn opt_str(s: Option<&str>) -> Option<Seq<char>> {
    match s {
        Some(s) => Some(s@),
        None => None,
    }
}

fn excluding_text(recorded: &Option<Recorded>, name: &str, missing: &[String]) -> (r: Option<String>)
    requires
        recorded is Some ==> recorded->0.wf(),
    ensures
        (match r {
            Some(m) => Some(m@),
            None => None,
        }) == exclusion(
            match recorded {
                Some(r) => Some(r.inventory@),
                None => None,
            },
            name@,
            views(missing@),
        ),
{
    proof {
        lemma_texts_of_strings(missing@);
    }
    match recorded {
        None => None,
        Some(r) => match r.tags(name) {
            None => None,
            Some(tags) => match excluding_tag(tags, missing) {
                None => None,
                Some(m) => Some(m.to_string()),
            },
        },
    }
}

/// The plan of a run: every selected case in census order, each to be run
/// or kept from the target by a mark. An empty selection is an error, never
/// a vacuous success, and so is drift between inventory and enumeration.
pub fn plan_cases(
    inventory: Option<&Inventory>,
    names: &[String],
    missing: &[String],
    only: Option<&str>,
) -> (r: Result<Vec<Planned>, String>)
    ensures
        match r {
            Ok(plan) => run_plan(
                opt_inventory(inventory),
                views(names@),
                views(missing@),
                opt_str(only),
            ) == Ok::<Seq<PlanView>, Seq<char>>(plan_views(plan@)),
            Err(e) => run_plan(
                opt_inventory(inventory),
                views(names@),
                views(missing@),
                opt_str(only),
            ) == Err::<Seq<PlanView>, Seq<char>>(e@),
        },
{
    let ghost i = opt_inventory(inventory);
    let ghost ns = views(names@);
    let ghost ms = views(missing@);
    let ghost o = opt_str(only);
    if names.len() == 0 {
        return Err(owned("suite enumerated zero cases (empty selection is a run error)"));
    }
    let recorded: Option<Recorded> = match inventory {
        Some(inv) => Some(Recorded::new(inv)),
        None => None,
    };
    match &recorded {
        Some(r) => match drift(r, names) {
            Some(e) => return Err(e),
            None => {},
        },
        None => {},
    }
    let mut plan: Vec<Planned> = Vec::new();
    let mut n: usize = 0;
    assert(plan_views(plan@) =~= planned(i, ns, ms, o, 0));
    while n < names.len()
        invariant
            n <= names@.len(),
            ns == views(names@),
            ms == views(missing@),
            o == opt_str(only),
            recorded is Some ==> recorded->0.wf(),
            i == match recorded {
                Some(r) => Some(r.inventory@),
                None => None,
            },
            plan_views(plan@) == planned(i, ns, ms, o, n as int),
        decreases names.len() - n,
    {
        let name = names[n].as_str();
        assert(ns[n as int] == name@);
        let selected = match only {
            Some(o) => has_text(name, o),
            None => true,
        };
        if selected {
            let entry = Planned {
                index: n,
                name: owned(name),
                excluded: excluding_text(&recorded, name, missing),
            };
            let ghost was = plan_views(plan@);
            let ghost ev = entry@;
            plan.push(entry);
            assert(plan_views(plan@) =~= was.push(ev));
        }
        n += 1;
    }
    assert(plan_views(plan@).len() == plan@.len());
    if plan.len() == 0 {
        let mut e = owned("--only `");
        match only {
            Some(o) => e.append(o),
            None => {},
        }
        e.append("` matches no cases (empty selection is a run error)");
        return Err(e);
    }
    Ok(plan)
}

/// Refuse to declare features missing where nothing says which cases they
/// are about.
pub fn check_missing(has_inventory: bool, missing: &[String]) -> (r: Result<(), String>)
    ensures
        match r {
            Ok(_) => has_inventory || missing@.len() == 0,
            Err(e) => !has_inventory && missing@.len() > 0 && e@
                == "--missing requires a tags inventory, but the suite artifact has no `component-test:tags@0.1` section (suite not built with the SDK, or sections stripped by composition)"@,
        },
{
    if !has_inventory && missing.len() > 0 {
        return Err(
            owned(
                "--missing requires a tags inventory, but the suite artifact has no `component-test:tags@0.1` section (suite not built with the SDK, or sections stripped by composition)",
            ),
        );
    }
    Ok(())
}

// ---------------------------------------------------------------------
// Workers
// ---------------------------------------------------------------------

/// The indices of the first `n` entries that run.
pub open spec fn runnable(plan: Seq<PlanView>, n: int) -> Seq<int>
    decreases n,
{
    if n <= 0 {
        Seq::<int>::empty()
    } else if plan[n - 1].excluded is None {
        runnable(plan, n - 1).push(plan[n - 1].index)
    } else {
        runnable(plan, n - 1)
    }
}

/// The stripe of a worker among the first `n` items: every `jobs`-th one.
pub open spec fn stripe(items: Seq<int>, worker: int, jobs: int, n: int) -> Seq<int>
    decreases n,
{
    if n <= 0 {
        Seq::<int>::empty()
    } else if (n - 1) % jobs == worker {
        stripe(items, worker, jobs, n - 1).push(items[n - 1])
    } else {
        stripe(items, worker, jobs, n - 1)
    }
}

/// Indices as numbers.
pub open spec fn ints(v: Seq<usize>) -> Seq<int> {
    Seq::new(v.len(), |i: int| v[i] as int)
}

/// The indices of the entries that run, in census order.
pub fn runnable_of(plan: &[Planned]) -> (r: Vec<usize>)
    ensures
        ints(r@) == runnable(plan_views(plan@), plan@.len() as int),
{
    let ghost ps = plan_views(plan@);
    let mut r: Vec<usize> = Vec::new();
    let mut i: usize = 0;
    assert(ints(r@) =~= runnable(ps, 0));
    while i < plan.len()
        invariant
            i <= plan@.len(),
            ps == plan_views(plan@),
            ints(r@) == runnable(ps, i as int),
        decreases plan.len() - i,
    {
        assert(ps[i as int] == plan@[i as int]@);
        if plan[i].excluded.is_none() {
            let ghost was = ints(r@);
            r.push(plan[i].index);
            assert(ints(r@) =~= was.push(plan@[i as int].index as int));
        }
        i += 1;
    }
    r
}

/// The stripe of a worker. Expensive cases cluster, so stripes balance
/// better than chunks.
pub fn stripe_of(items: &[usize], worker: usize, jobs: usize) -> (r: Vec<usize>)
    requires
        jobs > 0,
    ensures
        ints(r@) == stripe(ints(items@), worker as int, jobs as int, items@.len() as int),
{
    let ghost all = ints(items@);
    let mut r: Vec<usize> = Vec::new();
    let mut i: usize = 0;
    assert(ints(r@) =~= stripe(all, worker as int, jobs as int, 0));
    while i < items.len()
        invariant
            i <= items@.len(),
            jobs > 0,
            all == ints(items@),
            ints(r@) == stripe(all, worker as int, jobs as int, i as int),
        decreases items.len() - i,
    {
        if i % jobs == worker {
            let ghost was = ints(r@);
            r.push(items[i]);
            assert(ints(r@) =~= was.push(all[i as int]));
        }
        i += 1;
    }
    r
}

// ---------------------------------------------------------------------
// Laws
// ---------------------------------------------------------------------

/// A plan is in census order: its indices grow, and each is the place of
/// its name in the enumeration.
pub proof fn law_plan_in_census_order(
    i: Option<InventoryView>,
    names: Seq<Seq<char>>,
    missing: Seq<Seq<char>>,
    only: Option<Seq<char>>,
    n: int,
)
    requires
        0 <= n <= names.len(),
    ensures
        ({
            let plan = planned(i, names, missing, only, n);
            &&& plan.len() <= n
            &&& forall|a: int, b: int|
                0 <= a < b < plan.len() ==> (#[trigger] plan[a]).index < (#[trigger] plan[b]).index
            &&& forall|a: int|
                0 <= a < plan.len() ==> 0 <= (#[trigger] plan[a]).index < n && names[plan[a].index]
                    == plan[a].name && is_selected(only, plan[a].name)
        }),
    decreases n,
{
    if n > 0 {
        law_plan_in_census_order(i, names, missing, only, n - 1);
    }
}

/// Every selected case is planned: none is dropped.
pub proof fn law_selected_is_planned(
    i: Option<InventoryView>,
    names: Seq<Seq<char>>,
    missing: Seq<Seq<char>>,
    only: Option<Seq<char>>,
    n: int,
    k: int,
)
    requires
        0 <= k < n <= names.len(),
        is_selected(only, names[k]),
    ensures
        exists|a: int|
            0 <= a < planned(i, names, missing, only, n).len() && (#[trigger] planned(
                i,
                names,
                missing,
                only,
                n,
            )[a]).index == k,
    decreases n,
{
    let plan = planned(i, names, missing, only, n);
    if k == n - 1 {
        assert(plan[plan.len() - 1].index == k);
    } else {
        law_selected_is_planned(i, names, missing, only, n - 1, k);
        let init = planned(i, names, missing, only, n - 1);
        let a = choose|a: int| 0 <= a < init.len() && (#[trigger] init[a]).index == k;
        assert(plan[a] == init[a]);
    }
}

proof fn lemma_last_named(names: Seq<Seq<char>>, name: Seq<char>, n: int)
    requires
        0 <= n <= names.len(),
    ensures
        -1 <= last_named(names, name, n) < n,
        last_named(names, name, n) >= 0 ==> names[last_named(names, name, n)] == name,
        last_named(names, name, n) < 0 ==> forall|k: int| 0 <= k < n ==> #[trigger] names[k] != name,
    decreases n,
{
    if n > 0 {
        lemma_last_named(names, name, n - 1);
    }
}

/// The marks of a name are those that the inventory records: the marks of the
/// case that has it, or else those of the closest row that it hangs from. A
/// name that is no case and hangs from no row has none.
pub proof fn law_marks_are_the_recorded_ones(i: InventoryView, name: Seq<char>)
    requires
        cases_apart(i.cases),
        rows_apart(i.generated),
    ensures
        forall|ms: Seq<MarkView>| #[trigger]
            records(i.cases, i.generated, name, ms) <==> recorded_marks(i, name) == Some(ms),
        recorded_marks(i, name) is None <==> !names_case(i.cases, name) && forall|r: int|
            0 <= r < i.generated.len() ==> !hangs_from(name, (#[trigger] i.generated[r]).prefix),
{
    let ns = entry_names(i.cases);
    let exact = last_named(ns, name, ns.len() as int);
    let row = row_of(i.generated, name);
    lemma_last_named(ns, name, ns.len() as int);
    lemma_names_case(i.cases, name);
    law_name_belongs_to_closest_row(i.generated, name);
    law_longest_prefix(i.generated, name, i.generated.len() as int);
    if exact >= 0 {
        assert(i.cases[exact].name.text() == name);
        assert forall|k: int|
            0 <= k < i.cases.len() && (#[trigger] i.cases[k]).name.text() == name implies k
            == exact by {
            if k < exact {
                assert(i.cases[k].name.text() != i.cases[exact].name.text());
            } else if exact < k {
                assert(i.cases[exact].name.text() != i.cases[k].name.text());
            }
        }
        assert(names_case(i.cases, name));
    } else {
        assert(!names_case(i.cases, name)) by {
            if names_case(i.cases, name) {
                let k = choose|k: int|
                    0 <= k < i.cases.len() && (#[trigger] i.cases[k]).name.text() == name;
                assert(ns[k] == name);
            }
        }
        if row >= 0 {
            assert(closest_row(i.generated, name, row));
        }
    }
}

/// Does a mark keep a case from a target that lacks these features: does it
/// require one of them, or decline one that the target has?
pub open spec fn keeps_out(m: MarkView, missing: Seq<Seq<char>>) -> bool {
    if m.negative {
        !missing.contains(m.feature)
    } else {
        missing.contains(m.feature)
    }
}

proof fn lemma_excluding_first(ms: Seq<MarkView>, missing: Seq<Seq<char>>, i: int)
    requires
        0 <= i <= ms.len(),
    ensures
        match excluding_from(ms, missing, i) {
            Some(m) => exists|k: int|
                i <= k < ms.len() && #[trigger] ms[k] == m && keeps_out(ms[k], missing)
                    && forall|j: int| i <= j < k ==> !keeps_out(#[trigger] ms[j], missing),
            None => forall|k: int| i <= k < ms.len() ==> !keeps_out(#[trigger] ms[k], missing),
        },
    decreases ms.len() - i,
{
    if i < ms.len() {
        lemma_excluding_first(ms, missing, i + 1);
        if keeps_out(ms[i], missing) {
            assert(excluding_from(ms, missing, i) == Some(ms[i]));
        } else {
            match excluding_from(ms, missing, i + 1) {
                Some(m) => {
                    let k = choose|k: int|
                        i + 1 <= k < ms.len() && #[trigger] ms[k] == m && keeps_out(ms[k], missing)
                            && forall|j: int| i + 1 <= j < k ==> !keeps_out(#[trigger] ms[j], missing);
                    assert(ms[k] == m && forall|j: int|
                        i <= j < k ==> !keeps_out(#[trigger] ms[j], missing));
                },
                None => {},
            }
        }
    }
}

/// A case is kept from a target by the first of its marks that keeps it out,
/// and by nothing else.
pub proof fn law_first_mark_excludes(ms: Seq<MarkView>, missing: Seq<Seq<char>>)
    ensures
        match excluding(ms, missing) {
            Some(m) => exists|k: int|
                0 <= k < ms.len() && #[trigger] ms[k] == m && keeps_out(ms[k], missing)
                    && forall|j: int| 0 <= j < k ==> !keeps_out(#[trigger] ms[j], missing),
            None => forall|k: int| 0 <= k < ms.len() ==> !keeps_out(#[trigger] ms[k], missing),
        },
        applies_to(ms, missing) <==> forall|k: int|
            0 <= k < ms.len() ==> !keeps_out(#[trigger] ms[k], missing),
{
    lemma_excluding_first(ms, missing, 0);
    law_applies_or_excluded(ms, missing);
    if exists|k: int| 0 <= k < ms.len() && keeps_out(#[trigger] ms[k], missing) {
        let k = choose|k: int| 0 <= k < ms.len() && keeps_out(#[trigger] ms[k], missing);
        assert(!(excluding(ms, missing) is None));
    }
}

/// In every plan a case is kept from the target by the first of the marks
/// recorded for it that keeps it out, which is the one named; a case that no
/// recorded mark keeps out runs. A leaf of a row has the marks of the row.
pub proof fn law_plan_goes_by_the_recorded_marks(
    i: InventoryView,
    names: Seq<Seq<char>>,
    missing: Seq<Seq<char>>,
    only: Option<Seq<char>>,
    a: int,
    ms: Seq<MarkView>,
)
    requires
        cases_apart(i.cases),
        rows_apart(i.generated),
        run_plan(Some(i), names, missing, only) is Ok,
        0 <= a < run_plan(Some(i), names, missing, only)->Ok_0.len(),
        records(
            i.cases,
            i.generated,
            run_plan(Some(i), names, missing, only)->Ok_0[a].name,
            ms,
        ),
    ensures
        match run_plan(Some(i), names, missing, only)->Ok_0[a].excluded {
            Some(text) => exists|k: int|
                0 <= k < ms.len() && keeps_out(#[trigger] ms[k], missing) && text == (if ms[k].negative {
                    seq!['!'] + ms[k].feature
                } else {
                    ms[k].feature
                }) && forall|j: int| 0 <= j < k ==> !keeps_out(#[trigger] ms[j], missing),
            None => forall|k: int| 0 <= k < ms.len() ==> !keeps_out(#[trigger] ms[k], missing),
        },
{
    let plan = run_plan(Some(i), names, missing, only)->Ok_0;
    lemma_planned_exclusion(Some(i), names, missing, only, names.len() as int, a);
    law_marks_are_the_recorded_ones(i, plan[a].name);
    assert(recorded_marks(i, plan[a].name) == Some(ms));
    law_first_mark_excludes(ms, missing);
}

proof fn lemma_planned_exclusion(
    i: Option<InventoryView>,
    names: Seq<Seq<char>>,
    missing: Seq<Seq<char>>,
    only: Option<Seq<char>>,
    n: int,
    a: int,
)
    requires
        0 <= n <= names.len(),
        0 <= a < planned(i, names, missing, only, n).len(),
    ensures
        ({
            let p = planned(i, names, missing, only, n)[a];
            p.excluded == exclusion(i, p.name, missing)
        }),
    decreases n,
{
    if n > 0 {
        let init = planned(i, names, missing, only, n - 1);
        if a < init.len() {
            lemma_planned_exclusion(i, names, missing, only, n - 1, a);
        }
    }
}

/// A plan without an inventory keeps nothing from the target.
pub proof fn law_without_inventory_all_run(
    names: Seq<Seq<char>>,
    missing: Seq<Seq<char>>,
    only: Option<Seq<char>>,
    a: int,
)
    requires
        run_plan(None, names, missing, only) is Ok,
        0 <= a < run_plan(None, names, missing, only)->Ok_0.len(),
    ensures
        run_plan(None, names, missing, only)->Ok_0[a].excluded is None,
{
    lemma_planned_exclusion(None, names, missing, only, names.len() as int, a);
}

proof fn lemma_materialized(i: InventoryView, names: Seq<Seq<char>>, n: int, m: MarkView)
    requires
        0 <= n <= names.len(),
    ensures
        materialized(i, names, n).contains(m) <==> exists|k: int|
            0 <= k < n && recorded_marks(i, #[trigger] names[k]) is Some && recorded_marks(
                i,
                names[k],
            )->0.contains(m),
    decreases n,
{
    if n > 0 {
        lemma_materialized(i, names, n - 1, m);
        match recorded_marks(i, names[n - 1]) {
            Some(ms) => lemma_contains_sum(materialized(i, names, n - 1), ms, m),
            None => {},
        }
    }
}

proof fn lemma_unrecorded(i: InventoryView, names: Seq<Seq<char>>)
    ensures
        unrecorded(i, names).len() == 0 <==> forall|k: int|
            0 <= k < names.len() ==> recorded_marks(i, #[trigger] names[k]) is Some,
    decreases names.len(),
{
    if names.len() > 0 {
        let init = names.drop_last();
        lemma_unrecorded(i, init);
        if forall|k: int| 0 <= k < names.len() ==> recorded_marks(i, #[trigger] names[k]) is Some {
            assert forall|k: int| 0 <= k < init.len() implies recorded_marks(i, #[trigger] init[k])
                is Some by {
                assert(init[k] == names[k]);
            }
            assert(recorded_marks(i, names[names.len() - 1]) is Some);
        }
        if unrecorded(i, names).len() == 0 {
            assert forall|k: int| 0 <= k < names.len() implies recorded_marks(
                i,
                #[trigger] names[k],
            ) is Some by {
                if k < init.len() {
                    assert(recorded_marks(i, init[k]) is Some);
                }
            }
        }
    }
}

/// Does an enumerated name have a recorded mark?
pub open spec fn enumerates_mark(i: InventoryView, names: Seq<Seq<char>>, m: MarkView) -> bool {
    exists|k: int, ms: Seq<MarkView>|
        0 <= k < names.len() && #[trigger] records(i.cases, i.generated, names[k], ms)
            && ms.contains(m)
}

/// Inventory and enumeration agree exactly where every case is enumerated,
/// every enumerated name is a case or hangs from a row, and every feature that
/// an enumerated case requires is declined by an enumerated case.
pub proof fn law_drift_fault(i: InventoryView, names: Seq<Seq<char>>)
    requires
        cases_apart(i.cases),
        rows_apart(i.generated),
    ensures
        drift_fault(i, names) is None <==> {
            &&& forall|k: int|
                0 <= k < i.cases.len() ==> names.contains((#[trigger] i.cases[k]).name.text())
            &&& forall|k: int|
                0 <= k < names.len() ==> names_case(i.cases, #[trigger] names[k]) || exists|r: int|
                    0 <= r < i.generated.len() && hangs_from(
                        names[k],
                        (#[trigger] i.generated[r]).prefix,
                    )
            &&& forall|f: Seq<char>| #[trigger]
                enumerates_mark(i, names, MarkView { feature: f, negative: false })
                    ==> enumerates_mark(i, names, MarkView { feature: f, negative: true })
        },
{
    let wanted = entry_names(i.cases);
    let n = names.len() as int;
    lemma_absent_none(wanted, names);
    law_sorted(absent(wanted, names));
    lemma_unrecorded(i, names);
    law_sorted(unrecorded(i, names));
    assert((forall|k: int| 0 <= k < wanted.len() ==> names.contains(#[trigger] wanted[k]))
        <==> forall|k: int|
        0 <= k < i.cases.len() ==> names.contains((#[trigger] i.cases[k]).name.text())) by {
        if forall|k: int| 0 <= k < wanted.len() ==> names.contains(#[trigger] wanted[k]) {
            assert forall|k: int| 0 <= k < i.cases.len() implies names.contains(
                (#[trigger] i.cases[k]).name.text(),
            ) by {
                assert(names.contains(wanted[k]));
            }
        }
    }
    assert forall|k: int| 0 <= k < n implies (recorded_marks(i, #[trigger] names[k]) is Some
        <==> names_case(i.cases, names[k]) || exists|r: int|
        0 <= r < i.generated.len() && hangs_from(names[k], (#[trigger] i.generated[r]).prefix)) by {
        law_marks_are_the_recorded_ones(i, names[k]);
    }
    let all = materialized(i, names, n);
    law_unpaired(all);
    assert forall|f: Seq<char>, neg: bool|
        all.contains(MarkView { feature: f, negative: neg }) == #[trigger] enumerates_mark(
            i,
            names,
            MarkView { feature: f, negative: neg },
        ) by {
        let m = MarkView { feature: f, negative: neg };
        lemma_materialized(i, names, n, m);
        if all.contains(m) {
            let k = choose|k: int|
                0 <= k < n && recorded_marks(i, #[trigger] names[k]) is Some && recorded_marks(
                    i,
                    names[k],
                )->0.contains(m);
            law_marks_are_the_recorded_ones(i, names[k]);
            assert(records(i.cases, i.generated, names[k], recorded_marks(i, names[k])->0));
        }
        if enumerates_mark(i, names, m) {
            let (k, ms) = choose|k: int, ms: Seq<MarkView>|
                0 <= k < names.len() && #[trigger] records(i.cases, i.generated, names[k], ms)
                    && ms.contains(m);
            law_marks_are_the_recorded_ones(i, names[k]);
            assert(recorded_marks(i, names[k]) == Some(ms));
        }
    }
    if unpaired(all).len() > 0 {
        let f = unpaired(all)[0];
        assert(unpaired(all).contains(f));
        assert(enumerates_mark(i, names, MarkView { feature: f, negative: false }));
        assert(!enumerates_mark(i, names, MarkView { feature: f, negative: true }));
    } else {
        assert forall|f: Seq<char>| #[trigger]
            enumerates_mark(i, names, MarkView { feature: f, negative: false }) implies enumerates_mark(
            i,
            names,
            MarkView { feature: f, negative: true },
        ) by {
            assert(!unpaired(all).contains(f));
        }
    }
}

/// There is a plan exactly where something is enumerated, inventory and
/// enumeration agree, and the filter leaves something.
pub proof fn law_there_is_a_plan(
    i: Option<InventoryView>,
    names: Seq<Seq<char>>,
    missing: Seq<Seq<char>>,
    only: Option<Seq<char>>,
)
    ensures
        run_plan(i, names, missing, only) is Ok <==> {
            &&& i is Some ==> drift_fault(i->0, names) is None
            &&& exists|k: int|
                0 <= k < names.len() && (only is None || contains_text(
                    #[trigger] names[k],
                    only->0,
                ))
        },
{
    let n = names.len() as int;
    let plan = planned(i, names, missing, only, n);
    if exists|k: int| 0 <= k < n && (only is None || contains_text(#[trigger] names[k], only->0)) {
        let k = choose|k: int| 0 <= k < n && (only is None || contains_text(#[trigger] names[k], only->0));
        law_selected_is_planned(i, names, missing, only, n, k);
    }
    if plan.len() > 0 {
        law_plan_in_census_order(i, names, missing, only, n);
        let k = plan[0].index;
        assert(names[k] == plan[0].name);
    }
}

proof fn lemma_runnable(plan: Seq<PlanView>, n: int, x: int)
    requires
        0 <= n <= plan.len(),
    ensures
        runnable(plan, n).contains(x) <==> exists|k: int|
            0 <= k < n && (#[trigger] plan[k]).index == x && plan[k].excluded is None,
    decreases n,
{
    if n > 0 {
        let init = runnable(plan, n - 1);
        lemma_runnable(plan, n - 1, x);
        lemma_contains_sum(init, seq![plan[n - 1].index], x);
        assert(init.push(plan[n - 1].index) =~= init + seq![plan[n - 1].index]);
        assert(seq![plan[n - 1].index].contains(x) <==> plan[n - 1].index == x) by {
            assert(seq![plan[n - 1].index][0] == plan[n - 1].index);
        }
    }
}

/// What runs are the entries of a plan that no mark keeps from the target: all
/// of them, and no other.
pub proof fn law_runnable(plan: Seq<PlanView>)
    ensures
        forall|x: int| #[trigger]
            runnable(plan, plan.len() as int).contains(x) <==> exists|k: int|
                0 <= k < plan.len() && (#[trigger] plan[k]).index == x && plan[k].excluded is None,
        runnable(plan, plan.len() as int) == plan.filter(|p: PlanView| p.excluded is None).map_values(
            |p: PlanView| p.index,
        ),
{
    assert forall|x: int| #[trigger]
        runnable(plan, plan.len() as int).contains(x) <==> exists|k: int|
            0 <= k < plan.len() && (#[trigger] plan[k]).index == x && plan[k].excluded is None by {
        lemma_runnable(plan, plan.len() as int, x);
    }
    lemma_runnable_filter(plan, plan.len() as int);
    assert(plan.take(plan.len() as int) =~= plan);
}

proof fn lemma_runnable_filter(plan: Seq<PlanView>, n: int)
    requires
        0 <= n <= plan.len(),
    ensures
        runnable(plan, n) == plan.take(n).filter(|p: PlanView| p.excluded is None).map_values(
            |p: PlanView| p.index,
        ),
    decreases n,
{
    reveal(Seq::filter);
    if n > 0 {
        lemma_runnable_filter(plan, n - 1);
        assert(plan.take(n).drop_last() =~= plan.take(n - 1));
    }
    assert(runnable(plan, n) =~= plan.take(n).filter(
        |p: PlanView| p.excluded is None,
    ).map_values(|p: PlanView| p.index));
}

/// With an inventory, a case is kept from a target exactly where its marks
/// do not apply there.
pub proof fn law_excluded_iff_not_applicable(
    i: InventoryView,
    name: Seq<char>,
    missing: Seq<Seq<char>>,
)
    requires
        recorded_marks(i, name) is Some,
    ensures
        exclusion(Some(i), name, missing) is None <==> applies_to(
            recorded_marks(i, name)->0,
            missing,
        ),
{
    law_applies_or_excluded(recorded_marks(i, name)->0, missing);
}

/// Every item is in the stripe of the worker that its place says.
pub proof fn law_stripe_covers(items: Seq<int>, jobs: int, n: int, k: int)
    requires
        jobs > 0,
        0 <= k < n <= items.len(),
    ensures
        stripe(items, k % jobs, jobs, n).contains(items[k]),
    decreases n,
{
    let w = k % jobs;
    let s = stripe(items, w, jobs, n);
    if k == n - 1 {
        assert(s[s.len() - 1] == items[k]);
    } else {
        law_stripe_covers(items, jobs, n - 1, k);
        let init = stripe(items, w, jobs, n - 1);
        let a = choose|a: int| 0 <= a < init.len() && init[a] == items[k];
        assert(s[a] == items[k]);
    }
}

/// No stripe but that one has it, where no item occurs twice.
pub proof fn law_stripes_are_disjoint(items: Seq<int>, worker: int, jobs: int, n: int, k: int)
    requires
        jobs > 0,
        0 <= n <= items.len(),
        0 <= k < items.len(),
        items.no_duplicates(),
        k % jobs != worker,
    ensures
        !stripe(items, worker, jobs, n).contains(items[k]),
    decreases n,
{
    if n > 0 {
        law_stripes_are_disjoint(items, worker, jobs, n - 1, k);
        let init = stripe(items, worker, jobs, n - 1);
        let s = stripe(items, worker, jobs, n);
        if s.contains(items[k]) {
            let a = choose|a: int| 0 <= a < s.len() && s[a] == items[k];
            if a < init.len() {
                assert(init[a] == items[k]);
            } else {
                assert(items[n - 1] == items[k]);
            }
        }
    }
}

proof fn lemma_stripe(items: Seq<int>, worker: int, jobs: int, n: int)
    requires
        0 <= n <= items.len(),
    ensures
        stripe(items, worker, jobs, n) == Seq::new(n as nat, |k: int| k).filter(
            |k: int| k % jobs == worker,
        ).map_values(|k: int| items[k]),
    decreases n,
{
    reveal(Seq::filter);
    let p = |k: int| k % jobs == worker;
    let f = |k: int| items[k];
    let all = Seq::new(n as nat, |k: int| k);
    if n > 0 {
        lemma_stripe(items, worker, jobs, n - 1);
        let some = Seq::new((n - 1) as nat, |k: int| k);
        assert(all.drop_last() =~= some);
        assert(all.last() == n - 1);
        if p(n - 1) {
            assert(some.filter(p).push(n - 1).map_values(f) =~= some.filter(p).map_values(f).push(
                items[n - 1],
            ));
        }
    } else {
        assert(all.filter(p).map_values(f) =~= Seq::<int>::empty());
    }
}

/// A worker takes the items at its own remainder, in their order.
pub proof fn law_stripe(items: Seq<int>, worker: int, jobs: int)
    ensures
        stripe(items, worker, jobs, items.len() as int) == Seq::new(
            items.len(),
            |k: int| k,
        ).filter(|k: int| k % jobs == worker).map_values(|k: int| items[k]),
{
    lemma_stripe(items, worker, jobs, items.len() as int);
}

/// What the inventory does not record is every enumerated name that it gives
/// no marks, in order.
pub proof fn law_unrecorded(i: InventoryView, names: Seq<Seq<char>>)
    ensures
        unrecorded(i, names) == names.filter(|n: Seq<char>| recorded_marks(i, n) is None),
    decreases names.len(),
{
    reveal(Seq::filter);
    if names.len() > 0 {
        law_unrecorded(i, names.drop_last());
    }
}

} // verus!
