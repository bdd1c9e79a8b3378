//! Which components the crate that composes can read.
//!
//! Its reader goes through the imports and then the exports of a component,
//! and into each type of instances or components once. It gives up where a
//! core module at the interface speaks of references that it has no word for,
//! where it finds a type of an instance that it has given to another instance
//! already, and where a type of components has a single export with a name
//! that is none by default.

use vstd::prelude::*;
use wasmparser::component_types::{AnyTypeId, ComponentEntityType};
use wasmparser::types::Types;

use crate::opening::{check_settled, settled};
use crate::shape::{
    component_exports, component_imports, component_names, copied, core_rows, entity, entity_run,
    entity_view, entity_views, extern_list, extern_names, extern_of, instance_items, kind,
    module_funcs, module_stores, name_fits, of_run, one_of, run_of, stands_for, taken_apart, traced,
    type_run, type_view, type_views, typed, types_of, types_run, wasm_component,
    wasm_component_names, wasm_extern, wasm_holds, wasm_instance, wasm_module_funcs,
    wasm_module_stores, wasm_name_fits, Entity, EntityView, Kind, TypeView, STEPS,
};
use crate::text::views;

verus! {

/// No reference to a type of a module's own, and none that is shared.
pub open spec fn plain_core(rows: Seq<Seq<Option<(bool, bool)>>>) -> bool {
    forall|i: int, j: int|
        0 <= i < rows.len() && 0 <= j < rows[i].len() ==> (#[trigger] rows[i][j]) is None
            || rows[i][j] == Some((false, false))
}

/// Is no core type a reference to a type of a module's own, or shared?
pub fn check_core(rows: &[Vec<Option<(bool, bool)>>]) -> (r: bool)
    ensures
        r == plain_core(core_rows(rows@)),
{
    let ghost all = core_rows(rows@);
    let mut i: usize = 0;
    while i < rows.len()
        invariant
            i <= rows@.len(),
            all == core_rows(rows@),
            forall|a: int, j: int|
                0 <= a < i && 0 <= j < all[a].len() ==> (#[trigger] all[a][j]) is None || all[a][j]
                    == Some((false, false)),
        decreases rows.len() - i,
    {
        let row = &rows[i];
        assert(all[i as int] == row@);
        let mut j: usize = 0;
        while j < row.len()
            invariant
                i < rows@.len(),
                j <= row@.len(),
                all == core_rows(rows@),
                all[i as int] == row@,
                forall|b: int|
                    0 <= b < j ==> (#[trigger] all[i as int][b]) is None || all[i as int][b]
                        == Some((false, false)),
            decreases row.len() - j,
        {
            match row[j] {
                None => {},
                Some(x) => {
                    if x.0 || x.1 {
                        assert(all[i as int][j as int] == Some(x));
                        return false;
                    }
                    assert(all[i as int][j as int] == Some((false, false)));
                },
            }
            j += 1;
        }
        i += 1;
    }
    true
}

/// Items in the order in which a stack yields them, each with whether a type
/// among them belongs to what holds it.
pub open spec fn stacked(items: Seq<EntityView>, owns: bool) -> Seq<(EntityView, bool)> {
    Seq::new(items.len(), |i: int| (items[items.len() - 1 - i], owns))
}

/// What is inside a type of instances or components that was not seen yet.
pub open spec fn inside(wasm: Seq<u8>, seen: Seq<TypeView>, t: TypeView) -> Seq<
    (EntityView, bool),
> {
    if seen.contains(t) {
        Seq::empty()
    } else {
        match t {
            TypeView::Instance(_) => stacked(wasm_instance(wasm, t), true),
            TypeView::Component(_) => stacked(wasm_component(wasm, t).1, false) + stacked(
                wasm_component(wasm, t).0,
                true,
            ),
            _ => Seq::empty(),
        }
    }
}

/// Can the rest of an interface be read? `seen` are the types that were gone
/// into, `given` those that belong to an instance already.
pub open spec fn reads(
    wasm: Seq<u8>,
    todo: Seq<(EntityView, bool)>,
    seen: Seq<TypeView>,
    given: Seq<TypeView>,
    steps: nat,
) -> bool
    decreases steps,
{
    if todo.len() == 0 {
        true
    } else if steps == 0 {
        false
    } else {
        let rest = todo.drop_last();
        let fewer = (steps - 1) as nat;
        match todo.last().0 {
            EntityView::Module(m) => plain_core(wasm_module_funcs(wasm, m)) && plain_core(
                wasm_module_stores(wasm, m),
            ) && reads(
                wasm,
                rest,
                seen,
                given,
                fewer,
            ),
            EntityView::Func(_) | EntityView::Value(_) => reads(wasm, rest, seen, given, fewer),
            EntityView::Instance(t) | EntityView::Component(t) => reads(
                wasm,
                rest + inside(wasm, seen, t),
                seen.push(t),
                given,
                fewer,
            ),
            EntityView::Type(referenced, created) => {
                let more = rest + inside(wasm, seen, created);
                if !todo.last().1 || stands_for(wasm, referenced, given, STEPS as nat) {
                    reads(wasm, more, seen.push(created), given, fewer)
                } else {
                    !given.contains(created) && reads(
                        wasm,
                        more,
                        seen.push(created),
                        given.push(created),
                        fewer,
                    )
                }
            },
        }
    }
}

/// What a component imports, or exports, by the first `n` of the names.
pub open spec fn externs(wasm: Seq<u8>, names: Seq<Seq<char>>, imported: bool, n: int) -> Seq<
    EntityView,
>
    decreases n,
{
    if n <= 0 {
        Seq::empty()
    } else {
        match wasm_extern(wasm, names[n - 1], imported) {
            Some(e) => externs(wasm, names, imported, n - 1).push(e),
            None => externs(wasm, names, imported, n - 1),
        }
    }
}

/// The imports, or the exports, of a component in order.
pub open spec fn interface(wasm: Seq<u8>, imported: bool) -> Seq<EntityView> {
    let names = extern_names(wasm, imported);
    externs(wasm, names, imported, names.len() as int)
}

/// Where an export is a type of components with a single export, is that
/// one's name a name by default?
pub open spec fn single_name_fits(wasm: Seq<u8>, e: EntityView) -> bool {
    match e {
        EntityView::Type(_, created) => created is Component && wasm_component_names(
            wasm,
            created,
        ).len() == 1 ==> wasm_name_fits(wasm_component_names(wasm, created)[0]),
        _ => true,
    }
}

/// Can a component be read? So can what does not hold up, if that can be told:
/// reading it fails cleanly.
pub open spec fn readable(wasm: Seq<u8>) -> bool {
    &&& settled(wasm)
    &&& wasm_holds(wasm) ==> {
        &&& reads(
            wasm,
            stacked(interface(wasm, false), false) + stacked(interface(wasm, true), false),
            Seq::empty(),
            Seq::empty(),
            STEPS as nat,
        )
        &&& forall|i: int|
            0 <= i < interface(wasm, false).len() ==> single_name_fits(
                wasm,
                #[trigger] interface(wasm, false)[i],
            )
    }
}

/// Entities with their flags, over numbers.
spec fn todo_view(todo: Seq<(Entity, bool)>) -> Seq<(EntityView, bool)> {
    todo.map_values(|x: (Entity, bool)| (taken_apart(x.0), x.1))
}

spec fn todo_run(todo: Seq<(Entity, bool)>, run: nat) -> bool {
    forall|i: int| 0 <= i < todo.len() ==> of_run((#[trigger] todo[i]).0, run)
}

fn stack(todo: &mut Vec<(Entity, bool)>, t: &Types, items: &[ComponentEntityType], owns: bool)
    requires
        todo_run(old(todo)@, run_of(*t)),
        forall|i: int| 0 <= i < items@.len() ==> entity_run(#[trigger] items@[i]) == run_of(*t),
    ensures
        todo_run(final(todo)@, run_of(*t)),
        todo_view(final(todo)@) == todo_view(old(todo)@) + stacked(entity_views(items@), owns),
{
    let ghost run = run_of(*t);
    let ghost start = todo_view(todo@);
    let ghost es = entity_views(items@);
    let mut i: usize = items.len();
    assert(todo_view(todo@) =~= start + stacked(es, owns).subrange(0, 0));
    while i > 0
        invariant
            i <= items@.len(),
            start == todo_view(old(todo)@),
            es == entity_views(items@),
            forall|k: int| 0 <= k < items@.len() ==> entity_run(#[trigger] items@[k]) == run,
            todo_run(todo@, run),
            todo_view(todo@) == start + stacked(es, owns).subrange(0, items@.len() - i),
        decreases i,
    {
        i -= 1;
        let ghost before = todo@;
        let e = entity(&items[i]);
        let ghost n = items@.len() - i - 1;
        assert(entity_run(items@[i as int]) == run);
        assert(stacked(es, owns)[n] == (taken_apart(e), owns)) by {
            assert(es[i as int] == entity_view(items@[i as int]));
        }
        todo.push((e, owns));
        assert(todo_view(todo@) =~= todo_view(before).push((taken_apart(e), owns)));
        assert(stacked(es, owns).subrange(0, n + 1) =~= stacked(es, owns).subrange(0, n).push(
            stacked(es, owns)[n],
        ));
    }
    assert(stacked(es, owns).subrange(0, items@.len() as int) =~= stacked(es, owns));
}

fn stack_inside(todo: &mut Vec<(Entity, bool)>, t: &Types, seen: &[AnyTypeId], id: &AnyTypeId)
    requires
        todo_run(old(todo)@, run_of(*t)),
        types_run(seen@, run_of(*t)),
        type_run(*id) == run_of(*t),
    ensures
        todo_run(final(todo)@, run_of(*t)),
        todo_view(final(todo)@) == todo_view(old(todo)@) + inside(
            types_of(*t),
            type_views(seen@),
            type_view(*id),
        ),
{
    let ghost start = todo_view(todo@);
    if !one_of(seen, id) {
        match kind(id) {
            Kind::Instance => {
                let items = instance_items(t, id);
                stack(todo, t, &items, true);
                return;
            },
            Kind::Component => {
                let exports = component_exports(t, id);
                stack(todo, t, &exports, false);
                let imports = component_imports(t, id);
                stack(todo, t, &imports, true);
                assert(todo_view(todo@) =~= start + (stacked(entity_views(exports@), false)
                    + stacked(entity_views(imports@), true)));
                return;
            },
            _ => {},
        }
    }
    assert(todo_view(todo@) =~= start + Seq::empty());
}

/// Can what is stacked up be read?
fn walk(t: &Types, stacked_up: Vec<(Entity, bool)>) -> (r: bool)
    requires
        todo_run(stacked_up@, run_of(*t)),
    ensures
        r == reads(
            types_of(*t),
            todo_view(stacked_up@),
            Seq::empty(),
            Seq::empty(),
            STEPS as nat,
        ),
{
    let ghost w = types_of(*t);
    let ghost run = run_of(*t);
    let mut todo = stacked_up;
    let mut seen: Vec<AnyTypeId> = Vec::new();
    let mut given: Vec<AnyTypeId> = Vec::new();
    let mut steps: u32 = STEPS;
    let ghost all = reads(w, todo_view(todo@), Seq::empty(), Seq::empty(), STEPS as nat);
    assert(type_views(seen@) =~= Seq::empty());
    while todo.len() > 0
        invariant
            w == types_of(*t),
            run == run_of(*t),
            todo_run(todo@, run),
            types_run(seen@, run),
            types_run(given@, run),
            all == reads(
                w,
                todo_view(stacked_up@),
                Seq::empty(),
                Seq::empty(),
                STEPS as nat,
            ),
            all == reads(
                w,
                todo_view(todo@),
                type_views(seen@),
                type_views(given@),
                steps as nat,
            ),
        decreases steps,
    {
        let ghost was = todo@;
        let ghost tv = todo_view(was);
        assert(tv.len() == was.len());
        if steps == 0 {
            return false;
        }
        match todo.pop() {
            None => {},
            Some((e, owns)) => {
                proof {
                    assert(was.last() == (e, owns));
                    assert(tv.last() == (taken_apart(e), owns));
                    assert(todo_view(todo@) =~= tv.drop_last());
                    assert(of_run(e, run));
                }
                match e {
                    Entity::Module(m) => {
                        let funcs = module_funcs(t, &m);
                        let stores = module_stores(t, &m);
                        if !check_core(&funcs) || !check_core(&stores) {
                            return false;
                        }
                    },
                    Entity::Func(_) => {},
                    Entity::Value(_) => {},
                    Entity::Instance(id) | Entity::Component(id) => {
                        stack_inside(&mut todo, t, &seen, &id);
                        let ghost before = seen@;
                        seen.push(id);
                        assert(type_views(seen@) =~= type_views(before).push(type_view(id)));
                    },
                    Entity::Type(referenced, created) => {
                        if owns && !traced(t, &referenced, &given) {
                            if one_of(&given, &created) {
                                return false;
                            }
                            let ghost before = given@;
                            given.push(copied(&created));
                            assert(type_views(given@) =~= type_views(before).push(
                                type_view(created),
                            ));
                        }
                        stack_inside(&mut todo, t, &seen, &created);
                        let ghost before = seen@;
                        seen.push(created);
                        assert(type_views(seen@) =~= type_views(before).push(type_view(created)));
                    },
                }
            },
        }
        steps = steps - 1;
    }
    true
}

/// What a component imports, or exports, by name.
pub(crate) fn extern_items(t: &Types, names: &[String], imported: bool) -> (r: Vec<
    ComponentEntityType,
>)
    ensures
        entity_views(r@) == externs(
            types_of(*t),
            views(names@),
            imported,
            names@.len() as int,
        ),
        forall|i: int| 0 <= i < r@.len() ==> entity_run(#[trigger] r@[i]) == run_of(*t),
{
    let ghost w = types_of(*t);
    let ghost ns = views(names@);
    let mut r: Vec<ComponentEntityType> = Vec::new();
    let mut i: usize = 0;
    assert(entity_views(r@) =~= externs(w, ns, imported, 0));
    while i < names.len()
        invariant
            i <= names@.len(),
            w == types_of(*t),
            ns == views(names@),
            entity_views(r@) == externs(w, ns, imported, i as int),
            forall|k: int| 0 <= k < r@.len() ==> entity_run(#[trigger] r@[k]) == run_of(*t),
        decreases names.len() - i,
    {
        assert(ns[i as int] == names@[i as int]@);
        match extern_of(t, names[i].as_str(), imported) {
            None => {},
            Some(e) => {
                let ghost before = r@;
                r.push(e);
                assert(entity_views(r@) =~= entity_views(before).push(entity_view(e)));
            },
        }
        i += 1;
    }
    r
}

fn single_names_fit(t: &Types, items: &[ComponentEntityType]) -> (r: bool)
    requires
        forall|i: int| 0 <= i < items@.len() ==> entity_run(#[trigger] items@[i]) == run_of(*t),
    ensures
        r == forall|i: int|
            0 <= i < items@.len() ==> single_name_fits(
                types_of(*t),
                #[trigger] entity_views(items@)[i],
            ),
{
    let ghost w = types_of(*t);
    let ghost es = entity_views(items@);
    let mut i: usize = 0;
    while i < items.len()
        invariant
            i <= items@.len(),
            w == types_of(*t),
            es == entity_views(items@),
            forall|k: int| 0 <= k < items@.len() ==> entity_run(#[trigger] items@[k]) == run_of(*t),
            forall|k: int| 0 <= k < i ==> single_name_fits(w, #[trigger] es[k]),
        decreases items.len() - i,
    {
        assert(es[i as int] == entity_view(items@[i as int]));
        match entity(&items[i]) {
            Entity::Type(_, created) => {
                match kind(&created) {
                    Kind::Component => {
                        let names = component_names(t, &created);
                        if names.len() == 1 {
                            assert(views(names@)[0] == names@[0]@);
                            if !name_fits(names[0].as_str()) {
                                assert(!single_name_fits(w, es[i as int]));
                                return false;
                            }
                        }
                    },
                    _ => {},
                }
            },
            _ => {},
        }
        assert(single_name_fits(w, es[i as int]));
        i += 1;
    }
    true
}

/// Can a component be read?
pub fn check_readable(wasm: &[u8]) -> (r: bool)
    ensures
        r == readable(wasm@),
{
    if !check_settled(wasm) {
        return false;
    }
    match typed(wasm) {
        None => true,
        Some(t) => {
            let export_names = extern_list(wasm, false);
            let exports = extern_items(&t, &export_names, false);
            let import_names = extern_list(wasm, true);
            let imports = extern_items(&t, &import_names, true);
            let mut todo: Vec<(Entity, bool)> = Vec::new();
            assert(todo_view(todo@) =~= Seq::empty());
            stack(&mut todo, &t, &exports, false);
            stack(&mut todo, &t, &imports, false);
            proof {
                assert(entity_views(exports@) == interface(wasm@, false));
                assert(entity_views(imports@) == interface(wasm@, true));
                assert(todo_view(todo@) =~= stacked(interface(wasm@, false), false) + stacked(
                    interface(wasm@, true),
                    false,
                ));
                assert(interface(wasm@, false).len() == exports@.len());
            }
            let fits = single_names_fit(&t, &exports);
            walk(&t, todo) && fits
        },
    }
}

} // verus!
