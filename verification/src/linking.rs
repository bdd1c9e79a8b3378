//! Which components can be part of a composition.
//!
//! What nothing feeds stays an import of the composition, and so does every
//! interface that it takes a type from. The crate that composes writes the
//! types of these imports out again. It looks a resource up by its name, among
//! those of the instance that it is writing, or among the resources that the
//! composition itself imports, as far as it has written them, and gives up
//! where it finds none. What it has
//! written it validates, and so it gives up as well on a component that cannot
//! be instantiated.

use vstd::prelude::*;
use wasmparser::component_types::{AnyTypeId, ComponentEntityType};
use wasmparser::types::Types;

use crate::opening::{check_imports, check_settled, imports_open, settled, Place, Source};
use crate::reading::{extern_items, interface};
use crate::shape::{
    all_run, copied, defined_run, entity, entity_run, entity_view, entity_views, extern_list,
    extern_names, extern_of, fields, func_parts, handle, instance_items, instance_names, kind,
    maybe_view, maybe_views, of_run, one_of, payload, peeled, run_of, same, stands_for, taken_apart,
    traced, type_run, type_view, type_views, typed, types_of, types_run, wasm_extern, wasm_fields,
    wasm_func, wasm_handle, wasm_holds, wasm_instance, wasm_instance_names, wasm_payload, wasm_peel,
    Entity, EntityView, Kind, TypeView, STEPS,
};
use crate::text::{among, contains_text, has_text, owned, views};

verus! {

/// Is every resource that the types speak of a named one? What was written out
/// already is not gone into. Borrowed handles are another matter: `borrows`
/// says whether there may be any.
pub open spec fn handles(
    wasm: Seq<u8>,
    todo: Seq<Option<TypeView>>,
    seen: Seq<TypeView>,
    named: Seq<TypeView>,
    borrows: bool,
    steps: nat,
) -> bool
    decreases steps,
{
    if todo.len() == 0 {
        true
    } else if steps == 0 {
        false
    } else {
        let rest = todo.drop_last();
        let fewer = (steps - 1) as nat;
        match todo.last() {
            None => handles(wasm, rest, seen, named, borrows, fewer),
            Some(t) => if seen.contains(t) {
                handles(wasm, rest, seen, named, borrows, fewer)
            } else {
                (match wasm_handle(wasm, t) {
                    Some(h) => named.contains(h.1) && (borrows || !h.0),
                    None => true,
                }) && handles(
                    wasm,
                    rest + wasm_fields(wasm, t) + wasm_payload(wasm, t),
                    seen.push(t),
                    named,
                    borrows,
                    fewer,
                )
            },
        }
    }
}

/// Is every resource that the types speak of a named one?
pub open spec fn all_named(
    wasm: Seq<u8>,
    parts: Seq<Option<TypeView>>,
    written: Seq<TypeView>,
    named: Seq<TypeView>,
    borrows: bool,
) -> bool {
    handles(wasm, parts, written, named, borrows, STEPS as nat)
}

/// The types that the first `n` of the items make, resources or others.
pub open spec fn made(items: Seq<EntityView>, n: int) -> Seq<TypeView>
    decreases n,
{
    if n <= 0 {
        Seq::empty()
    } else {
        match items[n - 1] {
            EntityView::Type(_, created) => made(items, n - 1).push(created),
            _ => made(items, n - 1),
        }
    }
}

/// The types that an instance of that type makes.
pub open spec fn made_in(wasm: Seq<u8>, t: TypeView) -> Seq<TypeView> {
    made(wasm_instance(wasm, t), wasm_instance(wasm, t).len() as int)
}

/// The resources that the first `n` of the items make, each with its name.
pub open spec fn named_in(items: Seq<EntityView>, names: Seq<Seq<char>>, n: int) -> Seq<
    (TypeView, Seq<char>),
>
    decreases n,
{
    if n <= 0 {
        Seq::empty()
    } else {
        match items[n - 1] {
            EntityView::Type(_, created) => if created is Resource {
                named_in(items, names, n - 1).push((created, names[n - 1]))
            } else {
                named_in(items, names, n - 1)
            },
            _ => named_in(items, names, n - 1),
        }
    }
}

/// The resources of an instance of that type, each with its name.
pub open spec fn resources_in(wasm: Seq<u8>, t: TypeView) -> Seq<(TypeView, Seq<char>)> {
    let items = wasm_instance(wasm, t);
    named_in(items, wasm_instance_names(wasm, t), items.len() as int)
}

/// Does a name name an interface of a package?
pub open spec fn has_colon(name: Seq<char>) -> bool {
    contains_text(name, ":"@)
}

/// The types that the instances make which a component imports by the first
/// `n` of the names: those of another type than `but`, and with `plain` those
/// only whose name names no interface of a package.
pub open spec fn in_instances(
    wasm: Seq<u8>,
    names: Seq<Seq<char>>,
    but: Option<TypeView>,
    plain: bool,
    n: int,
) -> Seq<TypeView>
    decreases n,
{
    if n <= 0 {
        Seq::empty()
    } else {
        let init = in_instances(wasm, names, but, plain, n - 1);
        match wasm_extern(wasm, names[n - 1], true) {
            Some(EntityView::Instance(t)) => if but == Some(t) || (plain && has_colon(
                names[n - 1],
            )) {
                init
            } else {
                init + made_in(wasm, t)
            },
            _ => init,
        }
    }
}

/// The resources that a component imports by the first `n` of the names, in
/// instances or by themselves, each with its name.
pub open spec fn all_resources(wasm: Seq<u8>, names: Seq<Seq<char>>, n: int) -> Seq<
    (TypeView, Seq<char>),
>
    decreases n,
{
    if n <= 0 {
        Seq::empty()
    } else {
        let init = all_resources(wasm, names, n - 1);
        match wasm_extern(wasm, names[n - 1], true) {
            Some(EntityView::Instance(t)) => init + resources_in(wasm, t),
            Some(EntityView::Type(_, created)) => if created is Resource {
                init.push((created, names[n - 1]))
            } else {
                init
            },
            _ => init,
        }
    }
}

/// The resources that a component imports by those of the first `n` names that
/// nothing feeds, each with its name; `fresh` keeps to those that stand for no
/// other.
pub open spec fn left_open(
    wasm: Seq<u8>,
    names: Seq<Seq<char>>,
    fed: Set<Seq<char>>,
    fresh: bool,
    n: int,
) -> Seq<(TypeView, Seq<char>)>
    decreases n,
{
    if n <= 0 {
        Seq::empty()
    } else {
        let init = left_open(wasm, names, fed, fresh, n - 1);
        match wasm_extern(wasm, names[n - 1], true) {
            Some(EntityView::Type(referenced, created)) => if created is Resource && !fed.contains(
                names[n - 1],
            ) && (!fresh || referenced == created) {
                init.push((created, names[n - 1]))
            } else {
                init
            },
            _ => init,
        }
    }
}

/// The first of the pairs.
pub open spec fn firsts(pairs: Seq<(TypeView, Seq<char>)>) -> Seq<TypeView> {
    pairs.map_values(|x: (TypeView, Seq<char>)| x.0)
}

/// Is a name among those of the pairs?
pub open spec fn has_name(pairs: Seq<(TypeView, Seq<char>)>, name: Seq<char>) -> bool {
    exists|i: int| 0 <= i < pairs.len() && (#[trigger] pairs[i]).1 == name
}

/// Those of the first `n` resources that are found by name among others.
pub open spec fn found_among(
    all: Seq<(TypeView, Seq<char>)>,
    others: Seq<(TypeView, Seq<char>)>,
    n: int,
) -> Seq<TypeView>
    decreases n,
{
    if n <= 0 {
        Seq::empty()
    } else if has_name(others, all[n - 1].1) {
        found_among(all, others, n - 1).push(all[n - 1].0)
    } else {
        found_among(all, others, n - 1)
    }
}

/// The resources by which an import is judged: all of them with their names,
/// the types of all instances, those of instances with plain names, what is
/// found by name among the open resources before it, and those of the open
/// ones that stand for no other; and the types of the imports.
#[verifier::ext_equal]
pub struct Known {
    pub all: Seq<(TypeView, Seq<char>)>,
    pub elsewhere: Seq<TypeView>,
    pub plain: Seq<TypeView>,
    pub found: Seq<TypeView>,
    pub fresh: Seq<TypeView>,
    pub outer: Seq<TypeView>,
}

/// Can the insides of a type be written out in an instance?
pub open spec fn inside_named(
    wasm: Seq<u8>,
    t: TypeView,
    written: Seq<TypeView>,
    found: Seq<TypeView>,
) -> bool {
    (match wasm_handle(wasm, t) {
        Some(h) => found.contains(h.1),
        None => true,
    }) && all_named(wasm, wasm_fields(wasm, t) + wasm_payload(wasm, t), written, found, true)
}

/// Can an item of an instance in an instance be written out? It has to do with
/// nothing outside of its own instance.
pub open spec fn inner_item_links(
    wasm: Seq<u8>,
    e: EntityView,
    name: Seq<char>,
    written: Seq<TypeView>,
    found: Seq<TypeView>,
) -> bool {
    match e {
        EntityView::Func(f) => all_named(wasm, wasm_func(wasm, f), written, found, true),
        EntityView::Instance(_) => !has_colon(name),
        EntityView::Type(referenced, created) => match created {
            TypeView::Resource(_) => referenced == created,
            TypeView::Defined(_) => wasm_peel(wasm, referenced) is None && inside_named(
                wasm,
                created,
                written,
                found,
            ),
            TypeView::Func(_) => all_named(wasm, wasm_func(wasm, created), written, found, true),
            _ => false,
        },
        _ => false,
    }
}

/// Can every item of an instance in an instance be written out?
pub open spec fn inner_instance_links(wasm: Seq<u8>, t: TypeView) -> bool {
    let items = wasm_instance(wasm, t);
    forall|i: int|
        0 <= i < items.len() ==> inner_item_links(
            wasm,
            #[trigger] items[i],
            wasm_instance_names(wasm, t)[i],
            made_in(wasm, t),
            firsts(resources_in(wasm, t)),
        )
}

/// The types of the instances among the first `n` of the items.
pub open spec fn nested_in(items: Seq<EntityView>, n: int) -> Seq<TypeView>
    decreases n,
{
    if n <= 0 {
        Seq::empty()
    } else {
        match items[n - 1] {
            EntityView::Instance(t) => nested_in(items, n - 1).push(t),
            _ => nested_in(items, n - 1),
        }
    }
}

/// The types of the instances that a component imports by the first `n` of the
/// names, and the types that it imports themselves.
pub open spec fn outer_types(wasm: Seq<u8>, names: Seq<Seq<char>>, n: int) -> Seq<TypeView>
    decreases n,
{
    if n <= 0 {
        Seq::empty()
    } else {
        let init = outer_types(wasm, names, n - 1);
        match wasm_extern(wasm, names[n - 1], true) {
            Some(EntityView::Instance(t)) => init.push(t),
            Some(EntityView::Type(_, created)) => init.push(created),
            _ => init,
        }
    }
}

/// Can instances in an instance be written out, and what is nested in them?
/// None is of a type that stands outside as well: that one may become an
/// interface that takes types from others.
pub open spec fn inner_links(
    wasm: Seq<u8>,
    todo: Seq<TypeView>,
    outer: Seq<TypeView>,
    steps: nat,
) -> bool
    decreases steps,
{
    if todo.len() == 0 {
        true
    } else if steps == 0 {
        false
    } else {
        let t = todo.last();
        !outer.contains(t) && inner_instance_links(wasm, t) && inner_links(
            wasm,
            todo.drop_last() + nested_in(
                wasm_instance(wasm, t),
                wasm_instance(wasm, t).len() as int,
            ),
            outer,
            (steps - 1) as nat,
        )
    }
}

/// Can an item of an instance be written out? Its functions and types speak of
/// resources only that are found by name before it in the instance. A type
/// from another instance is taken over as it is. A resource that stands for
/// another stands for one of an instance, and for none of the `strangers`, the
/// types of other instances whose names name no interface of a package.
pub open spec fn item_links(
    wasm: Seq<u8>,
    e: EntityView,
    name: Seq<char>,
    written: Seq<TypeView>,
    found: Seq<TypeView>,
    others: Seq<TypeView>,
    strangers: Seq<TypeView>,
    k: Known,
) -> bool {
    match e {
        EntityView::Func(f) => all_named(wasm, wasm_func(wasm, f), written, found, true),
        EntityView::Instance(t) => !has_colon(name) && inner_links(
            wasm,
            seq![t],
            k.outer,
            STEPS as nat,
        ),
        EntityView::Type(referenced, created) => match created {
            TypeView::Resource(_) => referenced == created || (stands_for(
                wasm,
                referenced,
                k.elsewhere,
                STEPS as nat,
            ) && !stands_for(wasm, referenced, strangers, STEPS as nat)),
            TypeView::Defined(_) => stands_for(wasm, referenced, others, STEPS as nat)
                || inside_named(wasm, created, written, found),
            TypeView::Func(_) => all_named(wasm, wasm_func(wasm, created), written, found, true),
            _ => false,
        },
        _ => false,
    }
}

/// Can an instance type be written out?
pub open spec fn instance_links(
    wasm: Seq<u8>,
    names: Seq<Seq<char>>,
    t: TypeView,
    k: Known,
) -> bool {
    let items = wasm_instance(wasm, t);
    let inside = wasm_instance_names(wasm, t);
    let others = in_instances(wasm, names, Some(t), false, names.len() as int);
    let strangers = in_instances(wasm, names, Some(t), true, names.len() as int);
    forall|i: int|
        0 <= i < items.len() ==> item_links(
            wasm,
            #[trigger] items[i],
            inside[i],
            made_in(wasm, t),
            found_among(k.all, named_in(items, inside, i), k.all.len() as int),
            others,
            strangers,
            k,
        )
}

/// Can an import that nothing feeds, and that is no instance, stay one of the
/// composition? It does not borrow, and speaks of resources only that are
/// found by name among those before it that are open as well. A resource that
/// stands for another stands for one of an instance, or for one that is open.
pub open spec fn stays(wasm: Seq<u8>, e: EntityView, k: Known) -> bool {
    match e {
        EntityView::Module(_) => true,
        EntityView::Func(f) => all_named(wasm, wasm_func(wasm, f), Seq::empty(), k.found, false),
        EntityView::Value(v) => all_named(wasm, seq![v], Seq::empty(), k.found, false),
        EntityView::Type(referenced, created) => match created {
            TypeView::Resource(_) => referenced == created || stands_for(
                wasm,
                referenced,
                k.elsewhere,
                STEPS as nat,
            ) || stands_for(wasm, referenced, k.fresh, STEPS as nat),
            TypeView::Defined(_) => all_named(
                wasm,
                seq![Some(created)],
                Seq::empty(),
                k.found,
                false,
            ),
            TypeView::Func(_) => all_named(
                wasm,
                wasm_func(wasm, created),
                Seq::empty(),
                k.found,
                false,
            ),
            _ => false,
        },
        _ => false,
    }
}

/// Does a resource that stands for another stand for none of an instance whose
/// name names no interface of a package?
pub open spec fn owner_named(wasm: Seq<u8>, e: EntityView, k: Known) -> bool {
    match e {
        EntityView::Type(referenced, created) => created is Resource && referenced != created
            ==> !stands_for(wasm, referenced, k.plain, STEPS as nat),
        _ => true,
    }
}

/// Does an import not stand in the way of a composition? An instance can be
/// written out, fed or not, since another may take a type from it.
pub open spec fn import_links(
    wasm: Seq<u8>,
    names: Seq<Seq<char>>,
    name: Seq<char>,
    fed: Set<Seq<char>>,
    k: Known,
) -> bool {
    match wasm_extern(wasm, name, true) {
        None => true,
        Some(EntityView::Instance(t)) => instance_links(wasm, names, t, k),
        Some(EntityView::Type(_, TypeView::Component(_))) => false,
        Some(EntityView::Type(_, TypeView::Instance(t))) => (fed.contains(name) || !has_colon(name))
            && instance_links(wasm, names, TypeView::Instance(t), k),
        Some(e) => owner_named(wasm, e, k) && (fed.contains(name) || (!has_colon(name) && stays(
            wasm,
            e,
            k,
        ))),
    }
}

/// The resources by which the import by the `i`-th of the names is judged.
pub open spec fn known(
    wasm: Seq<u8>,
    names: Seq<Seq<char>>,
    fed: Set<Seq<char>>,
    i: int,
) -> Known {
    let n = names.len() as int;
    let all = all_resources(wasm, names, n);
    Known {
        all,
        elsewhere: in_instances(wasm, names, None, false, n),
        plain: in_instances(wasm, names, None, true, n),
        found: found_among(all, left_open(wasm, names, fed, false, i), all.len() as int),
        fresh: firsts(left_open(wasm, names, fed, true, n)),
        outer: outer_types(wasm, names, n),
    }
}

/// Can a component be part of a composition in which these imports are fed?
pub open spec fn links(wasm: Seq<u8>, fed: Set<Seq<char>>) -> bool {
    let names = extern_names(wasm, true);
    &&& settled(wasm)
    &&& wasm_holds(wasm) ==> {
        &&& imports_open(Place { wasm, at: None }, interface(wasm, true))
        &&& forall|i: int|
            0 <= i < names.len() ==> import_links(
                wasm,
                names,
                #[trigger] names[i],
                fed,
                known(wasm, names, fed, i),
            )
    }
}

fn spread(todo: &mut Vec<Option<AnyTypeId>>, more: Vec<Option<AnyTypeId>>, t: &Types)
    requires
        all_run(old(todo)@, run_of(*t)),
        all_run(more@, run_of(*t)),
    ensures
        all_run(final(todo)@, run_of(*t)),
        maybe_views(final(todo)@) == maybe_views(old(todo)@) + maybe_views(more@),
{
    let ghost start = todo@;
    let ghost added = more@;
    let mut more = more;
    todo.append(&mut more);
    assert(todo@ =~= start + added);
    assert(maybe_views(todo@) =~= maybe_views(start) + maybe_views(added));
    assert forall|i: int| 0 <= i < todo@.len() implies defined_run(
        #[trigger] todo@[i],
        run_of(*t),
    ) by {
        if i < start.len() {
            assert(todo@[i] == start[i]);
        } else {
            assert(todo@[i] == added[i - start.len()]);
        }
    }
}

fn copies(ids: &[AnyTypeId]) -> (r: Vec<AnyTypeId>)
    ensures
        r@ == ids@,
{
    let mut r: Vec<AnyTypeId> = Vec::new();
    let mut i: usize = 0;
    while i < ids.len()
        invariant
            i <= ids@.len(),
            r@ == ids@.take(i as int),
        decreases ids.len() - i,
    {
        r.push(copied(&ids[i]));
        assert(ids@.take(i + 1) =~= ids@.take(i as int).push(ids@[i as int]));
        i += 1;
    }
    assert(ids@.take(i as int) =~= ids@);
    r
}

/// Is every resource that the types speak of a named one?
fn check_named(
    t: &Types,
    parts: Vec<Option<AnyTypeId>>,
    written: &[AnyTypeId],
    named: &[AnyTypeId],
    borrows: bool,
) -> (r: bool)
    requires
        all_run(parts@, run_of(*t)),
        types_run(written@, run_of(*t)),
        types_run(named@, run_of(*t)),
    ensures
        r == all_named(
            types_of(*t),
            maybe_views(parts@),
            type_views(written@),
            type_views(named@),
            borrows,
        ),
{
    let ghost w = types_of(*t);
    let ghost run = run_of(*t);
    let ghost ns = type_views(named@);
    let ghost ws = type_views(written@);
    let mut todo = parts;
    let mut seen = copies(written);
    let mut steps: u32 = STEPS;
    let ghost all = all_named(w, maybe_views(parts@), ws, ns, borrows);
    while todo.len() > 0
        invariant
            w == types_of(*t),
            run == run_of(*t),
            ns == type_views(named@),
            all_run(todo@, run),
            types_run(seen@, run),
            types_run(named@, run),
            ws == type_views(written@),
            all == all_named(w, maybe_views(parts@), ws, ns, borrows),
            all == handles(
                w,
                maybe_views(todo@),
                type_views(seen@),
                ns,
                borrows,
                steps as nat,
            ),
        decreases steps,
    {
        let ghost was = todo@;
        let ghost tv = maybe_views(was);
        assert(tv.len() == was.len());
        if steps == 0 {
            return false;
        }
        match todo.pop() {
            None => {},
            Some(part) => {
                proof {
                    assert(was.last() == part);
                    assert(tv.last() == maybe_view(part));
                    assert(maybe_views(todo@) =~= tv.drop_last());
                    assert(defined_run(was[was.len() - 1], run));
                }
                match part {
                    None => {},
                    Some(id) => {
                        if !one_of(&seen, &id) {
                            match handle(t, &id) {
                                None => {},
                                Some(h) => {
                                    if !one_of(named, &h.1) || (h.0 && !borrows) {
                                        return false;
                                    }
                                },
                            }
                            let ghost rest = maybe_views(todo@);
                            let more = fields(t, &id);
                            let last = payload(t, &id);
                            let ghost a = maybe_views(more@);
                            let ghost b = maybe_views(last@);
                            spread(&mut todo, more, t);
                            spread(&mut todo, last, t);
                            assert(maybe_views(todo@) =~= rest + a + b);
                            let ghost before = seen@;
                            seen.push(id);
                            assert(type_views(seen@) =~= type_views(before).push(type_view(id)));
                        }
                    },
                }
            },
        }
        steps = steps - 1;
    }
    true
}

pub(crate) fn push_made(r: &mut Vec<AnyTypeId>, t: &Types, items: &[ComponentEntityType])
    requires
        types_run(old(r)@, run_of(*t)),
        forall|i: int| 0 <= i < items@.len() ==> entity_run(#[trigger] items@[i]) == run_of(*t),
    ensures
        types_run(final(r)@, run_of(*t)),
        type_views(final(r)@) == type_views(old(r)@) + made(
            entity_views(items@),
            items@.len() as int,
        ),
{
    let ghost start = type_views(r@);
    let ghost es = entity_views(items@);
    let mut i: usize = 0;
    assert(type_views(r@) =~= start + made(es, 0));
    while i < items.len()
        invariant
            i <= items@.len(),
            start == type_views(old(r)@),
            es == entity_views(items@),
            forall|k: int| 0 <= k < items@.len() ==> entity_run(#[trigger] items@[k]) == run_of(*t),
            types_run(r@, run_of(*t)),
            type_views(r@) == start + made(es, i as int),
        decreases items.len() - i,
    {
        assert(es[i as int] == entity_view(items@[i as int]));
        match entity(&items[i]) {
            Entity::Type(_, created) => {
                let ghost before = r@;
                let ghost v = type_view(created);
                r.push(created);
                assert(type_views(r@) =~= type_views(before).push(v));
                assert(start + made(es, i + 1) =~= (start + made(es, i as int)).push(v));
            },
            _ => {},
        }
        i += 1;
    }
}

spec fn pair_views(v: Seq<(AnyTypeId, String)>) -> Seq<(TypeView, Seq<char>)> {
    v.map_values(|x: (AnyTypeId, String)| (type_view(x.0), x.1@))
}

spec fn pairs_run(v: Seq<(AnyTypeId, String)>, run: nat) -> bool {
    forall|i: int| 0 <= i < v.len() ==> type_run((#[trigger] v[i]).0) == run
}

fn push_pair(r: &mut Vec<(AnyTypeId, String)>, id: AnyTypeId, name: &str, t: &Types)
    requires
        pairs_run(old(r)@, run_of(*t)),
        type_run(id) == run_of(*t),
    ensures
        pairs_run(final(r)@, run_of(*t)),
        pair_views(final(r)@) == pair_views(old(r)@).push((type_view(id), name@)),
{
    let ghost before = r@;
    let ghost v = type_view(id);
    r.push((id, owned(name)));
    assert(pair_views(r@) =~= pair_views(before).push((v, name@)));
}

fn push_resources(r: &mut Vec<(AnyTypeId, String)>, t: &Types, id: &AnyTypeId)
    requires
        pairs_run(old(r)@, run_of(*t)),
        type_run(*id) == run_of(*t),
        type_view(*id) is Instance,
    ensures
        pairs_run(final(r)@, run_of(*t)),
        pair_views(final(r)@) == pair_views(old(r)@) + resources_in(types_of(*t), type_view(*id)),
{
    let items = instance_items(t, id);
    let names = instance_names(t, id);
    let ghost start = pair_views(r@);
    let ghost es = entity_views(items@);
    let ghost ns = views(names@);
    let mut i: usize = 0;
    assert(pair_views(r@) =~= start + named_in(es, ns, 0));
    while i < items.len()
        invariant
            i <= items@.len(),
            names@.len() == items@.len(),
            start == pair_views(old(r)@),
            es == entity_views(items@),
            ns == views(names@),
            forall|k: int| 0 <= k < items@.len() ==> entity_run(#[trigger] items@[k]) == run_of(*t),
            pairs_run(r@, run_of(*t)),
            pair_views(r@) == start + named_in(es, ns, i as int),
        decreases items.len() - i,
    {
        assert(es[i as int] == entity_view(items@[i as int]));
        assert(ns[i as int] == names@[i as int]@);
        match entity(&items[i]) {
            Entity::Type(_, created) => {
                if kind(&created) == Kind::Resource {
                    let ghost v = (type_view(created), ns[i as int]);
                    push_pair(r, created, names[i].as_str(), t);
                    assert(start + named_in(es, ns, i + 1) =~= (start + named_in(
                        es,
                        ns,
                        i as int,
                    )).push(v));
                }
            },
            _ => {},
        }
        i += 1;
    }
}

fn instances_made(t: &Types, names: &[String], but: Option<&AnyTypeId>, plain: bool) -> (r: Vec<
    AnyTypeId,
>)
    requires
        but is Some ==> type_run(*but->0) == run_of(*t),
    ensures
        types_run(r@, run_of(*t)),
        type_views(r@) == in_instances(
            types_of(*t),
            views(names@),
            but_view(but),
            plain,
            names@.len() as int,
        ),
{
    let ghost w = types_of(*t);
    let ghost ns = views(names@);
    let ghost bv = but_view(but);
    let mut r: Vec<AnyTypeId> = Vec::new();
    let mut i: usize = 0;
    assert(type_views(r@) =~= in_instances(w, ns, bv, plain, 0));
    while i < names.len()
        invariant
            i <= names@.len(),
            w == types_of(*t),
            ns == views(names@),
            bv == but_view(but),
            but is Some ==> type_run(*but->0) == run_of(*t),
            types_run(r@, run_of(*t)),
            type_views(r@) == in_instances(w, ns, bv, plain, i as int),
        decreases names.len() - i,
    {
        let name = names[i].as_str();
        assert(ns[i as int] == name@);
        match extern_of(t, name, true) {
            None => {},
            Some(e) => match entity(&e) {
                Entity::Instance(id) => {
                    let left_out = match but {
                        Some(b) => same(b, &id),
                        None => false,
                    };
                    if !left_out && (!plain || !has_text(name, ":")) {
                        let items = instance_items(t, &id);
                        push_made(&mut r, t, &items);
                    }
                },
                _ => {},
            },
        }
        i += 1;
    }
    r
}

spec fn but_view(but: Option<&AnyTypeId>) -> Option<TypeView> {
    match but {
        Some(id) => Some(type_view(*id)),
        None => None,
    }
}

fn every_resource(t: &Types, names: &[String]) -> (r: Vec<(AnyTypeId, String)>)
    ensures
        pairs_run(r@, run_of(*t)),
        pair_views(r@) == all_resources(types_of(*t), views(names@), names@.len() as int),
{
    let ghost w = types_of(*t);
    let ghost ns = views(names@);
    let mut r: Vec<(AnyTypeId, String)> = Vec::new();
    let mut i: usize = 0;
    assert(pair_views(r@) =~= all_resources(w, ns, 0));
    while i < names.len()
        invariant
            i <= names@.len(),
            w == types_of(*t),
            ns == views(names@),
            pairs_run(r@, run_of(*t)),
            pair_views(r@) == all_resources(w, ns, i as int),
        decreases names.len() - i,
    {
        let name = names[i].as_str();
        assert(ns[i as int] == name@);
        match extern_of(t, name, true) {
            None => {},
            Some(e) => match entity(&e) {
                Entity::Instance(id) => push_resources(&mut r, t, &id),
                Entity::Type(_, created) => {
                    if kind(&created) == Kind::Resource {
                        push_pair(&mut r, created, name, t);
                    }
                },
                _ => {},
            },
        }
        i += 1;
    }
    r
}

fn outer_list(t: &Types, names: &[String]) -> (r: Vec<AnyTypeId>)
    ensures
        types_run(r@, run_of(*t)),
        type_views(r@) == outer_types(types_of(*t), views(names@), names@.len() as int),
{
    let ghost w = types_of(*t);
    let ghost ns = views(names@);
    let mut r: Vec<AnyTypeId> = Vec::new();
    let mut i: usize = 0;
    assert(type_views(r@) =~= outer_types(w, ns, 0));
    while i < names.len()
        invariant
            i <= names@.len(),
            w == types_of(*t),
            ns == views(names@),
            types_run(r@, run_of(*t)),
            type_views(r@) == outer_types(w, ns, i as int),
        decreases names.len() - i,
    {
        let name = names[i].as_str();
        assert(ns[i as int] == name@);
        let ghost before = r@;
        match extern_of(t, name, true) {
            None => {},
            Some(e) => match entity(&e) {
                Entity::Instance(id) | Entity::Type(_, id) => {
                    let ghost v = type_view(id);
                    r.push(id);
                    assert(type_views(r@) =~= type_views(before).push(v));
                },
                _ => {},
            },
        }
        i += 1;
    }
    r
}

fn open_resources(t: &Types, names: &[String], fed: &[String], fresh: bool, n: usize) -> (r: Vec<
    (AnyTypeId, String),
>)
    requires
        n <= names@.len(),
    ensures
        pairs_run(r@, run_of(*t)),
        pair_views(r@) == left_open(
            types_of(*t),
            views(names@),
            views(fed@).to_set(),
            fresh,
            n as int,
        ),
{
    let ghost w = types_of(*t);
    let ghost ns = views(names@);
    let ghost set = views(fed@).to_set();
    let mut r: Vec<(AnyTypeId, String)> = Vec::new();
    let mut i: usize = 0;
    assert(pair_views(r@) =~= left_open(w, ns, set, fresh, 0));
    while i < n
        invariant
            i <= n <= names@.len(),
            w == types_of(*t),
            ns == views(names@),
            set == views(fed@).to_set(),
            pairs_run(r@, run_of(*t)),
            pair_views(r@) == left_open(w, ns, set, fresh, i as int),
        decreases n - i,
    {
        let name = names[i].as_str();
        assert(ns[i as int] == name@);
        match extern_of(t, name, true) {
            None => {},
            Some(e) => match entity(&e) {
                Entity::Type(referenced, created) => {
                    if kind(&created) == Kind::Resource && !among(fed, name) && (!fresh || same(
                        &referenced,
                        &created,
                    )) {
                        push_pair(&mut r, created, name, t);
                    }
                },
                _ => {},
            },
        }
        i += 1;
    }
    r
}

fn firsts_of(pairs: &[(AnyTypeId, String)]) -> (r: Vec<AnyTypeId>)
    ensures
        type_views(r@) == firsts(pair_views(pairs@)),
        forall|run: nat| pairs_run(pairs@, run) ==> #[trigger] types_run(r@, run),
{
    let mut r: Vec<AnyTypeId> = Vec::new();
    let mut i: usize = 0;
    while i < pairs.len()
        invariant
            i <= pairs@.len(),
            r@.len() == i,
            forall|k: int| 0 <= k < i ==> #[trigger] r@[k] == pairs@[k].0,
        decreases pairs.len() - i,
    {
        r.push(copied(&pairs[i].0));
        i += 1;
    }
    assert(type_views(r@) =~= firsts(pair_views(pairs@)));
    assert forall|run: nat| pairs_run(pairs@, run) implies #[trigger] types_run(r@, run) by {
        assert forall|k: int| 0 <= k < r@.len() implies type_run(#[trigger] r@[k]) == run by {
            assert(r@[k] == pairs@[k].0);
        }
    }
    r
}

fn named(pairs: &[(AnyTypeId, String)], name: &str) -> (r: bool)
    ensures
        r == has_name(pair_views(pairs@), name@),
{
    let ghost all = pair_views(pairs@);
    let mut i: usize = 0;
    while i < pairs.len()
        invariant
            i <= pairs@.len(),
            all == pair_views(pairs@),
            forall|k: int| 0 <= k < i ==> (#[trigger] all[k]).1 != name@,
        decreases pairs.len() - i,
    {
        assert(all[i as int].1 == pairs@[i as int].1@);
        if crate::text::same(pairs[i].1.as_str(), name) {
            return true;
        }
        i += 1;
    }
    false
}

fn find_among(t: &Types, all: &[(AnyTypeId, String)], others: &[(AnyTypeId, String)]) -> (r: Vec<
    AnyTypeId,
>)
    requires
        pairs_run(all@, run_of(*t)),
    ensures
        types_run(r@, run_of(*t)),
        type_views(r@) == found_among(
            pair_views(all@),
            pair_views(others@),
            all@.len() as int,
        ),
{
    let ghost av = pair_views(all@);
    let ghost ov = pair_views(others@);
    let mut r: Vec<AnyTypeId> = Vec::new();
    let mut i: usize = 0;
    assert(type_views(r@) =~= found_among(av, ov, 0));
    while i < all.len()
        invariant
            i <= all@.len(),
            av == pair_views(all@),
            ov == pair_views(others@),
            pairs_run(all@, run_of(*t)),
            types_run(r@, run_of(*t)),
            type_views(r@) == found_among(av, ov, i as int),
        decreases all.len() - i,
    {
        assert(av[i as int] == (type_view(all@[i as int].0), all@[i as int].1@));
        if named(others, all[i].1.as_str()) {
            let ghost before = r@;
            assert(type_run(all@[i as int].0) == run_of(*t));
            r.push(copied(&all[i].0));
            assert(type_views(r@) =~= type_views(before).push(type_view(all@[i as int].0)));
        }
        i += 1;
    }
    r
}

/// The resources by which imports are judged.
struct Lists {
    all: Vec<(AnyTypeId, String)>,
    elsewhere: Vec<AnyTypeId>,
    plain: Vec<AnyTypeId>,
    found: Vec<AnyTypeId>,
    fresh: Vec<AnyTypeId>,
    outer: Vec<AnyTypeId>,
}

spec fn lists_view(l: Lists) -> Known {
    Known {
        all: pair_views(l.all@),
        elsewhere: type_views(l.elsewhere@),
        plain: type_views(l.plain@),
        found: type_views(l.found@),
        fresh: type_views(l.fresh@),
        outer: type_views(l.outer@),
    }
}

spec fn lists_run(l: Lists, run: nat) -> bool {
    &&& pairs_run(l.all@, run)
    &&& types_run(l.elsewhere@, run)
    &&& types_run(l.plain@, run)
    &&& types_run(l.found@, run)
    &&& types_run(l.fresh@, run)
    &&& types_run(l.outer@, run)
}

fn check_inside(t: &Types, id: &AnyTypeId, written: &[AnyTypeId], found: &[AnyTypeId]) -> (r: bool)
    requires
        type_run(*id) == run_of(*t),
        type_view(*id) is Defined,
        types_run(written@, run_of(*t)),
        types_run(found@, run_of(*t)),
    ensures
        r == inside_named(
            types_of(*t),
            type_view(*id),
            type_views(written@),
            type_views(found@),
        ),
{
    match handle(t, id) {
        None => {},
        Some(h) => {
            if !one_of(found, &h.1) {
                return false;
            }
        },
    }
    let mut parts = fields(t, id);
    let last = payload(t, id);
    spread(&mut parts, last, t);
    check_named(t, parts, written, found, true)
}

fn check_inner_item(
    t: &Types,
    e: &ComponentEntityType,
    name: &str,
    written: &[AnyTypeId],
    found: &[AnyTypeId],
) -> (r: bool)
    requires
        entity_run(*e) == run_of(*t),
        types_run(written@, run_of(*t)),
        types_run(found@, run_of(*t)),
    ensures
        r == inner_item_links(
            types_of(*t),
            entity_view(*e),
            name@,
            type_views(written@),
            type_views(found@),
        ),
{
    match entity(e) {
        Entity::Func(f) => check_named(t, func_parts(t, &f), written, found, true),
        Entity::Instance(_) => !has_text(name, ":"),
        Entity::Type(referenced, created) => match kind(&created) {
            Kind::Resource => same(&referenced, &created),
            Kind::Defined => peeled(t, &referenced).is_none() && check_inside(
                t,
                &created,
                written,
                found,
            ),
            Kind::Func => check_named(t, func_parts(t, &created), written, found, true),
            _ => false,
        },
        _ => false,
    }
}

fn check_inner_instance(t: &Types, id: &AnyTypeId, items: &[ComponentEntityType]) -> (r: bool)
    requires
        type_run(*id) == run_of(*t),
        type_view(*id) is Instance,
        entity_views(items@) == wasm_instance(types_of(*t), type_view(*id)),
        forall|i: int| 0 <= i < items@.len() ==> entity_run(#[trigger] items@[i]) == run_of(*t),
    ensures
        r == inner_instance_links(types_of(*t), type_view(*id)),
{
    let ghost w = types_of(*t);
    let ghost v = type_view(*id);
    let names = instance_names(t, id);
    let ghost es = wasm_instance(w, v);
    let ghost ns = wasm_instance_names(w, v);
    assert(es.len() == items@.len());
    let mut written: Vec<AnyTypeId> = Vec::new();
    assert(type_views(written@) =~= Seq::empty());
    push_made(&mut written, t, items);
    assert(type_views(written@) =~= made_in(w, v));
    let mut local: Vec<(AnyTypeId, String)> = Vec::new();
    assert(pair_views(local@) =~= Seq::empty());
    push_resources(&mut local, t, id);
    assert(pair_views(local@) =~= resources_in(w, v));
    let found = firsts_of(&local);
    assert(types_run(found@, run_of(*t)));
    let ghost fv = firsts(resources_in(w, v));
    let mut i: usize = 0;
    while i < items.len()
        invariant
            i <= items@.len(),
            names@.len() == items@.len(),
            w == types_of(*t),
            v == type_view(*id),
            es == wasm_instance(w, v),
            es == entity_views(items@),
            ns == wasm_instance_names(w, v),
            ns == views(names@),
            fv == firsts(resources_in(w, v)),
            type_views(written@) == made_in(w, v),
            type_views(found@) == fv,
            types_run(written@, run_of(*t)),
            types_run(found@, run_of(*t)),
            forall|j: int| 0 <= j < items@.len() ==> entity_run(#[trigger] items@[j]) == run_of(*t),
            forall|j: int|
                0 <= j < i ==> inner_item_links(w, #[trigger] es[j], ns[j], made_in(w, v), fv),
        decreases items.len() - i,
    {
        assert(es[i as int] == entity_view(items@[i as int]));
        assert(ns[i as int] == names@[i as int]@);
        if !check_inner_item(t, &items[i], names[i].as_str(), &written, &found) {
            assert(!inner_item_links(w, es[i as int], ns[i as int], made_in(w, v), fv));
            return false;
        }
        i += 1;
    }
    true
}

fn push_nested(r: &mut Vec<AnyTypeId>, t: &Types, items: &[ComponentEntityType])
    requires
        types_run(old(r)@, run_of(*t)),
        forall|i: int| 0 <= i < old(r)@.len() ==> type_view(#[trigger] old(r)@[i]) is Instance,
        forall|i: int| 0 <= i < items@.len() ==> entity_run(#[trigger] items@[i]) == run_of(*t),
    ensures
        types_run(final(r)@, run_of(*t)),
        forall|i: int| 0 <= i < final(r)@.len() ==> type_view(#[trigger] final(r)@[i]) is Instance,
        type_views(final(r)@) == type_views(old(r)@) + nested_in(
            entity_views(items@),
            items@.len() as int,
        ),
{
    let ghost start = type_views(r@);
    let ghost es = entity_views(items@);
    let mut i: usize = 0;
    assert(type_views(r@) =~= start + nested_in(es, 0));
    while i < items.len()
        invariant
            i <= items@.len(),
            start == type_views(old(r)@),
            es == entity_views(items@),
            forall|k: int| 0 <= k < items@.len() ==> entity_run(#[trigger] items@[k]) == run_of(*t),
            forall|k: int| 0 <= k < r@.len() ==> type_view(#[trigger] r@[k]) is Instance,
            types_run(r@, run_of(*t)),
            type_views(r@) == start + nested_in(es, i as int),
        decreases items.len() - i,
    {
        assert(es[i as int] == entity_view(items@[i as int]));
        match entity(&items[i]) {
            Entity::Instance(id) => {
                let ghost before = r@;
                let ghost v = type_view(id);
                r.push(id);
                assert(type_views(r@) =~= type_views(before).push(v));
                assert(start + nested_in(es, i + 1) =~= (start + nested_in(es, i as int)).push(v));
            },
            _ => {},
        }
        i += 1;
    }
}

fn check_inner(t: &Types, id: AnyTypeId, outer: &[AnyTypeId]) -> (r: bool)
    requires
        type_run(id) == run_of(*t),
        types_run(outer@, run_of(*t)),
        type_view(id) is Instance,
    ensures
        r == inner_links(
            types_of(*t),
            seq![type_view(id)],
            type_views(outer@),
            STEPS as nat,
        ),
{
    let ghost w = types_of(*t);
    let ghost first = seq![type_view(id)];
    let mut todo: Vec<AnyTypeId> = Vec::new();
    todo.push(id);
    assert(type_views(todo@) =~= first);
    let mut steps: u32 = STEPS;
    while todo.len() > 0
        invariant
            w == types_of(*t),
            first == seq![type_view(id)],
            types_run(todo@, run_of(*t)),
            forall|k: int| 0 <= k < todo@.len() ==> type_view(#[trigger] todo@[k]) is Instance,
            types_run(outer@, run_of(*t)),
            inner_links(w, first, type_views(outer@), STEPS as nat) == inner_links(
                w,
                type_views(todo@),
                type_views(outer@),
                steps as nat,
            ),
        decreases steps,
    {
        let ghost was = todo@;
        let ghost tv = type_views(was);
        assert(tv.len() == was.len());
        if steps == 0 {
            return false;
        }
        match todo.pop() {
            None => {},
            Some(at) => {
                proof {
                    assert(was.last() == at);
                    assert(type_view(was[was.len() - 1]) is Instance);
                    assert(type_run(was[was.len() - 1]) == run_of(*t));
                    assert(tv.last() == type_view(at));
                    assert(type_views(todo@) =~= tv.drop_last());
                }
                if one_of(outer, &at) {
                    return false;
                }
                let items = instance_items(t, &at);
                if !check_inner_instance(t, &at, &items) {
                    return false;
                }
                assert(wasm_instance(w, type_view(at)).len() == items@.len());
                push_nested(&mut todo, t, &items);
            },
        }
        steps = steps - 1;
    }
    true
}

fn check_item(
    t: &Types,
    e: &ComponentEntityType,
    name: &str,
    written: &[AnyTypeId],
    found: &[AnyTypeId],
    others: &[AnyTypeId],
    strangers: &[AnyTypeId],
    l: &Lists,
) -> (r: bool)
    requires
        entity_run(*e) == run_of(*t),
        types_run(written@, run_of(*t)),
        types_run(found@, run_of(*t)),
        types_run(others@, run_of(*t)),
        types_run(strangers@, run_of(*t)),
        lists_run(*l, run_of(*t)),
    ensures
        r == item_links(
            types_of(*t),
            entity_view(*e),
            name@,
            type_views(written@),
            type_views(found@),
            type_views(others@),
            type_views(strangers@),
            lists_view(*l),
        ),
{
    match entity(e) {
        Entity::Func(f) => check_named(t, func_parts(t, &f), written, found, true),
        Entity::Instance(id) => !has_text(name, ":") && check_inner(t, id, &l.outer),
        Entity::Type(referenced, created) => match kind(&created) {
            Kind::Resource => same(&referenced, &created) || (traced(t, &referenced, &l.elsewhere)
                && !traced(t, &referenced, strangers)),
            Kind::Defined => traced(t, &referenced, others) || check_inside(
                t,
                &created,
                written,
                found,
            ),
            Kind::Func => check_named(t, func_parts(t, &created), written, found, true),
            _ => false,
        },
        _ => false,
    }
}

fn check_instance(t: &Types, names: &[String], id: &AnyTypeId, l: &Lists) -> (r: bool)
    requires
        type_run(*id) == run_of(*t),
        type_view(*id) is Instance,
        lists_run(*l, run_of(*t)),
    ensures
        r == instance_links(types_of(*t), views(names@), type_view(*id), lists_view(*l)),
{
    let ghost w = types_of(*t);
    let ghost v = type_view(*id);
    let ghost k = lists_view(*l);
    let items = instance_items(t, id);
    let item_names = instance_names(t, id);
    let ghost es = wasm_instance(w, v);
    let ghost ins = wasm_instance_names(w, v);
    let ghost n = k.all.len() as int;
    let mut written: Vec<AnyTypeId> = Vec::new();
    assert(type_views(written@) =~= Seq::empty());
    push_made(&mut written, t, &items);
    assert(type_views(written@) =~= made_in(w, v));
    let others = instances_made(t, names, Some(id), false);
    let ghost ov = in_instances(w, views(names@), Some(v), false, names@.len() as int);
    assert(views(names@).len() == names@.len());
    assert(type_views(others@) == ov);
    let strangers = instances_made(t, names, Some(id), true);
    let ghost sv = in_instances(w, views(names@), Some(v), true, names@.len() as int);
    assert(type_views(strangers@) == sv);
    let mut local: Vec<(AnyTypeId, String)> = Vec::new();
    assert(pair_views(local@) =~= named_in(es, ins, 0));
    let mut i: usize = 0;
    while i < items.len()
        invariant
            i <= items@.len(),
            w == types_of(*t),
            v == type_view(*id),
            es == wasm_instance(w, v),
            es == entity_views(items@),
            item_names@.len() == items@.len(),
            ins == wasm_instance_names(w, v),
            ins == views(item_names@),
            n == k.all.len(),
            ov == in_instances(w, views(names@), Some(v), false, views(names@).len() as int),
            type_views(written@) == made_in(w, v),
            type_views(others@) == ov,
            sv == in_instances(w, views(names@), Some(v), true, views(names@).len() as int),
            type_views(strangers@) == sv,
            types_run(strangers@, run_of(*t)),
            k == lists_view(*l),
            lists_run(*l, run_of(*t)),
            types_run(written@, run_of(*t)),
            types_run(others@, run_of(*t)),
            pairs_run(local@, run_of(*t)),
            pair_views(local@) == named_in(es, ins, i as int),
            forall|j: int| 0 <= j < items@.len() ==> entity_run(#[trigger] items@[j]) == run_of(*t),
            forall|j: int|
                0 <= j < i ==> item_links(
                    w,
                    #[trigger] es[j],
                    ins[j],
                    made_in(w, v),
                    found_among(k.all, named_in(es, ins, j), n),
                    ov,
                    sv,
                    k,
                ),
        decreases items.len() - i,
    {
        assert(es[i as int] == entity_view(items@[i as int]));
        assert(ins[i as int] == item_names@[i as int]@);
        let name = item_names[i].as_str();
        let found = find_among(t, &l.all, &local);
        assert(type_views(found@) == found_among(k.all, named_in(es, ins, i as int), n));
        if !check_item(t, &items[i], name, &written, &found, &others, &strangers, l) {
            assert(!item_links(
                w,
                es[i as int],
                ins[i as int],
                made_in(w, v),
                found_among(k.all, named_in(es, ins, i as int), n),
                ov,
                sv,
                k,
            ));
            return false;
        }
        match entity(&items[i]) {
            Entity::Type(_, created) => {
                if kind(&created) == Kind::Resource {
                    push_pair(&mut local, created, name, t);
                }
            },
            _ => {},
        }
        i += 1;
    }
    true
}

fn none() -> (r: Vec<AnyTypeId>)
    ensures
        type_views(r@) == Seq::<TypeView>::empty(),
        r@.len() == 0,
{
    let r: Vec<AnyTypeId> = Vec::new();
    assert(type_views(r@) =~= Seq::empty());
    r
}

fn check_stays(t: &Types, e: Entity, l: &Lists) -> (r: bool)
    requires
        of_run(e, run_of(*t)),
        lists_run(*l, run_of(*t)),
    ensures
        r == stays(types_of(*t), taken_apart(e), lists_view(*l)),
{
    match e {
        Entity::Module(_) => true,
        Entity::Func(f) => check_named(t, func_parts(t, &f), &none(), &l.found, false),
        Entity::Value(v) => {
            let ghost x = maybe_view(v);
            let mut parts: Vec<Option<AnyTypeId>> = Vec::new();
            parts.push(v);
            assert(maybe_views(parts@) =~= seq![x]);
            check_named(t, parts, &none(), &l.found, false)
        },
        Entity::Type(referenced, created) => match kind(&created) {
            Kind::Resource => same(&referenced, &created) || traced(t, &referenced, &l.elsewhere)
                || traced(t, &referenced, &l.fresh),
            Kind::Defined => {
                let ghost x = type_view(created);
                let mut parts: Vec<Option<AnyTypeId>> = Vec::new();
                parts.push(Some(created));
                assert(maybe_views(parts@) =~= seq![Some(x)]);
                check_named(t, parts, &none(), &l.found, false)
            },
            Kind::Func => check_named(t, func_parts(t, &created), &none(), &l.found, false),
            _ => false,
        },
        _ => false,
    }
}

fn check_import(t: &Types, names: &[String], name: &str, fed: &[String], l: &Lists) -> (r: bool)
    requires
        lists_run(*l, run_of(*t)),
    ensures
        r == import_links(
            types_of(*t),
            views(names@),
            name@,
            views(fed@).to_set(),
            lists_view(*l),
        ),
{
    match extern_of(t, name, true) {
        None => true,
        Some(e) => match entity(&e) {
            Entity::Instance(id) => check_instance(t, names, &id, l),
            Entity::Type(referenced, created) => match kind(&created) {
                Kind::Component => false,
                Kind::Instance => (among(fed, name) || !has_text(name, ":")) && check_instance(
                    t,
                    names,
                    &created,
                    l,
                ),
                Kind::Resource => (same(&referenced, &created) || !traced(
                    t,
                    &referenced,
                    &l.plain,
                )) && (among(fed, name) || (!has_text(name, ":") && check_stays(
                    t,
                    Entity::Type(referenced, created),
                    l,
                ))),
                _ => among(fed, name) || (!has_text(name, ":") && check_stays(
                    t,
                    Entity::Type(referenced, created),
                    l,
                )),
            },
            other => among(fed, name) || (!has_text(name, ":") && check_stays(t, other, l)),
        },
    }
}

/// Can a component be part of a composition in which these imports are fed?
pub fn check_links(wasm: &[u8], fed: &[String]) -> (r: bool)
    ensures
        r == links(wasm@, views(fed@).to_set()),
{
    if !check_settled(wasm) {
        return false;
    }
    match typed(wasm) {
        None => true,
        Some(t) => {
            let names = extern_list(wasm, true);
            let imports = extern_items(&t, &names, true);
            if !check_imports(&Source::Whole(&t), &imports) {
                return false;
            }
            let ghost ns = extern_names(wasm@, true);
            let ghost set = views(fed@).to_set();
            assert(ns.len() == names@.len());
            let fresh = open_resources(&t, &names, fed, true, names.len());
            let mut l = Lists {
                all: every_resource(&t, &names),
                elsewhere: instances_made(&t, &names, None, false),
                plain: instances_made(&t, &names, None, true),
                found: Vec::new(),
                fresh: firsts_of(&fresh),
                outer: outer_list(&t, &names),
            };
            let ghost start = lists_view(l);
            let mut i: usize = 0;
            while i < names.len()
                invariant
                    i <= names@.len(),
                    settled(wasm@),
                    wasm_holds(wasm@),
                    imports_open(Place { wasm: wasm@, at: None }, interface(wasm@, true)),
                    ns == extern_names(wasm@, true),
                    ns == views(names@),
                    ns.len() == names@.len(),
                    set == views(fed@).to_set(),
                    types_of(t) == wasm@,
                    lists_run(l, run_of(t)),
                    lists_view(l) == (Known { found: lists_view(l).found, ..start }),
                    start.all == all_resources(wasm@, ns, ns.len() as int),
                    start.elsewhere == in_instances(wasm@, ns, None, false, ns.len() as int),
                    start.plain == in_instances(wasm@, ns, None, true, ns.len() as int),
                    start.fresh == firsts(left_open(wasm@, ns, set, true, ns.len() as int)),
                    start.outer == outer_types(wasm@, ns, ns.len() as int),
                    forall|k: int|
                        0 <= k < i ==> import_links(
                            wasm@,
                            ns,
                            #[trigger] ns[k],
                            set,
                            known(wasm@, ns, set, k),
                        ),
                decreases names.len() - i,
            {
                assert(ns[i as int] == names@[i as int]@);
                let open = open_resources(&t, &names, fed, false, i);
                l.found = find_among(&t, &l.all, &open);
                assert(pair_views(l.all@).len() == l.all@.len());
                assert(lists_view(l) == known(wasm@, ns, set, i as int));
                if !check_import(&t, &names, names[i].as_str(), fed, &l) {
                    assert(!import_links(
                        wasm@,
                        ns,
                        ns[i as int],
                        set,
                        known(wasm@, ns, set, i as int),
                    ));
                    return false;
                }
                i += 1;
            }
            assert(ns.len() == names@.len());
            true
        },
    }
}

proof fn lemma_kept_so_far<A, B>(s: Seq<A>, p: spec_fn(A) -> bool, f: spec_fn(A) -> B, n: int)
    requires
        0 <= n <= s.len(),
    ensures
        n == 0 ==> s.take(n).filter(p).map_values(f) == Seq::<B>::empty(),
        n > 0 ==> s.take(n).filter(p).map_values(f) == if p(s[n - 1]) {
            s.take(n - 1).filter(p).map_values(f).push(f(s[n - 1]))
        } else {
            s.take(n - 1).filter(p).map_values(f)
        },
{
    reveal(Seq::filter);
    if n > 0 {
        assert(s.take(n).drop_last() =~= s.take(n - 1));
        assert(s.take(n).last() == s[n - 1]);
        if p(s[n - 1]) {
            assert(s.take(n - 1).filter(p).push(s[n - 1]).map_values(f) =~= s.take(n - 1).filter(
                p,
            ).map_values(f).push(f(s[n - 1])));
        }
    } else {
        assert(s.take(n).filter(p).map_values(f) =~= Seq::<B>::empty());
    }
}

proof fn lemma_collected(
    items: Seq<EntityView>,
    all: Seq<(TypeView, Seq<char>)>,
    others: Seq<(TypeView, Seq<char>)>,
    n: int,
    k: int,
)
    requires
        0 <= n <= items.len(),
        0 <= k <= all.len(),
    ensures
        made(items, n) == items.take(n).filter(|e: EntityView| e is Type).map_values(
            |e: EntityView| e->Type_1,
        ),
        nested_in(items, n) == items.take(n).filter(|e: EntityView| e is Instance).map_values(
            |e: EntityView| e->Instance_0,
        ),
        found_among(all, others, k) == all.take(k).filter(
            |x: (TypeView, Seq<char>)| has_name(others, x.1),
        ).map_values(|x: (TypeView, Seq<char>)| x.0),
    decreases n + k,
{
    let t = |e: EntityView| e is Type;
    let tf = |e: EntityView| e->Type_1;
    let i = |e: EntityView| e is Instance;
    let inst = |e: EntityView| e->Instance_0;
    let h = |x: (TypeView, Seq<char>)| has_name(others, x.1);
    let hf = |x: (TypeView, Seq<char>)| x.0;
    lemma_kept_so_far(items, t, tf, n);
    lemma_kept_so_far(items, i, inst, n);
    lemma_kept_so_far(all, h, hf, k);
    if n > 0 {
        lemma_collected(items, all, others, n - 1, k);
    } else if k > 0 {
        lemma_collected(items, all, others, n, k - 1);
    }
}

/// What is made in a list of items are the types that it declares, what is
/// nested in it are its instances, and what is found among pairs are those
/// that another list names too: each in order.
pub proof fn law_collected(
    items: Seq<EntityView>,
    all: Seq<(TypeView, Seq<char>)>,
    others: Seq<(TypeView, Seq<char>)>,
)
    ensures
        made(items, items.len() as int) == items.filter(|e: EntityView| e is Type).map_values(
            |e: EntityView| e->Type_1,
        ),
        nested_in(items, items.len() as int) == items.filter(
            |e: EntityView| e is Instance,
        ).map_values(|e: EntityView| e->Instance_0),
        found_among(all, others, all.len() as int) == all.filter(
            |x: (TypeView, Seq<char>)| has_name(others, x.1),
        ).map_values(|x: (TypeView, Seq<char>)| x.0),
{
    lemma_collected(items, all, others, items.len() as int, all.len() as int);
    assert(items.take(items.len() as int) =~= items);
    assert(all.take(all.len() as int) =~= all);
}

} // verus!
