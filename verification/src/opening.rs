//! Which instantiations can be validated.
//!
//! Validating an instantiation notes, for every type that the component
//! imports, the type that it is given. It gives up where a type comes up
//! twice. It goes on with the imports and exports of a component that is an
//! argument itself, which is not looked into here: no component is among the
//! imports of another that is instantiated.

use vstd::prelude::*;
use wasmparser::component_types::{AnyTypeId, ComponentEntityType};
use wasmparser::types::Types;
use wasmparser::{
    ComponentInstance, ComponentTypeRef, Parser, Payload, TypeBounds, Validator, WasmFeatures,
};

use crate::shape::{
    copied, entity, entity_run, entity_view, entity_views, instance_items, kind, of_run, one_of,
    run_of, taken_apart, type_run, type_view, type_views, types_of, types_run, wasm_instance,
    Entity, EntityView, Kind, TypeView, STEPS,
};

verus! {

/// `wasmparser::Validator`: a validation that has come some way.
#[verifier::external_type_specification]
#[verifier::external_body]
pub struct ExValidator(wasmparser::Validator);

/// What a section makes validating compare types for.
pub enum Step {
    /// Instances: the component that each instantiates, by its index. A bundle
    /// of items instantiates none.
    Instances(Vec<Option<u32>>),
    /// Exports: the type that each is declared to have, by its index, where it
    /// may be one that speaks of components.
    Exports(Vec<Option<u32>>),
    Other,
}

/// A [`Step`] over sequences.
pub enum StepView {
    Instances(Seq<Option<u32>>),
    Exports(Seq<Option<u32>>),
    Other,
}

/// A [`Step`] over sequences.
pub open spec fn step_view(s: Step) -> StepView {
    match s {
        Step::Instances(v) => StepView::Instances(v@),
        Step::Exports(v) => StepView::Exports(v@),
        Step::Other => StepView::Other,
    }
}

/// [`Step`]s over sequences.
pub open spec fn step_views(s: Seq<Step>) -> Seq<StepView> {
    s.map_values(|x: Step| step_view(x))
}

/// The steps of a binary, one for each section or other piece.
pub uninterp spec fn wasm_steps(wasm: Seq<u8>) -> Seq<StepView>;

/// Do the first `n` pieces of a binary hold up?
pub uninterp spec fn wasm_begins(wasm: Seq<u8>, n: nat) -> bool;

/// The binary that a validation is of, and how many pieces it has seen.
pub uninterp spec fn begun_of(v: Validator) -> (Seq<u8>, nat);

/// Which validation it is.
pub uninterp spec fn begun_run(v: Validator) -> nat;

/// How many components there are after the first `n` pieces.
pub uninterp spec fn wasm_begun_components(wasm: Seq<u8>, n: nat) -> u32;

/// What the component of that index imports.
pub uninterp spec fn wasm_begun_imports(wasm: Seq<u8>, n: nat, index: u32) -> Seq<EntityView>;

/// How many types there are after the first `n` pieces.
pub uninterp spec fn wasm_begun_types(wasm: Seq<u8>, n: nat) -> u32;

/// The type of that index.
pub uninterp spec fn wasm_begun_type(wasm: Seq<u8>, n: nat, index: u32) -> TypeView;

/// What the instances of a type export.
pub uninterp spec fn wasm_begun_instance(wasm: Seq<u8>, n: nat, t: TypeView) -> Seq<EntityView>;

/// The payloads that `wasmparser::Parser::parse_all` yields, with what the
/// component instance and export sections say up to where they can be read.
#[verifier::external_body]
fn steps_of(wasm: &[u8]) -> (r: Vec<Step>)
    ensures
        step_views(r@) == wasm_steps(wasm@),
{
    Parser::new(0).parse_all(wasm).map(|p| match p {
        Ok(Payload::ComponentInstanceSection(s)) => {
            Step::Instances(s.into_iter().flatten().map(|i| match i {
                ComponentInstance::Instantiate { component_index, .. } => Some(component_index),
                ComponentInstance::FromExports(_) => None,
            }).collect())
        },
        Ok(Payload::ComponentExportSection(s)) => {
            Step::Exports(s.into_iter().flatten().map(|e| match e.ty? {
                ComponentTypeRef::Component(i) | ComponentTypeRef::Instance(i) => Some(i),
                ComponentTypeRef::Type(TypeBounds::Eq(i)) => Some(i),
                _ => None }).collect())
        },
        _ => Step::Other,
    }).collect()
}

/// `wasmparser::Validator::payload` on the first `n` payloads that
/// `wasmparser::Parser::parse_all` yields, with every proposal switched on.
#[verifier::external_body]
fn advanced(wasm: &[u8], n: usize) -> (r: Option<Validator>)
    requires
        forall|k: int| 0 <= k < n ==> #[trigger] step_opens(wasm@, k),
    ensures
        match r {
            Some(v) => wasm_begins(wasm@, n as nat) && begun_of(v) == (wasm@, n as nat),
            None => !wasm_begins(wasm@, n as nat),
        },
{
    let mut v = Validator::new_with_features(WasmFeatures::all());
    let all = Parser::new(0).parse_all(wasm).take(n).try_for_each(|p| v.payload(&p?).map(|_| ()));
    all.ok().map(|_| v)
}

/// `TypesRef::component_count` of the component that is being validated.
#[verifier::external_body]
fn components(v: &Validator) -> (r: u32)
    ensures
        r == wasm_begun_components(begun_of(*v).0, begun_of(*v).1),
{
    v.types(0).map_or(0, |t| t.component_count())
}

/// `TypesRef::component_at`, and the imports of that component.
#[verifier::external_body]
fn component_imports(v: &Validator, index: u32) -> (r: Vec<ComponentEntityType>)
    requires
        index < wasm_begun_components(begun_of(*v).0, begun_of(*v).1),
    ensures
        entity_views(r@) == wasm_begun_imports(begun_of(*v).0, begun_of(*v).1, index),
        forall|i: int| 0 <= i < r@.len() ==> entity_run(#[trigger] r@[i]) == begun_run(*v),
{
    v.types(0).map_or(Vec::new(), |t| t[t.component_at(index)].imports.values().copied().collect())
}

/// `TypesRef::component_type_count` of the component that is being validated.
#[verifier::external_body]
fn types(v: &Validator) -> (r: u32)
    ensures
        r == wasm_begun_types(begun_of(*v).0, begun_of(*v).1),
{
    v.types(0).map_or(0, |t| t.component_type_count())
}

/// `TypesRef::component_any_type_at`.
#[verifier::external_body]
fn type_at(v: &Validator, index: u32) -> (r: Option<AnyTypeId>)
    requires
        index < wasm_begun_types(begun_of(*v).0, begun_of(*v).1),
    ensures
        r is Some,
        type_view(r->0) == wasm_begun_type(begun_of(*v).0, begun_of(*v).1, index),
        type_run(r->0) == begun_run(*v),
{
    v.types(0).map(|t| t.component_any_type_at(index).into())
}

/// The exports of a `ComponentInstanceType` of a validation under way.
#[verifier::external_body]
fn begun_items(v: &Validator, id: &AnyTypeId) -> (r: Vec<ComponentEntityType>)
    requires
        type_run(*id) == begun_run(*v),
        type_view(*id) is Instance,
    ensures
        entity_views(r@) == wasm_begun_instance(begun_of(*v).0, begun_of(*v).1, type_view(*id)),
        forall|i: int| 0 <= i < r@.len() ==> entity_run(#[trigger] r@[i]) == begun_run(*v),
{
    let id = id.unwrap_component_instance_type();
    v.types(0).map_or(Vec::new(), |t| t[id].exports.values().copied().collect())
}

/// Types, those of a whole binary or those after its first pieces.
#[verifier::ext_equal]
pub struct Place {
    pub wasm: Seq<u8>,
    pub at: Option<nat>,
}

/// What the instances of a type export.
pub open spec fn items_at(p: Place, t: TypeView) -> Seq<EntityView> {
    match p.at {
        Some(n) => wasm_begun_instance(p.wasm, n, t),
        None => wasm_instance(p.wasm, t),
    }
}

/// Items, each with whether its types are noted.
pub open spec fn noted(items: Seq<EntityView>, notes: bool) -> Seq<(EntityView, bool)> {
    items.map_values(|e: EntityView| (e, notes))
}

/// Does no type come up twice among those that are noted, and no component at
/// all?
pub open spec fn opens(
    p: Place,
    todo: Seq<(EntityView, bool)>,
    made: Seq<TypeView>,
    steps: nat,
) -> bool
    decreases steps,
{
    if todo.len() == 0 {
        true
    } else if steps == 0 {
        false
    } else {
        let rest = todo.drop_last();
        let notes = todo.last().1;
        let fewer = (steps - 1) as nat;
        match todo.last().0 {
            EntityView::Component(_) => false,
            EntityView::Instance(t) => opens(p, rest + noted(items_at(p, t), notes), made, fewer),
            EntityView::Type(_, created) => if created is Component || (notes && made.contains(
                created,
            )) {
                false
            } else {
                opens(
                    p,
                    if created is Instance {
                        rest + noted(items_at(p, created), false)
                    } else {
                        rest
                    },
                    if notes {
                        made.push(created)
                    } else {
                        made
                    },
                    fewer,
                )
            },
            _ => opens(p, rest, made, fewer),
        }
    }
}

/// Can a component with these imports be instantiated?
pub open spec fn imports_open(p: Place, imports: Seq<EntityView>) -> bool {
    opens(p, noted(imports, true), Seq::empty(), STEPS as nat)
}

/// Does a type speak of no component?
pub open spec fn type_opens(p: Place, t: TypeView) -> bool {
    opens(p, seq![(EntityView::Type(t, t), false)], Seq::empty(), STEPS as nat)
}

/// Can the component of that index be instantiated after `n` pieces? What is
/// no component is refused cleanly.
pub open spec fn index_opens(wasm: Seq<u8>, n: nat, index: Option<u32>) -> bool {
    index is Some && index->0 < wasm_begun_components(wasm, n) ==> imports_open(
        Place { wasm, at: Some(n) },
        wasm_begun_imports(wasm, n, index->0),
    )
}

/// Is the type of that index, after `n` pieces, one that speaks of no
/// component?
pub open spec fn declared_opens(wasm: Seq<u8>, n: nat, index: Option<u32>) -> bool {
    index is Some ==> index->0 < wasm_begun_types(wasm, n) && type_opens(
        Place { wasm, at: Some(n) },
        wasm_begun_type(wasm, n, index->0),
    )
}

/// Can the piece after the first `n` be validated?
pub open spec fn step_opens(wasm: Seq<u8>, n: int) -> bool {
    wasm_begins(wasm, n as nat) ==> match wasm_steps(wasm)[n] {
        StepView::Instances(v) => forall|i: int|
            0 <= i < v.len() ==> index_opens(wasm, n as nat, #[trigger] v[i]),
        StepView::Exports(v) => forall|i: int|
            0 <= i < v.len() ==> declared_opens(wasm, n as nat, #[trigger] v[i]),
        StepView::Other => true,
    }
}

/// Can a binary be validated?
pub open spec fn settled(wasm: Seq<u8>) -> bool {
    forall|n: int| 0 <= n < wasm_steps(wasm).len() ==> #[trigger] step_opens(wasm, n)
}

/// Where types are looked up.
pub(crate) enum Source<'a> {
    Whole(&'a Types),
    Begun(&'a Validator),
}

/// The types of a source.
pub(crate) open spec fn place_of(s: Source) -> Place {
    match s {
        Source::Whole(t) => Place { wasm: types_of(*t), at: None },
        Source::Begun(v) => Place { wasm: begun_of(*v).0, at: Some(begun_of(*v).1) },
    }
}

/// Which validation a source comes from.
pub(crate) open spec fn source_run(s: Source) -> nat {
    match s {
        Source::Whole(t) => run_of(*t),
        Source::Begun(v) => begun_run(*v),
    }
}

fn source_items(s: &Source, id: &AnyTypeId) -> (r: Vec<ComponentEntityType>)
    requires
        type_run(*id) == source_run(*s),
        type_view(*id) is Instance,
    ensures
        entity_views(r@) == items_at(place_of(*s), type_view(*id)),
        forall|i: int| 0 <= i < r@.len() ==> entity_run(#[trigger] r@[i]) == source_run(*s),
{
    match s {
        Source::Whole(t) => instance_items(t, id),
        Source::Begun(v) => begun_items(v, id),
    }
}

spec fn todo_view(todo: Seq<(Entity, bool)>) -> Seq<(EntityView, bool)> {
    todo.map_values(|x: (Entity, bool)| (taken_apart(x.0), x.1))
}

spec fn todo_run(todo: Seq<(Entity, bool)>, run: nat) -> bool {
    forall|i: int| 0 <= i < todo.len() ==> of_run((#[trigger] todo[i]).0, run)
}

fn note(todo: &mut Vec<(Entity, bool)>, s: &Source, items: &[ComponentEntityType], notes: bool)
    requires
        todo_run(old(todo)@, source_run(*s)),
        forall|i: int| 0 <= i < items@.len() ==> entity_run(#[trigger] items@[i]) == source_run(*s),
    ensures
        todo_run(final(todo)@, source_run(*s)),
        todo_view(final(todo)@) == todo_view(old(todo)@) + noted(entity_views(items@), notes),
{
    let ghost run = source_run(*s);
    let ghost start = todo_view(todo@);
    let ghost all = noted(entity_views(items@), notes);
    let mut i: usize = 0;
    assert(todo_view(todo@) =~= start + all.subrange(0, 0));
    while i < items.len()
        invariant
            i <= items@.len(),
            start == todo_view(old(todo)@),
            all == noted(entity_views(items@), notes),
            forall|k: int| 0 <= k < items@.len() ==> entity_run(#[trigger] items@[k]) == run,
            todo_run(todo@, run),
            todo_view(todo@) == start + all.subrange(0, i as int),
        decreases items.len() - i,
    {
        let ghost before = todo@;
        let e = entity(&items[i]);
        assert(entity_run(items@[i as int]) == run);
        assert(all[i as int] == (taken_apart(e), notes)) by {
            assert(entity_views(items@)[i as int] == entity_view(items@[i as int]));
        }
        todo.push((e, notes));
        assert(todo_view(todo@) =~= todo_view(before).push((taken_apart(e), notes)));
        assert(all.subrange(0, i + 1) =~= all.subrange(0, i as int).push(all[i as int]));
        i += 1;
    }
    assert(all.subrange(0, i as int) =~= all);
}

fn check_opens(s: &Source, start: Vec<(Entity, bool)>) -> (r: bool)
    requires
        todo_run(start@, source_run(*s)),
    ensures
        r == opens(place_of(*s), todo_view(start@), Seq::empty(), STEPS as nat),
{
    let ghost p = place_of(*s);
    let ghost run = source_run(*s);
    let mut todo = start;
    let mut made: Vec<AnyTypeId> = Vec::new();
    let mut steps: u32 = STEPS;
    let ghost all = opens(p, todo_view(start@), Seq::empty(), STEPS as nat);
    assert(type_views(made@) =~= Seq::empty());
    while todo.len() > 0
        invariant
            p == place_of(*s),
            run == source_run(*s),
            todo_run(todo@, run),
            types_run(made@, run),
            all == opens(p, todo_view(start@), Seq::empty(), STEPS as nat),
            all == opens(p, todo_view(todo@), type_views(made@), steps as nat),
        decreases steps,
    {
        let ghost was = todo@;
        let ghost tv = todo_view(was);
        assert(tv.len() == was.len());
        if steps == 0 {
            return false;
        }
        match todo.pop() {
            None => {},
            Some((e, notes)) => {
                proof {
                    assert(was.last() == (e, notes));
                    assert(tv.last() == (taken_apart(e), notes));
                    assert(todo_view(todo@) =~= tv.drop_last());
                    assert(of_run(e, run));
                }
                match e {
                    Entity::Module(_) => {},
                    Entity::Func(_) => {},
                    Entity::Value(_) => {},
                    Entity::Component(_) => {
                        return false;
                    },
                    Entity::Instance(id) => {
                        let items = source_items(s, &id);
                        note(&mut todo, s, &items, notes);
                    },
                    Entity::Type(_, created) => {
                        let what = kind(&created);
                        if what == Kind::Component {
                            return false;
                        }
                        if notes && one_of(&made, &created) {
                            return false;
                        }
                        if what == Kind::Instance {
                            let items = source_items(s, &created);
                            note(&mut todo, s, &items, false);
                        }
                        if notes {
                            let ghost before = made@;
                            let ghost v = type_view(created);
                            made.push(created);
                            assert(type_views(made@) =~= type_views(before).push(v));
                        }
                    },
                }
            },
        }
        steps = steps - 1;
    }
    true
}

/// Can a component with these imports be instantiated?
pub(crate) fn check_imports(s: &Source, imports: &[ComponentEntityType]) -> (r: bool)
    requires
        forall|i: int|
            0 <= i < imports@.len() ==> entity_run(#[trigger] imports@[i]) == source_run(*s),
    ensures
        r == imports_open(place_of(*s), entity_views(imports@)),
{
    let mut todo: Vec<(Entity, bool)> = Vec::new();
    assert(todo_view(todo@) =~= Seq::empty());
    note(&mut todo, s, imports, true);
    assert(todo_view(todo@) =~= noted(entity_views(imports@), true));
    check_opens(s, todo)
}

fn check_type(s: &Source, id: AnyTypeId) -> (r: bool)
    requires
        type_run(id) == source_run(*s),
    ensures
        r == type_opens(place_of(*s), type_view(id)),
{
    let mut todo: Vec<(Entity, bool)> = Vec::new();
    let ghost t = type_view(id);
    let twin = copied(&id);
    todo.push((Entity::Type(twin, id), false));
    assert(todo_view(todo@) =~= seq![(EntityView::Type(t, t), false)]);
    check_opens(s, todo)
}

fn check_indexes(v: &Validator, indexes: &[Option<u32>]) -> (r: bool)
    ensures
        r == forall|i: int|
            0 <= i < indexes@.len() ==> index_opens(
                begun_of(*v).0,
                begun_of(*v).1,
                #[trigger] indexes@[i],
            ),
{
    let ghost w = begun_of(*v).0;
    let ghost n = begun_of(*v).1;
    let s = Source::Begun(v);
    let count = components(v);
    let mut i: usize = 0;
    while i < indexes.len()
        invariant
            i <= indexes@.len(),
            w == begun_of(*v).0,
            n == begun_of(*v).1,
            s == Source::Begun(v),
            count == wasm_begun_components(w, n),
            forall|k: int| 0 <= k < i ==> index_opens(w, n, #[trigger] indexes@[k]),
        decreases indexes.len() - i,
    {
        match indexes[i] {
            None => {},
            Some(index) => {
                if index < count {
                    let imports = component_imports(v, index);
                    if !check_imports(&s, &imports) {
                        assert(!index_opens(w, n, indexes@[i as int]));
                        return false;
                    }
                }
            },
        }
        assert(index_opens(w, n, indexes@[i as int]));
        i += 1;
    }
    true
}

fn check_declared(v: &Validator, indexes: &[Option<u32>]) -> (r: bool)
    ensures
        r == forall|i: int|
            0 <= i < indexes@.len() ==> declared_opens(
                begun_of(*v).0,
                begun_of(*v).1,
                #[trigger] indexes@[i],
            ),
{
    let ghost w = begun_of(*v).0;
    let ghost n = begun_of(*v).1;
    let s = Source::Begun(v);
    let count = types(v);
    let mut i: usize = 0;
    while i < indexes.len()
        invariant
            i <= indexes@.len(),
            w == begun_of(*v).0,
            n == begun_of(*v).1,
            s == Source::Begun(v),
            count == wasm_begun_types(w, n),
            forall|k: int| 0 <= k < i ==> declared_opens(w, n, #[trigger] indexes@[k]),
        decreases indexes.len() - i,
    {
        match indexes[i] {
            None => {},
            Some(index) => {
                if index >= count {
                    assert(!declared_opens(w, n, indexes@[i as int]));
                    return false;
                }
                match type_at(v, index) {
                    None => {
                        assert(false);
                    },
                    Some(id) => {
                        if !check_type(&s, id) {
                            assert(!declared_opens(w, n, indexes@[i as int]));
                            return false;
                        }
                    },
                }
            },
        }
        assert(declared_opens(w, n, indexes@[i as int]));
        i += 1;
    }
    true
}

fn any(indexes: &[Option<u32>]) -> (r: bool)
    ensures
        !r ==> forall|i: int| 0 <= i < indexes@.len() ==> (#[trigger] indexes@[i]) is None,
{
    let mut i: usize = 0;
    while i < indexes.len()
        invariant
            i <= indexes@.len(),
            forall|k: int| 0 <= k < i ==> (#[trigger] indexes@[k]) is None,
        decreases indexes.len() - i,
    {
        if indexes[i].is_some() {
            return true;
        }
        i += 1;
    }
    false
}

/// Can a binary be validated?
pub fn check_settled(wasm: &[u8]) -> (r: bool)
    ensures
        r == settled(wasm@),
{
    let steps = steps_of(wasm);
    let ghost ss = wasm_steps(wasm@);
    let mut n: usize = 0;
    while n < steps.len()
        invariant
            n <= steps@.len(),
            ss == wasm_steps(wasm@),
            ss == step_views(steps@),
            forall|k: int| 0 <= k < n ==> #[trigger] step_opens(wasm@, k),
        decreases steps.len() - n,
    {
        assert(ss[n as int] == step_view(steps@[n as int]));
        match &steps[n] {
            Step::Other => {},
            Step::Instances(indexes) => match advanced(wasm, n) {
                None => {},
                Some(v) => {
                    if !check_indexes(&v, indexes) {
                        proof {
                            let i = choose|i: int|
                                0 <= i < indexes@.len() && !index_opens(
                                    wasm@,
                                    n as nat,
                                    #[trigger] indexes@[i],
                                );
                            assert(ss[n as int]->Instances_0[i] == indexes@[i]);
                            assert(!step_opens(wasm@, n as int));
                        }
                        return false;
                    }
                },
            },
            Step::Exports(indexes) => {
                if any(indexes) {
                    match advanced(wasm, n) {
                        None => {},
                        Some(v) => {
                            if !check_declared(&v, indexes) {
                                proof {
                                    let i = choose|i: int|
                                        0 <= i < indexes@.len() && !declared_opens(
                                            wasm@,
                                            n as nat,
                                            #[trigger] indexes@[i],
                                        );
                                    assert(ss[n as int]->Exports_0[i] == indexes@[i]);
                                    assert(!step_opens(wasm@, n as int));
                                }
                                return false;
                            }
                        },
                    }
                }
            },
        }
        assert(step_opens(wasm@, n as int));
        n += 1;
    }
    assert(ss.len() == steps@.len());
    true
}

} // verus!
