//! What a component shows at its interface, as far as composing it depends on
//! that.
//!
//! Types are told apart by the numbers that validating gives them; what comes
//! from one validation is only compared with what comes from the same.

use vstd::prelude::*;
use wasmparser::component_types::ComponentEntityType as Outer;
use wasmparser::component_types::{
    AnyTypeId, ComponentAnyTypeId, ComponentCoreTypeId, ComponentDefinedType, ComponentEntityType,
    ComponentValType,
};
use wasmparser::names::ComponentName;
use wasmparser::types::{EntityType, Types};
use wasmparser::{HeapType, Parser, Payload, ValType, ValidPayload, Validator, WasmFeatures};

use crate::opening::settled;
use crate::text::{owned, views};

verus! {

// ---------------------------------------------------------------------
// What validating finds out
// ---------------------------------------------------------------------

/// `wasmparser::types::Types`: what validating a binary found out about its
/// types.
#[verifier::external_type_specification]
#[verifier::external_body]
pub struct ExTypes(wasmparser::types::Types);

/// `wasmparser::component_types::AnyTypeId`: which type.
#[verifier::external_type_specification]
#[verifier::external_body]
pub struct ExAnyTypeId(wasmparser::component_types::AnyTypeId);

/// `wasmparser::component_types::ComponentEntityType`: what an import or
/// export is.
#[verifier::external_type_specification]
#[verifier::external_body]
pub struct ExComponentEntityType(wasmparser::component_types::ComponentEntityType);

/// A type: what it is a type of, and its number among those of its binary.
pub enum TypeView {
    Core(nat),
    Module(nat),
    Resource(nat),
    Defined(nat),
    Func(nat),
    Instance(nat),
    Component(nat),
}

/// An import or export. A type has the type that it stands for first, and the
/// one that it makes second; they are one where it stands for nothing else.
pub enum EntityView {
    Module(TypeView),
    Func(TypeView),
    Value(Option<TypeView>),
    Type(TypeView, TypeView),
    Instance(TypeView),
    Component(TypeView),
}

/// The sections that matter here, and where a binary begins and ends.
pub enum SectionView {
    Start,
    End,
    Imports(Seq<Seq<char>>),
    Exports(Seq<Seq<char>>),
    Other,
}

/// The binary that types are of.
pub uninterp spec fn types_of(t: Types) -> Seq<u8>;

/// Which validation types come from.
pub uninterp spec fn run_of(t: Types) -> nat;

/// Which validation a type comes from.
pub uninterp spec fn type_run(id: AnyTypeId) -> nat;

/// What a type is a type of, and its number.
pub uninterp spec fn type_view(id: AnyTypeId) -> TypeView;

/// Which validation an import or export comes from.
pub uninterp spec fn entity_run(e: ComponentEntityType) -> nat;

/// What an import or export is.
pub uninterp spec fn entity_view(e: ComponentEntityType) -> EntityView;

/// Do the sections of a binary hold up, its function bodies aside?
pub uninterp spec fn wasm_holds(wasm: Seq<u8>) -> bool;

/// The sections of a binary in order, those of nested binaries between where
/// these begin and end.
pub uninterp spec fn wasm_sections(wasm: Seq<u8>) -> Seq<SectionView>;

/// What a component imports or exports by a name, if anything.
pub uninterp spec fn wasm_extern(wasm: Seq<u8>, name: Seq<char>, imported: bool) -> Option<
    EntityView,
>;

/// What the instances of a type export.
pub uninterp spec fn wasm_instance(wasm: Seq<u8>, t: TypeView) -> Seq<EntityView>;

/// The names of what the instances of a type export.
pub uninterp spec fn wasm_instance_names(wasm: Seq<u8>, t: TypeView) -> Seq<Seq<char>>;

/// What the components of a type import, and what they export.
pub uninterp spec fn wasm_component(wasm: Seq<u8>, t: TypeView) -> (
    Seq<EntityView>,
    Seq<EntityView>,
);

/// The names of what the components of a type export.
pub uninterp spec fn wasm_component_names(wasm: Seq<u8>, t: TypeView) -> Seq<Seq<char>>;

/// The types of the parameters and of the result of a function type; a
/// primitive type is none.
pub uninterp spec fn wasm_func(wasm: Seq<u8>, t: TypeView) -> Seq<Option<TypeView>>;

/// The resource that a handle type is for, and whether it is borrowed.
pub uninterp spec fn wasm_handle(wasm: Seq<u8>, t: TypeView) -> Option<(bool, TypeView)>;

/// The types in a record, variant or tuple type.
pub uninterp spec fn wasm_fields(wasm: Seq<u8>, t: TypeView) -> Seq<Option<TypeView>>;

/// The types in any other defined type.
pub uninterp spec fn wasm_payload(wasm: Seq<u8>, t: TypeView) -> Seq<Option<TypeView>>;

/// The type that a type stands for, one step on.
pub uninterp spec fn wasm_peel(wasm: Seq<u8>, t: TypeView) -> Option<TypeView>;

/// The core types of every function and tag among the imports and exports of
/// a core module type: of a reference, whether it is to a type of the module's
/// own, and whether it is shared.
pub uninterp spec fn wasm_module_funcs(wasm: Seq<u8>, t: TypeView) -> Seq<
    Seq<Option<(bool, bool)>>,
>;

/// The core types of every table and global among them.
pub uninterp spec fn wasm_module_stores(wasm: Seq<u8>, t: TypeView) -> Seq<
    Seq<Option<(bool, bool)>>,
>;

/// Is a text a name as components have them by default?
pub uninterp spec fn wasm_name_fits(name: Seq<char>) -> bool;

/// An import or export.
pub enum Entity {
    Module(AnyTypeId),
    Func(AnyTypeId),
    Value(Option<AnyTypeId>),
    Type(AnyTypeId, AnyTypeId),
    Instance(AnyTypeId),
    Component(AnyTypeId),
}

/// What a type is a type of.
#[derive(Debug, Clone, Copy, PartialEq, Eq, Structural)]
pub enum Kind {
    Core,
    Module,
    Resource,
    Defined,
    Func,
    Instance,
    Component,
}

/// A section, or where a binary begins or ends.
pub enum Section {
    Start,
    End,
    Imports(Vec<String>),
    Exports(Vec<String>),
    Other,
}

/// What a type is a type of.
pub open spec fn kind_of(t: TypeView) -> Kind {
    match t {
        TypeView::Core(_) => Kind::Core,
        TypeView::Module(_) => Kind::Module,
        TypeView::Resource(_) => Kind::Resource,
        TypeView::Defined(_) => Kind::Defined,
        TypeView::Func(_) => Kind::Func,
        TypeView::Instance(_) => Kind::Instance,
        TypeView::Component(_) => Kind::Component,
    }
}

/// A section over texts.
pub open spec fn section_view(s: Section) -> SectionView {
    match s {
        Section::Start => SectionView::Start,
        Section::End => SectionView::End,
        Section::Imports(names) => SectionView::Imports(views(names@)),
        Section::Exports(names) => SectionView::Exports(views(names@)),
        Section::Other => SectionView::Other,
    }
}

/// Sections over texts.
pub open spec fn section_views(s: Seq<Section>) -> Seq<SectionView> {
    s.map_values(|x: Section| section_view(x))
}

/// The view of a type that may be there.
pub open spec fn maybe_view(id: Option<AnyTypeId>) -> Option<TypeView> {
    match id {
        Some(id) => Some(type_view(id)),
        None => None,
    }
}

/// The views of types that may be there.
pub open spec fn maybe_views(ids: Seq<Option<AnyTypeId>>) -> Seq<Option<TypeView>> {
    ids.map_values(|id: Option<AnyTypeId>| maybe_view(id))
}

/// The views of imports or exports.
pub open spec fn entity_views(es: Seq<ComponentEntityType>) -> Seq<EntityView> {
    es.map_values(|e: ComponentEntityType| entity_view(e))
}

/// Is a type, where there is one, a defined type from that validation?
pub open spec fn defined_run(id: Option<AnyTypeId>, run: nat) -> bool {
    id is Some ==> type_run(id->0) == run && type_view(id->0) is Defined
}

/// Are all the types that are there defined types from that validation?
pub open spec fn all_run(ids: Seq<Option<AnyTypeId>>, run: nat) -> bool {
    forall|i: int| 0 <= i < ids.len() ==> defined_run(#[trigger] ids[i], run)
}

/// `wasmparser::Validator::payload` on every payload that
/// `wasmparser::Parser::parse_all` yields, with every proposal switched on:
/// where none is refused, the types that it hands out, one place for each
/// payload. The last payload ends the binary itself. Function bodies are not
/// looked at. No instantiation in the binary is one that validating gives up
/// on.
#[verifier::external_body]
fn validated(wasm: &[u8]) -> (r: Option<Vec<Option<Types>>>)
    requires
        settled(wasm@),
    ensures
        match r {
            Some(ts) => wasm_holds(wasm@) && ts@.len() > 0 && (ts@.last() matches Some(t)
                && types_of(t) == wasm@),
            None => !wasm_holds(wasm@),
        },
{
    let mut validator = Validator::new_with_features(WasmFeatures::all());
    Parser::new(0).parse_all(wasm).map(
        |payload| match validator.payload(&payload.ok()?).ok()? {
            ValidPayload::End(types) => Some(Some(types)),
            _ => Some(None),
        },
    ).collect()
}

/// The payloads that `wasmparser::Parser::parse_all` yields, with the names in
/// the component import and export sections.
#[verifier::external_body]
fn sections(wasm: &[u8]) -> (r: Vec<Section>)
    requires
        wasm_holds(wasm@),
    ensures
        section_views(r@) == wasm_sections(wasm@),
{
    Parser::new(0).parse_all(wasm).flatten().map(
        |payload| match payload {
            Payload::Version { .. } => Section::Start,
            Payload::End(_) => Section::End,
            Payload::ComponentImportSection(s) => {
                Section::Imports(s.into_iter().flatten().map(|i| i.name.0.to_string()).collect())
            },
            Payload::ComponentExportSection(s) => {
                Section::Exports(s.into_iter().flatten().map(|e| e.name.0.to_string()).collect())
            },
            _ => Section::Other,
        },
    ).collect()
}

/// `Types::component_entity_type_of_import` or
/// `Types::component_entity_type_of_export`.
#[verifier::external_body]
pub(crate) fn extern_of(t: &Types, name: &str, imported: bool) -> (r: Option<ComponentEntityType>)
    ensures
        match r {
            Some(e) => wasm_extern(types_of(*t), name@, imported) == Some(entity_view(e))
                && entity_run(e) == run_of(*t),
            None => wasm_extern(types_of(*t), name@, imported) is None,
        },
{
    if imported {
        t.component_entity_type_of_import(name)
    } else {
        t.component_entity_type_of_export(name)
    }
}

/// Do the types of an import or export come from that validation?
pub open spec fn of_run(e: Entity, run: nat) -> bool {
    match e {
        Entity::Module(m) => type_run(m) == run && type_view(m) is Module,
        Entity::Func(f) => type_run(f) == run && type_view(f) is Func,
        Entity::Value(v) => defined_run(v, run),
        Entity::Type(referenced, created) => type_run(referenced) == run && type_run(created)
            == run && kind_of(type_view(referenced)) == kind_of(type_view(created)),
        Entity::Instance(i) => type_run(i) == run && type_view(i) is Instance,
        Entity::Component(c) => type_run(c) == run && type_view(c) is Component,
    }
}

/// An import or export over numbers.
pub open spec fn taken_apart(e: Entity) -> EntityView {
    match e {
        Entity::Module(m) => EntityView::Module(type_view(m)),
        Entity::Func(f) => EntityView::Func(type_view(f)),
        Entity::Value(v) => EntityView::Value(maybe_view(v)),
        Entity::Type(referenced, created) => EntityView::Type(
            type_view(referenced),
            type_view(created),
        ),
        Entity::Instance(i) => EntityView::Instance(type_view(i)),
        Entity::Component(c) => EntityView::Component(type_view(c)),
    }
}

/// A `ComponentEntityType` taken apart.
#[verifier::external_body]
pub(crate) fn entity(e: &ComponentEntityType) -> (r: Entity)
    ensures
        taken_apart(r) == entity_view(*e),
        of_run(r, entity_run(*e)),
{
    match *e {
        Outer::Module(m) => Entity::Module(m.into()),
        Outer::Func(f) => Entity::Func(f.into()),
        Outer::Value(ComponentValType::Primitive(_)) => Entity::Value(None),
        Outer::Value(ComponentValType::Type(v)) => Entity::Value(Some(v.into())),
        Outer::Type { referenced, created } => Entity::Type(referenced.into(), created.into()),
        Outer::Instance(i) => Entity::Instance(i.into()),
        Outer::Component(c) => Entity::Component(c.into()),
    }
}

/// An `AnyTypeId` told apart.
#[verifier::external_body]
pub(crate) fn kind(id: &AnyTypeId) -> (r: Kind)
    ensures
        r == kind_of(type_view(*id)),
{
    match id {
        AnyTypeId::Core(ComponentCoreTypeId::Sub(_)) => Kind::Core,
        AnyTypeId::Core(ComponentCoreTypeId::Module(_)) => Kind::Module,
        AnyTypeId::Component(ComponentAnyTypeId::Resource(_)) => Kind::Resource,
        AnyTypeId::Component(ComponentAnyTypeId::Defined(_)) => Kind::Defined,
        AnyTypeId::Component(ComponentAnyTypeId::Func(_)) => Kind::Func,
        AnyTypeId::Component(ComponentAnyTypeId::Instance(_)) => Kind::Instance,
        AnyTypeId::Component(ComponentAnyTypeId::Component(_)) => Kind::Component,
    }
}

/// `==` of `AnyTypeId`, on types that come from one validation.
#[verifier::external_body]
pub(crate) fn same(a: &AnyTypeId, b: &AnyTypeId) -> (r: bool)
    requires
        type_run(*a) == type_run(*b),
    ensures
        r == (type_view(*a) == type_view(*b)),
{
    a == b
}

/// A copy of an `AnyTypeId`.
#[verifier::external_body]
pub(crate) fn copied(a: &AnyTypeId) -> (r: AnyTypeId)
    ensures
        r == *a,
{
    *a
}

/// The exports of a `ComponentInstanceType`.
#[verifier::external_body]
pub(crate) fn instance_items(t: &Types, id: &AnyTypeId) -> (r: Vec<ComponentEntityType>)
    requires
        type_run(*id) == run_of(*t),
        type_view(*id) is Instance,
    ensures
        entity_views(r@) == wasm_instance(types_of(*t), type_view(*id)),
        forall|i: int| 0 <= i < r@.len() ==> entity_run(#[trigger] r@[i]) == run_of(*t),
{
    t[id.unwrap_component_instance_type()].exports.values().copied().collect()
}

/// The names of the exports of a `ComponentInstanceType`, one for each.
#[verifier::external_body]
pub(crate) fn instance_names(t: &Types, id: &AnyTypeId) -> (r: Vec<String>)
    requires
        type_run(*id) == run_of(*t),
        type_view(*id) is Instance,
    ensures
        views(r@) == wasm_instance_names(types_of(*t), type_view(*id)),
        r@.len() == wasm_instance(types_of(*t), type_view(*id)).len(),
{
    t[id.unwrap_component_instance_type()].exports.keys().cloned().collect()
}

/// The imports of a `ComponentType`.
#[verifier::external_body]
pub(crate) fn component_imports(t: &Types, id: &AnyTypeId) -> (r: Vec<ComponentEntityType>)
    requires
        type_run(*id) == run_of(*t),
        type_view(*id) is Component,
    ensures
        entity_views(r@) == wasm_component(types_of(*t), type_view(*id)).0,
        forall|i: int| 0 <= i < r@.len() ==> entity_run(#[trigger] r@[i]) == run_of(*t),
{
    t[id.unwrap_component_type()].imports.values().copied().collect()
}

/// The exports of a `ComponentType`.
#[verifier::external_body]
pub(crate) fn component_exports(t: &Types, id: &AnyTypeId) -> (r: Vec<ComponentEntityType>)
    requires
        type_run(*id) == run_of(*t),
        type_view(*id) is Component,
    ensures
        entity_views(r@) == wasm_component(types_of(*t), type_view(*id)).1,
        forall|i: int| 0 <= i < r@.len() ==> entity_run(#[trigger] r@[i]) == run_of(*t),
{
    t[id.unwrap_component_type()].exports.values().copied().collect()
}

/// The names of the exports of a `ComponentType`.
#[verifier::external_body]
pub(crate) fn component_names(t: &Types, id: &AnyTypeId) -> (r: Vec<String>)
    requires
        type_run(*id) == run_of(*t),
        type_view(*id) is Component,
    ensures
        views(r@) == wasm_component_names(types_of(*t), type_view(*id)),
{
    t[id.unwrap_component_type()].exports.keys().cloned().collect()
}

/// The parameters and the result of a `ComponentFuncType`.
#[verifier::external_body]
pub(crate) fn func_parts(t: &Types, id: &AnyTypeId) -> (r: Vec<Option<AnyTypeId>>)
    requires
        type_run(*id) == run_of(*t),
        type_view(*id) is Func,
    ensures
        maybe_views(r@) == wasm_func(types_of(*t), type_view(*id)),
        all_run(r@, run_of(*t)),
{
    let f = &t[id.unwrap_component_func_type()];
    f.params.iter().map(|p| p.1).chain(f.result).map(
        |v| match v {
            ComponentValType::Primitive(_) => None,
            ComponentValType::Type(id) => Some(id.into()),
        },
    ).collect()
}

/// A `ComponentDefinedType`, where it is `Own` or `Borrow`.
#[verifier::external_body]
pub(crate) fn handle(t: &Types, id: &AnyTypeId) -> (r: Option<(bool, AnyTypeId)>)
    requires
        type_run(*id) == run_of(*t),
        type_view(*id) is Defined,
    ensures
        match r {
            Some(h) => wasm_handle(types_of(*t), type_view(*id)) == Some((h.0, type_view(h.1)))
                && type_run(h.1) == run_of(*t),
            None => wasm_handle(types_of(*t), type_view(*id)) is None,
        },
{
    match t[id.unwrap_component_defined_type()] {
        ComponentDefinedType::Own(r) => Some((false, r.into())),
        ComponentDefinedType::Borrow(r) => Some((true, r.into())),
        _ => None,
    }
}

/// The types in a `ComponentDefinedType`, where it is `Record`, `Variant` or
/// `Tuple`. Each is a defined type or none.
#[verifier::external_body]
pub(crate) fn fields(t: &Types, id: &AnyTypeId) -> (r: Vec<Option<AnyTypeId>>)
    requires
        type_run(*id) == run_of(*t),
        type_view(*id) is Defined,
    ensures
        maybe_views(r@) == wasm_fields(types_of(*t), type_view(*id)),
        all_run(r@, run_of(*t)),
{
    let one = |v: &ComponentValType| match v {
        ComponentValType::Primitive(_) => None,
        ComponentValType::Type(id) => Some((*id).into()),
    };
    match &t[id.unwrap_component_defined_type()] {
        ComponentDefinedType::Record(r) => r.fields.values().map(one).collect(),
        ComponentDefinedType::Variant(v) => {
            v.cases.values().map(|c| c.ty.as_ref().and_then(one)).collect()
        },
        ComponentDefinedType::Tuple(p) => p.types.iter().map(one).collect(),
        _ => Vec::new(),
    }
}

/// The types in a `ComponentDefinedType` of any other variant.
#[verifier::external_body]
pub(crate) fn payload(t: &Types, id: &AnyTypeId) -> (r: Vec<Option<AnyTypeId>>)
    requires
        type_run(*id) == run_of(*t),
        type_view(*id) is Defined,
    ensures
        maybe_views(r@) == wasm_payload(types_of(*t), type_view(*id)),
        all_run(r@, run_of(*t)),
{
    let one = |v: ComponentValType| match v {
        ComponentValType::Primitive(_) => None,
        ComponentValType::Type(id) => Some(id.into()),
    };
    match t[id.unwrap_component_defined_type()] {
        ComponentDefinedType::List(v) | ComponentDefinedType::FixedSizeList(v, _) => vec![one(v)],
        ComponentDefinedType::Option(v) => vec![one(v)],
        ComponentDefinedType::Result { ok, err } => vec![ok.and_then(one), err.and_then(one)],
        ComponentDefinedType::Future(v) | ComponentDefinedType::Stream(v) => vec![v.and_then(one)],
        _ => Vec::new(),
    }
}

/// `AnyTypeId::peel_alias`.
#[verifier::external_body]
pub(crate) fn peeled(t: &Types, id: &AnyTypeId) -> (r: Option<AnyTypeId>)
    requires
        type_run(*id) == run_of(*t),
    ensures
        match r {
            Some(next) => wasm_peel(types_of(*t), type_view(*id)) == Some(type_view(next))
                && type_run(next) == run_of(*t),
            None => wasm_peel(types_of(*t), type_view(*id)) is None,
        },
{
    id.peel_alias(t)
}

/// Rows of core types.
pub open spec fn core_rows(rows: Seq<Vec<Option<(bool, bool)>>>) -> Seq<Seq<Option<(bool, bool)>>> {
    rows.map_values(|row: Vec<Option<(bool, bool)>>| row@)
}

/// The parameters and results of the functions and tags among the imports and
/// exports of a `ModuleType`.
#[verifier::external_body]
pub(crate) fn module_funcs(t: &Types, id: &AnyTypeId) -> (r: Vec<Vec<Option<(bool, bool)>>>)
    requires
        type_run(*id) == run_of(*t),
        type_view(*id) is Module,
    ensures
        core_rows(r@) == wasm_module_funcs(types_of(*t), type_view(*id)),
{
    let m = &t[id.unwrap_component_core_module_type()];
    let shape = |v: &ValType| v.as_reference_type().map(|r| match r.heap_type() {
        HeapType::Concrete(_) => (true, false),
        HeapType::Abstract { shared, .. } => (false, shared),
    });
    m.imports.values().chain(m.exports.values()).map(|e| match e {
        EntityType::Func(f) | EntityType::Tag(f) => {
            let f = t[*f].unwrap_func();
            f.params().iter().chain(f.results()).map(shape).collect()
        },
        _ => Vec::new(),
    }).collect()
}

/// The elements of the tables and the contents of the globals among the
/// imports and exports of a `ModuleType`.
#[verifier::external_body]
pub(crate) fn module_stores(t: &Types, id: &AnyTypeId) -> (r: Vec<Vec<Option<(bool, bool)>>>)
    requires
        type_run(*id) == run_of(*t),
        type_view(*id) is Module,
    ensures
        core_rows(r@) == wasm_module_stores(types_of(*t), type_view(*id)),
{
    let m = &t[id.unwrap_component_core_module_type()];
    let shape = |v: ValType| v.as_reference_type().map(|r| match r.heap_type() {
        HeapType::Concrete(_) => (true, false),
        HeapType::Abstract { shared, .. } => (false, shared),
    });
    m.imports.values().chain(m.exports.values()).map(|e| match e {
        EntityType::Table(x) => vec![shape(ValType::Ref(x.element_type))],
        EntityType::Global(g) => vec![shape(g.content_type)],
        _ => Vec::new(),
    }).collect()
}

/// `ComponentName::new`.
#[verifier::external_body]
pub(crate) fn name_fits(name: &str) -> (r: bool)
    ensures
        r == wasm_name_fits(name@),
{
    ComponentName::new(name, 0).is_ok()
}

/// The types of a binary that holds up.
pub(crate) fn typed(wasm: &[u8]) -> (r: Option<Types>)
    requires
        settled(wasm@),
    ensures
        match r {
            Some(t) => wasm_holds(wasm@) && types_of(t) == wasm@,
            None => !wasm_holds(wasm@),
        },
{
    match validated(wasm) {
        None => None,
        Some(mut types) => match types.pop() {
            Some(last) => last,
            None => {
                assert(false);
                None
            },
        },
    }
}

/// As many steps as a walk through types may take. A binary that has more
/// types is larger than any that is read.
pub const STEPS: u32 = 0xffff_ffff;

/// How deep in nested binaries the `n`-th section stands.
pub open spec fn depth_at(sections: Seq<SectionView>, n: int) -> int
    decreases n,
{
    if n <= 0 {
        0
    } else {
        depth_at(sections, n - 1) + match sections[n - 1] {
            SectionView::Start => 1int,
            SectionView::End => -1int,
            _ => 0int,
        }
    }
}

/// The names in a section of the binary itself.
pub open spec fn section_names(s: SectionView, imported: bool) -> Seq<Seq<char>> {
    match s {
        SectionView::Imports(names) => if imported { names } else { Seq::empty() },
        SectionView::Exports(names) => if imported { Seq::empty() } else { names },
        _ => Seq::empty(),
    }
}

/// The names of the imports, or of the exports, in the first `n` sections,
/// nested binaries aside.
pub open spec fn top_names(sections: Seq<SectionView>, imported: bool, n: int) -> Seq<Seq<char>>
    decreases n,
{
    if n <= 0 {
        Seq::empty()
    } else if depth_at(sections, n - 1) == 1 {
        top_names(sections, imported, n - 1) + section_names(sections[n - 1], imported)
    } else {
        top_names(sections, imported, n - 1)
    }
}

/// The names of the imports, or of the exports, of a component in order.
pub open spec fn extern_names(wasm: Seq<u8>, imported: bool) -> Seq<Seq<char>> {
    let s = wasm_sections(wasm);
    top_names(s, imported, s.len() as int)
}

fn append(all: &mut Vec<String>, more: &[String])
    ensures
        views(final(all)@) == views(old(all)@) + views(more@),
{
    let ghost start = views(all@);
    let mut i: usize = 0;
    assert(views(all@) =~= start + views(more@).subrange(0, 0));
    while i < more.len()
        invariant
            i <= more@.len(),
            start == views(old(all)@),
            views(all@) == start + views(more@).subrange(0, i as int),
        decreases more.len() - i,
    {
        let ghost before = all@;
        all.push(owned(more[i].as_str()));
        assert(views(all@) =~= views(before).push(views(more@)[i as int]));
        assert(views(more@).subrange(0, i + 1) =~= views(more@).subrange(0, i as int).push(
            views(more@)[i as int],
        ));
        i += 1;
    }
    assert(views(more@).subrange(0, i as int) =~= views(more@));
}

/// The names of the imports, or of the exports, of a component in order.
pub(crate) fn extern_list(wasm: &[u8], imported: bool) -> (r: Vec<String>)
    requires
        wasm_holds(wasm@),
    ensures
        views(r@) == extern_names(wasm@, imported),
{
    let all = sections(wasm);
    let ghost s = wasm_sections(wasm@);
    let mut r: Vec<String> = Vec::new();
    let mut depth: i128 = 0;
    let mut i: usize = 0;
    assert(views(r@) =~= top_names(s, imported, 0));
    while i < all.len()
        invariant
            i <= all@.len(),
            s == section_views(all@),
            depth == depth_at(s, i as int),
            -i <= depth <= i,
            views(r@) == top_names(s, imported, i as int),
        decreases all.len() - i,
    {
        assert(s[i as int] == section_view(all@[i as int]));
        let ghost before = views(r@);
        match &all[i] {
            Section::Start => {
                assert(before + section_names(s[i as int], imported) =~= before);
                depth = depth + 1;
            },
            Section::End => {
                assert(before + section_names(s[i as int], imported) =~= before);
                depth = depth - 1;
            },
            Section::Imports(names) => {
                if depth == 1 && imported {
                    append(&mut r, names);
                } else {
                    assert(depth == 1 ==> before + section_names(s[i as int], imported) =~= before);
                }
            },
            Section::Exports(names) => {
                if depth == 1 && !imported {
                    append(&mut r, names);
                } else {
                    assert(depth == 1 ==> before + section_names(s[i as int], imported) =~= before);
                }
            },
            Section::Other => {
                assert(before + section_names(s[i as int], imported) =~= before);
            },
        }
        i += 1;
    }
    r
}

/// Types over numbers.
pub open spec fn type_views(ids: Seq<AnyTypeId>) -> Seq<TypeView> {
    ids.map_values(|id: AnyTypeId| type_view(id))
}

/// Do types come from that validation?
pub open spec fn types_run(ids: Seq<AnyTypeId>, run: nat) -> bool {
    forall|i: int| 0 <= i < ids.len() ==> type_run(#[trigger] ids[i]) == run
}

/// Is a type among others?
pub(crate) fn one_of(ids: &[AnyTypeId], id: &AnyTypeId) -> (r: bool)
    requires
        types_run(ids@, type_run(*id)),
    ensures
        r == type_views(ids@).contains(type_view(*id)),
{
    let ghost all = type_views(ids@);
    let mut i: usize = 0;
    while i < ids.len()
        invariant
            i <= ids@.len(),
            all == type_views(ids@),
            types_run(ids@, type_run(*id)),
            forall|k: int| 0 <= k < i ==> #[trigger] all[k] != type_view(*id),
        decreases ids.len() - i,
    {
        assert(all[i as int] == type_view(ids@[i as int]));
        if same(&ids[i], id) {
            assert(all[i as int] == type_view(*id));
            return true;
        }
        i += 1;
    }
    false
}

/// Is a type, or what it stands for in that many steps, among others?
pub open spec fn stands_for(wasm: Seq<u8>, t: TypeView, others: Seq<TypeView>, steps: nat) -> bool
    decreases steps,
{
    others.contains(t) || (steps > 0 && wasm_peel(wasm, t) is Some && stands_for(
        wasm,
        wasm_peel(wasm, t)->0,
        others,
        (steps - 1) as nat,
    ))
}

/// Is a type, or what it stands for, among others?
pub(crate) fn traced(t: &Types, id: &AnyTypeId, others: &[AnyTypeId]) -> (r: bool)
    requires
        type_run(*id) == run_of(*t),
        types_run(others@, run_of(*t)),
    ensures
        r == stands_for(types_of(*t), type_view(*id), type_views(others@), STEPS as nat),
{
    let ghost w = types_of(*t);
    let ghost set = type_views(others@);
    let mut at = copied(id);
    let mut steps: u32 = STEPS;
    loop
        invariant
            w == types_of(*t),
            set == type_views(others@),
            type_run(at) == run_of(*t),
            types_run(others@, run_of(*t)),
            stands_for(w, type_view(*id), set, STEPS as nat) == stands_for(
                w,
                type_view(at),
                set,
                steps as nat,
            ),
        decreases steps,
    {
        if one_of(others, &at) {
            return true;
        }
        if steps == 0 {
            return false;
        }
        match peeled(t, &at) {
            None => {
                return false;
            },
            Some(next) => {
                at = next;
            },
        }
        steps = steps - 1;
    }
}

} // verus!
